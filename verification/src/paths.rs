use vstd::prelude::*;

verus! {

/// Length of the longest common prefix of two segment sequences.
pub open spec fn common_prefix_len(a: Seq<Seq<char>>, b: Seq<Seq<char>>) -> nat
    decreases a.len(),
{
    if a.len() == 0 || b.len() == 0 || a[0] != b[0] {
        0
    } else {
        (1 + common_prefix_len(a.drop_first(), b.drop_first())) as nat
    }
}

pub proof fn lemma_common_prefix_len(a: Seq<Seq<char>>, b: Seq<Seq<char>>)
    ensures
        common_prefix_len(a, b) <= a.len(),
        common_prefix_len(a, b) <= b.len(),
        forall|i: int| 0 <= i < common_prefix_len(a, b) ==> a[i] == b[i],
        common_prefix_len(a, b) < a.len() && common_prefix_len(a, b) < b.len()
            ==> a[common_prefix_len(a, b) as int] != b[common_prefix_len(a, b) as int],
    decreases a.len(),
{
    if a.len() == 0 || b.len() == 0 || a[0] != b[0] {
    } else {
        lemma_common_prefix_len(a.drop_first(), b.drop_first());
        let n = common_prefix_len(a.drop_first(), b.drop_first());
        assert forall|i: int| 0 <= i < common_prefix_len(a, b) implies a[i] == b[i] by {
            if i > 0 {
                assert(a.drop_first()[i - 1] == b.drop_first()[i - 1]);
            }
        }
        if n + 1 < a.len() && n + 1 < b.len() {
            assert(a.drop_first()[n as int] == a[n as int + 1]);
            assert(b.drop_first()[n as int] == b[n as int + 1]);
        }
    }
}

/// Longest common prefix of two paths, compared segment by segment
/// from the front.
pub fn common_prefix(a: &Vec<String>, b: &Vec<String>) -> (r: Vec<String>)
    ensures
        r.deep_view() == a.deep_view().take(common_prefix_len(a.deep_view(), b.deep_view()) as int),
        r@.len() == common_prefix_len(a.deep_view(), b.deep_view()),
{
    let ghost ad = a.deep_view();
    let ghost bd = b.deep_view();
    let mut r: Vec<String> = Vec::new();
    let mut i: usize = 0;
    while i < a.len() && i < b.len() && a[i] == b[i]
        invariant
            ad == a.deep_view(),
            bd == b.deep_view(),
            i <= a.len(),
            i <= b.len(),
            forall|j: int| 0 <= j < i ==> ad[j] == bd[j],
            r@.len() == i,
            r.deep_view() == ad.take(i as int),
        decreases a.len() - i,
    {
        let s = a[i].clone();
        r.push(s);
        assert(r.deep_view() =~= ad.take(i + 1));
        i = i + 1;
    }
    proof {
        lemma_common_prefix_len_from_bound(ad, bd, i as nat);
    }
    r
}

/// A common-prefix bound that is maximal pins down `common_prefix_len`.
proof fn lemma_common_prefix_len_from_bound(a: Seq<Seq<char>>, b: Seq<Seq<char>>, n: nat)
    requires
        n <= a.len(),
        n <= b.len(),
        forall|j: int| 0 <= j < n ==> a[j] == b[j],
        n < a.len() && n < b.len() ==> a[n as int] != b[n as int],
    ensures
        common_prefix_len(a, b) == n,
    decreases a.len(),
{
    if n == 0 {
        if a.len() == 0 || b.len() == 0 || a[0] != b[0] {
        }
    } else {
        assert(a[0] == b[0]);
        assert forall|j: int| 0 <= j < n - 1 implies a.drop_first()[j] == b.drop_first()[j] by {
            assert(a[j + 1] == b[j + 1]);
        }
        if n - 1 < a.drop_first().len() && n - 1 < b.drop_first().len() {
            assert(a.drop_first()[n - 1] == a[n as int]);
            assert(b.drop_first()[n - 1] == b[n as int]);
        }
        lemma_common_prefix_len_from_bound(a.drop_first(), b.drop_first(), (n - 1) as nat);
    }
}

/// Whether a path segment carries the library marker suffix `.lib`.
pub open spec fn spec_ends_lib(s: Seq<char>) -> bool {
    s.len() >= 4 && s.skip(s.len() - 4) == ".lib"@
}

/// Whether `s` ends with the library marker suffix `.lib`.
pub fn ends_lib(s: &str) -> (r: bool)
    ensures
        r == spec_ends_lib(s@),
{
    proof {
        reveal_strlit(".lib");
    }
    let n = s.unicode_len();
    if n < 4 {
        false
    } else {
        let suffix = s.substring_char(n - 4, n);
        let r = suffix.to_owned() == String::from_str(".lib");
        proof {
            assert(s@.subrange(n - 4, n as int) =~= s@.skip(s@.len() - 4));
        }
        r
    }
}

/// A relative path names a library directory when exactly its final
/// segment carries the marker suffix.
pub open spec fn spec_is_lib_dir(segs: Seq<Seq<char>>) -> bool {
    &&& segs.len() > 0
    &&& spec_ends_lib(segs.last())
    &&& forall|i: int| 0 <= i < segs.len() - 1 ==> !spec_ends_lib(#[trigger] segs[i])
}

/// A directory is a library root when the marker suffix appears in its
/// final path segment and in no earlier one.
pub fn is_lib_dir(segments: &Vec<String>) -> (r: bool)
    ensures
        r == spec_is_lib_dir(segments.deep_view()),
{
    let ghost sd = segments.deep_view();
    if segments.len() == 0 {
        return false;
    }
    if !ends_lib(segments[segments.len() - 1].as_str()) {
        return false;
    }
    let mut i: usize = 0;
    while i < segments.len() - 1
        invariant
            sd == segments.deep_view(),
            segments@.len() > 0,
            i <= segments@.len() - 1,
            spec_ends_lib(sd.last()),
            forall|k: int| 0 <= k < i ==> !spec_ends_lib(#[trigger] sd[k]),
        decreases segments@.len() - 1 - i,
    {
        if ends_lib(segments[i].as_str()) {
            proof {
                assert(sd[i as int] == segments@[i as int]@);
            }
            return false;
        }
        i = i + 1;
    }
    true
}

/// The final segment with every trailing marker suffix removed.
pub open spec fn spec_trim_lib(s: Seq<char>) -> Seq<char>
    decreases s.len(),
{
    if spec_ends_lib(s) {
        spec_trim_lib(s.take(s.len() - 4))
    } else {
        s
    }
}

/// Strips every trailing `.lib` marker from a segment.
pub fn trim_lib(s: &String) -> (r: String)
    ensures
        r@ == spec_trim_lib(s@),
{
    let mut cur: String = s.clone();
    while ends_lib(cur.as_str())
        invariant
            spec_trim_lib(cur@) == spec_trim_lib(s@),
        decreases cur@.len(),
    {
        let n = cur.as_str().unicode_len();
        let shorter = cur.as_str().substring_char(0, n - 4);
        proof {
            assert(cur@.subrange(0, n - 4) =~= cur@.take(cur@.len() - 4));
        }
        cur = shorter.to_owned();
    }
    cur
}

/// The segments joined with the separator between each pair.
pub open spec fn spec_join(segs: Seq<Seq<char>>, sep: Seq<char>) -> Seq<char>
    decreases segs.len(),
{
    if segs.len() == 0 {
        Seq::empty()
    } else if segs.len() == 1 {
        segs[0]
    } else {
        spec_join(segs.drop_last(), sep) + sep + segs.last()
    }
}

/// Joins the segments with the separator between each pair.
pub fn join_with(v: &Vec<String>, sep: &str) -> (r: String)
    ensures
        r@ == spec_join(v.deep_view(), sep@),
{
    let ghost vd = v.deep_view();
    let mut out = String::new();
    let mut j: usize = 0;
    while j < v.len()
        invariant
            vd == v.deep_view(),
            j <= v@.len(),
            out@ == spec_join(vd.take(j as int), sep@),
        decreases v@.len() - j,
    {
        if j > 0 {
            out.append(sep);
        }
        out.append(v[j].as_str());
        proof {
            assert(vd.take(j + 1).drop_last() =~= vd.take(j as int));
            assert(vd.take(j + 1).last() == vd[j as int]);
        }
        j = j + 1;
    }
    proof {
        assert(vd.take(vd.len() as int) =~= vd);
    }
    out
}

/// The canonical library name of a library directory: trim the marker
/// from the final segment, drop that segment entirely when the trimmed
/// form is the reserved primary-module word, then hyphen-join the rest.
pub open spec fn spec_lib_name(segs: Seq<Seq<char>>) -> Seq<char> {
    let trimmed = spec_trim_lib(segs.last());
    let kept = if trimmed == "core"@ {
        segs.drop_last()
    } else {
        segs.drop_last().push(trimmed)
    };
    spec_join(kept, "-"@)
}

/// Derives the canonical library name from a library directory's
/// relative path.
pub fn lib_rel_path_to_lib_name(lib_rel_path: &Vec<String>) -> (r: String)
    requires
        spec_is_lib_dir(lib_rel_path.deep_view()),
    ensures
        r@ == spec_lib_name(lib_rel_path.deep_view()),
{
    let ghost sd = lib_rel_path.deep_view();
    proof {
        reveal_strlit("core");
        reveal_strlit("-");
    }
    let trimmed = trim_lib(&lib_rel_path[lib_rel_path.len() - 1]);
    let mut kept: Vec<String> = Vec::new();
    let mut i: usize = 0;
    while i < lib_rel_path.len() - 1
        invariant
            sd == lib_rel_path.deep_view(),
            sd.len() > 0,
            i <= sd.len() - 1,
            kept@.len() == i,
            forall|k: int| 0 <= k < i ==> kept.deep_view()[k] == sd[k],
        decreases sd.len() - 1 - i,
    {
        let s = lib_rel_path[i].clone();
        kept.push(s);
        i = i + 1;
    }
    let ghost kept_spec = if spec_trim_lib(sd.last()) == "core"@ {
        sd.drop_last()
    } else {
        sd.drop_last().push(spec_trim_lib(sd.last()))
    };
    if !(trimmed == String::from_str("core")) {
        kept.push(trimmed);
    }
    proof {
        assert(kept.deep_view() =~= kept_spec);
    }
    join_with(&kept, "-")
}

/// The relative path from `from` to `to`: one `..` segment for each
/// segment of `from` beyond the common prefix, then the remainder of `to`.
pub open spec fn spec_relative_path(from: Seq<Seq<char>>, to: Seq<Seq<char>>) -> Seq<Seq<char>> {
    let n = common_prefix_len(from, to) as int;
    Seq::new((from.len() - n) as nat, |i: int| ".."@) + to.skip(n)
}

/// Shortest "go up, then descend" path from `from` to `to`, both given
/// relative to the same base directory.
pub fn relative_path(from: &Vec<String>, to: &Vec<String>) -> (r: Vec<String>)
    ensures
        r.deep_view() == spec_relative_path(from.deep_view(), to.deep_view()),
{
    let ghost fd = from.deep_view();
    let ghost td = to.deep_view();
    let common = common_prefix(from, to);
    proof {
        lemma_common_prefix_len(fd, td);
    }
    proof {
        reveal_strlit("..");
    }
    let n = common.len();
    let ghost pops = from.len() - n;
    let mut r: Vec<String> = Vec::new();
    let mut i: usize = 0;
    while i < from.len() - n
        invariant
            n == common_prefix_len(fd, td),
            n <= from.len(),
            fd == from.deep_view(),
            i <= from.len() - n,
            r@.len() == i,
            forall|k: int| 0 <= k < i ==> r@[k]@ == ".."@,
        decreases from.len() - n - i,
    {
        r.push(String::from_str(".."));
        i = i + 1;
    }
    let mut j: usize = n;
    while j < to.len()
        invariant
            n == common_prefix_len(fd, td),
            n <= j,
            j <= to.len(),
            td == to.deep_view(),
            fd == from.deep_view(),
            n <= fd.len(),
            pops == fd.len() - n,
            r@.len() == pops + j - n,
            forall|k: int| 0 <= k < pops ==> r@[k]@ == ".."@,
            forall|k: int| pops <= k < r@.len() ==> r@[k]@ == td[n + k - pops],
        decreases to.len() - j,
    {
        let s = to[j].clone();
        r.push(s);
        j = j + 1;
    }
    proof {
        assert forall|k: int| 0 <= k < r@.len() implies r.deep_view()[k] == spec_relative_path(
            fd,
            td,
        )[k] by {
            if k < pops {
                assert(r@[k]@ == ".."@);
            } else {
                assert(r@[k]@ == td[n + k - pops]);
                assert(td.skip(n as int)[k - pops] == td[n + k - pops]);
            }
        }
        assert(r.deep_view() =~= spec_relative_path(fd, td));
    }
    r
}

} // verus!
