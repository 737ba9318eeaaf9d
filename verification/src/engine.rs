use vstd::prelude::*;

use crate::manifest::dep_entries;
use crate::manifest::dep_names_distinct;
use crate::manifest::doc_deps;
use crate::manifest::doc_has_package;
use crate::manifest::doc_package_name;
use crate::manifest::doc_text;
use crate::manifest::doc_to_string;
use crate::manifest::lex_le;
use crate::manifest::parse_doc;
use crate::manifest::set_dep_path;
use crate::manifest::set_package_name;
use crate::manifest::sort_deps;
use crate::manifest::spec_parse;
use crate::manifest::spec_set_dep_path;
use crate::manifest::spec_set_package_name;
use crate::manifest::spec_sort_deps;
use crate::paths::join_with;
use crate::paths::lib_rel_path_to_lib_name;
use crate::paths::relative_path;
use crate::paths::spec_is_lib_dir;
use crate::paths::spec_join;
use crate::paths::spec_lib_name;
use crate::paths::spec_relative_path;

verus! {

/// A manifest as read from disk: the original text and the parsed
/// document.
pub struct TomlFile {
    pub text: String,
    pub doc: toml_edit::DocumentMut,
}

/// One discovered library: its directory's path relative to the module
/// subtree, its canonical name, and its manifest when one was readable
/// and parsable.
pub struct LibAnalysis {
    pub lib_rel_path: Vec<String>,
    pub lib_name: String,
    pub cargo_toml: Option<TomlFile>,
}

/// Well-formedness of an analysis: the path names a library directory,
/// the name is the canonical one, and a parsed manifest has distinct
/// dependency names.
pub open spec fn lib_wf(l: LibAnalysis) -> bool {
    &&& spec_is_lib_dir(l.lib_rel_path.deep_view())
    &&& l.lib_name@ == spec_lib_name(l.lib_rel_path.deep_view())
    &&& (l.cargo_toml matches Some(tf) ==> dep_names_distinct(doc_deps(tf.doc)))
}

/// Builds the analysis of one library directory from its relative path
/// and the text of its manifest, when that file could be read. A
/// missing or unparsable manifest leaves the analysis manifest-less.
pub fn analyze_lib(lib_rel_path: Vec<String>, cargo_toml_text: Option<String>) -> (r: LibAnalysis)
    requires
        spec_is_lib_dir(lib_rel_path.deep_view()),
    ensures
        lib_wf(r),
        r.lib_rel_path == lib_rel_path,
        r.lib_name@ == spec_lib_name(lib_rel_path.deep_view()),
        cargo_toml_text is None ==> r.cargo_toml is None,
        cargo_toml_text matches Some(t) ==> (r.cargo_toml is Some <==> spec_parse(t@) is Some),
        r.cargo_toml matches Some(tf) ==> cargo_toml_text matches Some(t) && tf.text == t
            && spec_parse(t@) == Some(tf.doc),
{
    let lib_name = lib_rel_path_to_lib_name(&lib_rel_path);
    let cargo_toml = match cargo_toml_text {
        None => None,
        Some(t) => match parse_doc(t.as_str()) {
            None => None,
            Some(doc) => Some(TomlFile { text: t, doc }),
        },
    };
    LibAnalysis { lib_rel_path, lib_name, cargo_toml }
}

/// The registry: an immutable snapshot of canonical name to library
/// directory, taken before any manifest is rewritten, so that no
/// library's rewrite can affect another's resolution within a run.
pub struct LibAnalysisBundle {
    pub entries: Vec<(String, Vec<String>)>,
}

/// The registry as a sequence of name/path pairs.
pub open spec fn bundle_view(b: LibAnalysisBundle) -> Seq<(Seq<char>, Seq<Seq<char>>)> {
    Seq::new(b.entries@.len(), |i: int| (b.entries@[i].0@, b.entries@[i].1.deep_view()))
}

/// First entry whose name matches, searched front to back.
pub open spec fn spec_lookup(s: Seq<(Seq<char>, Seq<Seq<char>>)>, name: Seq<char>) -> Option<
    Seq<Seq<char>>,
>
    decreases s.len(),
{
    if s.len() == 0 {
        None
    } else if s[0].0 == name {
        Some(s[0].1)
    } else {
        spec_lookup(s.drop_first(), name)
    }
}

proof fn lemma_lookup_at(s: Seq<(Seq<char>, Seq<Seq<char>>)>, name: Seq<char>, i: int)
    requires
        0 <= i <= s.len(),
        forall|k: int| 0 <= k < i ==> (#[trigger] s[k]).0 != name,
    ensures
        i < s.len() && s[i].0 == name ==> spec_lookup(s, name) == Some(s[i].1),
        i == s.len() ==> spec_lookup(s, name) is None,
    decreases i, s.len(),
{
    if i == 0 {
        if s.len() == 0 {
        } else if s[0].0 == name {
        } else {
        }
    } else {
        assert(s[0].0 != name);
        assert forall|k: int| 0 <= k < i - 1 implies (#[trigger] s.drop_first()[k]).0 != name by {
            assert(s.drop_first()[k] == s[k + 1]);
        }
        lemma_lookup_at(s.drop_first(), name, i - 1);
        if i < s.len() && s[i].0 == name {
            assert(s.drop_first()[i - 1] == s[i]);
        }
    }
}

impl LibAnalysisBundle {
    /// Snapshots the names and directories of the given analyses.
    pub fn new(libs: &Vec<LibAnalysis>) -> (r: Self)
        ensures
            bundle_view(r).len() == libs@.len(),
            forall|i: int|
                0 <= i < libs@.len() ==> #[trigger] bundle_view(r)[i] == (
                libs@[i].lib_name@,
                libs@[i].lib_rel_path.deep_view(),
                ),
    {
        let mut entries: Vec<(String, Vec<String>)> = Vec::new();
        let mut i: usize = 0;
        while i < libs.len()
            invariant
                i <= libs@.len(),
                entries@.len() == i,
                forall|k: int|
                    0 <= k < i ==> (#[trigger] entries@[k]).0@ == libs@[k].lib_name@
                        && entries@[k].1.deep_view() == libs@[k].lib_rel_path.deep_view(),
            decreases libs@.len() - i,
        {
            let name = libs[i].lib_name.clone();
            let path = libs[i].lib_rel_path.clone();
            proof {
                assert(path@ =~= libs@[i as int].lib_rel_path@);
                assert(path.deep_view() =~= libs@[i as int].lib_rel_path.deep_view());
            }
            entries.push((name, path));
            i = i + 1;
        }
        let r = LibAnalysisBundle { entries };
        proof {
            assert forall|i: int| 0 <= i < libs@.len() implies #[trigger] bundle_view(r)[i] == (
                libs@[i].lib_name@,
                libs@[i].lib_rel_path.deep_view(),
            ) by {
                assert(bundle_view(r)[i].0 == libs@[i].lib_name@);
                assert(bundle_view(r)[i].1 == libs@[i].lib_rel_path.deep_view());
            }
        }
        r
    }

    /// Looks a canonical name up in the registry.
    pub fn get(&self, lib_name: &str) -> (r: Option<&Vec<String>>)
        ensures
            r matches Some(p) ==> spec_lookup(bundle_view(*self), lib_name@) == Some(p.deep_view()),
            r is None ==> spec_lookup(bundle_view(*self), lib_name@) is None,
    {
        let name_s = lib_name.to_owned();
        let mut i: usize = 0;
        while i < self.entries.len()
            invariant
                name_s@ == lib_name@,
                i <= self.entries@.len(),
                forall|k: int| 0 <= k < i ==> (#[trigger] bundle_view(*self)[k]).0 != lib_name@,
            decreases self.entries@.len() - i,
        {
            if self.entries[i].0 == name_s {
                proof {
                    assert(bundle_view(*self)[i as int].0 == lib_name@);
                    lemma_lookup_at(bundle_view(*self), lib_name@, i as int);
                }
                return Some(&self.entries[i].1);
            }
            proof {
                assert(bundle_view(*self)[i as int].0 != lib_name@);
            }
            i = i + 1;
        }
        proof {
            lemma_lookup_at(bundle_view(*self), lib_name@, self.entries@.len() as int);
        }
        None
    }
}

/// The path written for a dependency entry: the relative path from the
/// depending library to the dependency's directory when the Registry
/// resolves the name, and the fixed sentinel otherwise.
pub open spec fn spec_resolve(
    own: Seq<Seq<char>>,
    reg: Seq<(Seq<char>, Seq<Seq<char>>)>,
    name: Seq<char>,
) -> Seq<char> {
    match spec_lookup(reg, name) {
        Some(p) => spec_join(spec_relative_path(own, p), "/"@),
        None => "NOT_FOUND"@,
    }
}

/// The dependency table after one rewrite pass: every path-carrying
/// entry's path is replaced by its resolution, all else is untouched.
pub open spec fn spec_rewrite_deps(
    deps: Seq<(Seq<char>, Option<Seq<char>>)>,
    own: Seq<Seq<char>>,
    reg: Seq<(Seq<char>, Seq<Seq<char>>)>,
) -> Seq<(Seq<char>, Option<Seq<char>>)> {
    Seq::new(
        deps.len(),
        |i: int|
            if deps[i].1 is Some {
                (deps[i].0, Some(spec_resolve(own, reg, deps[i].0)))
            } else {
                deps[i]
            },
    )
}

/// The document after the path replacements for the entries of `deps`
/// from position `i` on: each path-carrying entry's path is set to its
/// resolution, in entry order.
pub open spec fn spec_apply_paths(
    d: toml_edit::DocumentMut,
    deps: Seq<(Seq<char>, Option<Seq<char>>)>,
    i: int,
    own: Seq<Seq<char>>,
    reg: Seq<(Seq<char>, Seq<Seq<char>>)>,
) -> toml_edit::DocumentMut
    decreases deps.len() - i,
{
    if i < 0 || i >= deps.len() {
        d
    } else {
        let d2 = if deps[i].1 is Some {
            spec_set_dep_path(d, deps[i].0, spec_resolve(own, reg, deps[i].0))
        } else {
            d
        };
        spec_apply_paths(d2, deps, i + 1, own, reg)
    }
}

/// The document after one whole rewrite: the package name set to the
/// library's canonical name, every path-carrying dependency entry
/// pointed at its resolution, and the dependency table reordered by
/// name.
pub open spec fn spec_fix_doc(
    d: toml_edit::DocumentMut,
    name: Seq<char>,
    own: Seq<Seq<char>>,
    reg: Seq<(Seq<char>, Seq<Seq<char>>)>,
) -> toml_edit::DocumentMut {
    spec_sort_deps(spec_apply_paths(spec_set_package_name(d, name), doc_deps(d), 0, own, reg))
}

/// The dependency entries are in ascending name order.
pub open spec fn sorted_by_name(deps: Seq<(Seq<char>, Option<Seq<char>>)>) -> bool {
    forall|i: int, j: int|
        0 <= i < j < deps.len() ==> lex_le((#[trigger] deps[i]).0, (#[trigger] deps[j]).0)
}

/// Rewriting an already rewritten dependency table changes nothing:
/// the per-run rewrite is idempotent over the table's content.
pub proof fn lemma_rewrite_idempotent(
    deps: Seq<(Seq<char>, Option<Seq<char>>)>,
    own: Seq<Seq<char>>,
    reg: Seq<(Seq<char>, Seq<Seq<char>>)>,
)
    ensures
        spec_rewrite_deps(spec_rewrite_deps(deps, own, reg), own, reg) == spec_rewrite_deps(
            deps,
            own,
            reg,
        ),
{
    let once = spec_rewrite_deps(deps, own, reg);
    let twice = spec_rewrite_deps(once, own, reg);
    assert forall|i: int| 0 <= i < deps.len() implies twice[i] == once[i] by {
        assert(once[i].0 == deps[i].0);
        assert(once[i].1 is Some <==> deps[i].1 is Some);
    }
    assert(twice =~= once);
}

/// Resolves one dependency name against the Registry: the relative
/// path from this library's directory to the target's, or the
/// sentinel for a name the Registry lacks. The separator is fixed to
/// `/`, the form Cargo accepts on every platform, rather than the
/// host's own; the contract states that choice.
pub fn resolve_dep_path(own_rel_path: &Vec<String>, libs: &LibAnalysisBundle, dep_name: &str) -> (r:
    String)
    ensures
        r@ == spec_resolve(own_rel_path.deep_view(), bundle_view(*libs), dep_name@),
{
    match libs.get(dep_name) {
        Some(p) => join_with(&relative_path(own_rel_path, p), "/"),
        None => String::from_str("NOT_FOUND"),
    }
}

/// Rewrites one library's manifest in memory: the package name becomes
/// the library's canonical name, every path-carrying dependency entry
/// points at its resolution, and the dependency table is reordered by
/// name. A manifest-less library is left untouched.
pub fn fix_lib(lib: &mut LibAnalysis, libs: &LibAnalysisBundle)
    requires
        old(lib).cargo_toml matches Some(tf) ==> dep_names_distinct(doc_deps(tf.doc)),
    ensures
        final(lib).lib_rel_path == old(lib).lib_rel_path,
        final(lib).lib_name == old(lib).lib_name,
        old(lib).cargo_toml is None ==> final(lib).cargo_toml is None,
        old(lib).cargo_toml matches Some(tf0) ==> final(lib).cargo_toml matches Some(tf) && {
            &&& tf.text == tf0.text
            &&& doc_has_package(tf.doc) == doc_has_package(tf0.doc)
            &&& doc_has_package(tf0.doc) ==> doc_package_name(tf.doc) == Some(
                old(lib).lib_name@,
            )
            &&& !doc_has_package(tf0.doc) ==> doc_package_name(tf.doc) == doc_package_name(
                tf0.doc,
            )
            &&& doc_deps(tf.doc).to_multiset() == spec_rewrite_deps(
                doc_deps(tf0.doc),
                old(lib).lib_rel_path.deep_view(),
                bundle_view(*libs),
            ).to_multiset()
            &&& sorted_by_name(doc_deps(tf.doc))
            &&& tf.doc == spec_fix_doc(
                tf0.doc,
                old(lib).lib_name@,
                old(lib).lib_rel_path.deep_view(),
                bundle_view(*libs),
            )
        },
{
    let ghost own = lib.lib_rel_path.deep_view();
    let ghost reg = bundle_view(*libs);
    let cargo_toml = lib.cargo_toml.take();
    match cargo_toml {
        None => {},
        Some(mut tf) => {
            let ghost deps0 = doc_deps(tf.doc);
            let ghost text0 = tf.text;
            let ghost rewritten = spec_rewrite_deps(deps0, own, reg);
            set_package_name(&mut tf.doc, lib.lib_name.as_str());
            let ghost doc1 = tf.doc;
            let ghost hp = doc_has_package(tf.doc);
            let ghost pn = doc_package_name(tf.doc);
            let entries = dep_entries(&tf.doc);
            let mut k: usize = 0;
            while k < entries.len()
                invariant
                    own == lib.lib_rel_path.deep_view(),
                    reg == bundle_view(*libs),
                    dep_names_distinct(deps0),
                    rewritten == spec_rewrite_deps(deps0, own, reg),
                    entries@.len() == deps0.len(),
                    forall|i: int|
                        0 <= i < entries@.len() ==> (#[trigger] entries@[i]).0@ == deps0[i].0
                            && entries@[i].1 == (deps0[i].1 is Some),
                    k <= entries@.len(),
                    tf.text == text0,
                    doc_has_package(tf.doc) == hp,
                    doc_package_name(tf.doc) == pn,
                    doc_deps(tf.doc).len() == deps0.len(),
                    forall|i: int| 0 <= i < k ==> doc_deps(tf.doc)[i] == rewritten[i],
                    forall|i: int| k <= i < deps0.len() ==> doc_deps(tf.doc)[i] == deps0[i],
                    spec_apply_paths(tf.doc, deps0, k as int, own, reg) == spec_apply_paths(
                        doc1,
                        deps0,
                        0,
                        own,
                        reg,
                    ),
                decreases entries@.len() - k,
            {
                let ghost dbefore = tf.doc;
                let ghost before = doc_deps(tf.doc);
                if entries[k].1 {
                    let path = resolve_dep_path(&lib.lib_rel_path, libs, entries[k].0.as_str());
                    set_dep_path(&mut tf.doc, entries[k].0.as_str(), path.as_str());
                    proof {
                        assert forall|i: int| 0 <= i < k + 1 implies doc_deps(tf.doc)[i]
                            == rewritten[i] by {
                            if i < k {
                                assert(before[i] == rewritten[i]);
                                assert(rewritten[i].0 == deps0[i].0);
                                assert(deps0[i].0 != deps0[k as int].0);
                            } else {
                                assert(before[i] == deps0[i]);
                            }
                        }
                        assert forall|i: int| k + 1 <= i < deps0.len() implies doc_deps(
                            tf.doc,
                        )[i] == deps0[i] by {
                            assert(before[i] == deps0[i]);
                            assert(deps0[i].0 != deps0[k as int].0);
                        }
                        assert(tf.doc == spec_set_dep_path(
                            dbefore,
                            deps0[k as int].0,
                            spec_resolve(own, reg, deps0[k as int].0),
                        ));
                        assert(spec_apply_paths(dbefore, deps0, k as int, own, reg)
                            == spec_apply_paths(tf.doc, deps0, k + 1, own, reg));
                    }
                } else {
                    proof {
                        assert(doc_deps(tf.doc)[k as int] == deps0[k as int]);
                        assert(rewritten[k as int] == deps0[k as int]);
                        assert(spec_apply_paths(dbefore, deps0, k as int, own, reg)
                            == spec_apply_paths(tf.doc, deps0, k + 1, own, reg));
                    }
                }
                k = k + 1;
            }
            proof {
                assert(doc_deps(tf.doc) =~= rewritten);
                assert(spec_apply_paths(tf.doc, deps0, deps0.len() as int, own, reg) == tf.doc);
            }
            sort_deps(&mut tf.doc);
            proof {
                assert(tf.doc == spec_sort_deps(spec_apply_paths(doc1, deps0, 0, own, reg)));
            }
            lib.cargo_toml = Some(tf);
        },
    }
}

/// The idempotent write decision: the rewritten text, but only when it
/// differs from the text the manifest was read from; a library whose
/// manifest is absent, or whose rewritten text is byte-identical to
/// the original, gets no write.
pub fn write_lib(lib: &LibAnalysis) -> (r: Option<String>)
    ensures
        lib.cargo_toml is None ==> r is None,
        lib.cargo_toml matches Some(tf) ==> {
            &&& (r is Some <==> doc_text(tf.doc) != tf.text@)
            &&& (r matches Some(t) ==> t@ == doc_text(tf.doc))
        },
{
    match &lib.cargo_toml {
        None => None,
        Some(tf) => {
            let new_text = doc_to_string(&tf.doc);
            if new_text == tf.text {
                None
            } else {
                Some(new_text)
            }
        },
    }
}

/// The canonical names of the analyses, in order.
pub open spec fn lib_names(libs: Seq<LibAnalysis>) -> Seq<Seq<char>> {
    Seq::new(libs.len(), |i: int| libs[i].lib_name@)
}

/// No name occurs twice.
pub open spec fn names_distinct(names: Seq<Seq<char>>) -> bool {
    forall|i: int, j: int| 0 <= i < j < names.len() ==> names[i] != names[j]
}

/// The error message reported for a duplicated canonical name.
pub open spec fn err_msg(name: Seq<char>) -> Seq<char> {
    "multiple libs with the same name: "@ + name
}

/// Position `i` holds the first occurrence of a name that occurs
/// again later.
pub open spec fn is_first_dup(names: Seq<Seq<char>>, i: int) -> bool {
    &&& 0 <= i < names.len()
    &&& forall|j: int| 0 <= j < i ==> names[j] != names[i]
    &&& exists|j: int| i < j < names.len() && names[j] == names[i]
}

/// The duplicate-name messages for positions at or after `i`, one per
/// duplicated name, in order of first occurrence.
pub open spec fn spec_dup_msgs(names: Seq<Seq<char>>, i: int) -> Seq<Seq<char>>
    decreases names.len() - i,
{
    if i < 0 || i >= names.len() {
        Seq::empty()
    } else {
        let rest = spec_dup_msgs(names, i + 1);
        if is_first_dup(names, i) {
            seq![err_msg(names[i])] + rest
        } else {
            rest
        }
    }
}

proof fn lemma_first_dup_exists(names: Seq<Seq<char>>, k: int, j: int)
    requires
        0 <= k < j < names.len(),
        names[k] == names[j],
    ensures
        exists|i: int| is_first_dup(names, i),
    decreases k,
{
    if forall|m: int| 0 <= m < k ==> names[m] != names[k] {
        assert(is_first_dup(names, k));
    } else {
        let m = choose|m: int| 0 <= m < k && names[m] == names[k];
        lemma_first_dup_exists(names, m, j);
    }
}

proof fn lemma_dup_msgs_nonempty(names: Seq<Seq<char>>, m: int, i: int)
    requires
        0 <= m <= i,
        is_first_dup(names, i),
    ensures
        spec_dup_msgs(names, m).len() > 0,
    decreases i - m,
{
    if m == i {
    } else {
        lemma_dup_msgs_nonempty(names, m + 1, i);
    }
}

proof fn lemma_dup_msgs_empty(names: Seq<Seq<char>>, i: int)
    requires
        names_distinct(names),
        0 <= i,
    ensures
        spec_dup_msgs(names, i).len() == 0,
    decreases names.len() - i,
{
    if i >= names.len() {
    } else {
        assert(!is_first_dup(names, i));
        lemma_dup_msgs_empty(names, i + 1);
    }
}

/// Checks global name uniqueness: succeeds when no two analyses share
/// a canonical name, and otherwise reports one message per duplicated
/// name, in order of first occurrence.
pub fn check_libs(libs: &Vec<LibAnalysis>) -> (r: Result<(), Vec<String>>)
    ensures
        r is Ok <==> names_distinct(lib_names(libs@)),
        r matches Err(e) ==> {
            &&& Seq::new(e@.len(), |k: int| e@[k]@) == spec_dup_msgs(lib_names(libs@), 0)
            &&& e@.len() > 0
        },
{
    let ghost names = lib_names(libs@);
    let mut errors: Vec<String> = Vec::new();
    let mut i: usize = 0;
    while i < libs.len()
        invariant
            names == lib_names(libs@),
            i <= libs@.len(),
            Seq::new(errors@.len(), |k: int| errors@[k]@) + spec_dup_msgs(names, i as int)
                == spec_dup_msgs(names, 0),
        decreases libs@.len() - i,
    {
        let ghost errs0 = Seq::new(errors@.len(), |k: int| errors@[k]@);
        let mut dup_before = false;
        let mut j: usize = 0;
        while j < i
            invariant
                names == lib_names(libs@),
                j <= i < libs@.len(),
                dup_before <==> exists|k: int| 0 <= k < j && names[k] == names[i as int],
            decreases i - j,
        {
            proof {
                assert(names[j as int] == libs@[j as int].lib_name@);
                assert(names[i as int] == libs@[i as int].lib_name@);
            }
            if libs[j].lib_name == libs[i].lib_name {
                dup_before = true;
            }
            j = j + 1;
        }
        if !dup_before {
            let mut dup_after = false;
            let mut j2: usize = i + 1;
            while j2 < libs.len()
                invariant
                    names == lib_names(libs@),
                    i < libs@.len(),
                    i < j2 <= libs@.len(),
                    dup_after <==> exists|k: int| i < k < j2 && names[k] == names[i as int],
                decreases libs@.len() - j2,
            {
                proof {
                    assert(names[j2 as int] == libs@[j2 as int].lib_name@);
                    assert(names[i as int] == libs@[i as int].lib_name@);
                }
                if libs[j2].lib_name == libs[i].lib_name {
                    dup_after = true;
                }
                j2 = j2 + 1;
            }
            if dup_after {
                let msg = String::from_str("multiple libs with the same name: ").concat(
                    libs[i].lib_name.as_str(),
                );
                errors.push(msg);
                proof {
                    assert(is_first_dup(names, i as int));
                    assert(Seq::new(errors@.len(), |k: int| errors@[k]@) =~= errs0 + seq![
                        err_msg(names[i as int]),
                    ]);
                    assert(errs0 + seq![err_msg(names[i as int])] + spec_dup_msgs(
                        names,
                        i + 1,
                    ) =~= errs0 + spec_dup_msgs(names, i as int));
                }
            } else {
                proof {
                    assert(!is_first_dup(names, i as int));
                }
            }
        } else {
            proof {
                assert(!is_first_dup(names, i as int));
            }
        }
        i = i + 1;
    }
    if errors.len() == 0 {
        proof {
            assert(spec_dup_msgs(names, 0).len() == 0);
            if !names_distinct(names) {
                let (k, j) = choose|k: int, j: int|
                    0 <= k < j < names.len() && names[k] == names[j];
                lemma_first_dup_exists(names, k, j);
                let fd = choose|i: int| is_first_dup(names, i);
                lemma_dup_msgs_nonempty(names, 0, fd);
            }
        }
        Ok(())
    } else {
        proof {
            if names_distinct(names) {
                lemma_dup_msgs_empty(names, 0);
            }
        }
        Err(errors)
    }
}

/// One library directory as handed to the engine: its path relative to
/// the module subtree, and its manifest's text when that file could be
/// read.
#[derive(Debug)]
pub struct LibSource {
    pub lib_rel_path: Vec<String>,
    pub cargo_toml_text: Option<String>,
}

/// One write the engine asks for: the manifest of the library at
/// `lib_rel_path` is to be replaced by `text`.
#[derive(Debug)]
pub struct LibWrite {
    pub lib_rel_path: Vec<String>,
    pub text: String,
}

/// The canonical names that the input directories derive, in order.
pub open spec fn input_names(libs: Seq<LibSource>) -> Seq<Seq<char>> {
    Seq::new(libs.len(), |i: int| spec_lib_name(libs[i].lib_rel_path.deep_view()))
}

/// The write targets one of the input libraries; that library had
/// manifest text, and the write's text differs from it — an unchanged
/// manifest is never written.
pub open spec fn covered(w: LibWrite, inputs: Seq<LibSource>) -> bool
    decreases inputs.len(),
{
    if inputs.len() == 0 {
        false
    } else if w.lib_rel_path.deep_view() == inputs[0].lib_rel_path.deep_view()
        && (inputs[0].cargo_toml_text matches Some(t) && w.text@ != t@) {
        true
    } else {
        covered(w, inputs.drop_first())
    }
}

proof fn lemma_covered_at(w: LibWrite, inputs: Seq<LibSource>, i: int)
    requires
        0 <= i < inputs.len(),
        w.lib_rel_path.deep_view() == inputs[i].lib_rel_path.deep_view(),
        inputs[i].cargo_toml_text matches Some(t) && w.text@ != t@,
    ensures
        covered(w, inputs),
    decreases i,
{
    if w.lib_rel_path.deep_view() == inputs[0].lib_rel_path.deep_view()
        && (inputs[0].cargo_toml_text matches Some(t) && w.text@ != t@) {
    } else {
        assert(i > 0);
        assert(inputs.drop_first()[i - 1] == inputs[i]);
        lemma_covered_at(w, inputs.drop_first(), i - 1);
    }
}

/// Every write targets an input library that had manifest text, and
/// carries text that differs from what that library was read with.
pub open spec fn writes_cover_inputs(ws: Seq<LibWrite>, inputs: Seq<LibSource>) -> bool {
    forall|k: int| #![trigger ws[k]] 0 <= k < ws.len() ==> covered(ws[k], inputs)
}

/// No two writes target the same library directory.
pub open spec fn writes_distinct(ws: Seq<LibWrite>) -> bool {
    forall|k1: int, k2: int|
        0 <= k1 < k2 < ws.len() ==> (#[trigger] ws[k1]).lib_rel_path.deep_view() != (
        #[trigger] ws[k2]).lib_rel_path.deep_view()
}

/// The Registry a run derives from its inputs: each input's canonical
/// name beside its directory, in input order.
pub open spec fn input_registry(inputs: Seq<LibSource>) -> Seq<(Seq<char>, Seq<Seq<char>>)> {
    Seq::new(
        inputs.len(),
        |i: int|
            (
                spec_lib_name(inputs[i].lib_rel_path.deep_view()),
                inputs[i].lib_rel_path.deep_view(),
            ),
    )
}

/// The text of the first write addressed to the given directory, when
/// one is.
pub open spec fn write_for(ws: Seq<LibWrite>, rel: Seq<Seq<char>>) -> Option<Seq<char>>
    decreases ws.len(),
{
    if ws.len() == 0 {
        None
    } else if ws[0].lib_rel_path.deep_view() == rel {
        Some(ws[0].text@)
    } else {
        write_for(ws.drop_first(), rel)
    }
}

proof fn lemma_write_for_push(ws: Seq<LibWrite>, w: LibWrite, rel: Seq<Seq<char>>)
    ensures
        write_for(ws.push(w), rel) == (if write_for(ws, rel) is Some {
            write_for(ws, rel)
        } else if w.lib_rel_path.deep_view() == rel {
            Some(w.text@)
        } else {
            None::<Seq<char>>
        }),
    decreases ws.len(),
{
    if ws.len() == 0 {
        assert(ws.push(w)[0] == w);
        assert(ws.push(w).drop_first() =~= Seq::<LibWrite>::empty());
    } else {
        assert(ws.push(w)[0] == ws[0]);
        assert(ws.push(w).drop_first() =~= ws.drop_first().push(w));
        lemma_write_for_push(ws.drop_first(), w, rel);
    }
}

/// What one run owes the library of input `i`: nothing when its
/// manifest is absent or does not parse; otherwise the rewritten
/// document's text, and only when that text differs from the one the
/// manifest was read with.
pub open spec fn expected_write(inputs: Seq<LibSource>, i: int) -> Option<Seq<char>> {
    match inputs[i].cargo_toml_text {
        Option::None => None,
        Option::Some(t) => match spec_parse(t@) {
            Option::None => None,
            Option::Some(d) => {
                let rel = inputs[i].lib_rel_path.deep_view();
                let dd = spec_fix_doc(d, spec_lib_name(rel), rel, input_registry(inputs));
                if doc_text(dd) != t@ {
                    Some(doc_text(dd))
                } else {
                    None
                }
            },
        },
    }
}

/// One engine run over the discovered library directories: analyzes
/// every library, aborts with one message per duplicated canonical
/// name before anything is written, and otherwise rewrites each
/// present manifest against the pre-run Registry snapshot and returns
/// the writes whose text differs from what was read — never a write
/// for an unchanged, absent or unparsable manifest. On success the
/// writes are pinned exactly: each input is owed precisely
/// `expected_write`, the rewritten document's rendering, whatever
/// order the libraries were processed in.
pub fn fix(libs_input: Vec<LibSource>) -> (r: Result<Vec<LibWrite>, Vec<String>>)
    requires
        forall|i: int|
            0 <= i < libs_input@.len() ==> spec_is_lib_dir(
                (#[trigger] libs_input@[i]).lib_rel_path.deep_view(),
            ),
    ensures
        r is Ok <==> names_distinct(input_names(libs_input@)),
        r matches Err(e) ==> {
            &&& Seq::new(e@.len(), |k: int| e@[k]@) == spec_dup_msgs(input_names(libs_input@), 0)
            &&& e@.len() > 0
        },
        r matches Ok(ws) ==> writes_cover_inputs(ws@, libs_input@) && writes_distinct(ws@),
        r matches Ok(ws) ==> forall|i: int|
            #![trigger libs_input@[i]]
            0 <= i < libs_input@.len() ==> write_for(
                ws@,
                libs_input@[i].lib_rel_path.deep_view(),
            ) == expected_write(libs_input@, i),
{
    let ghost inames = input_names(libs_input@);
    let mut analyzed: Vec<LibAnalysis> = Vec::new();
    let mut i: usize = 0;
    while i < libs_input.len()
        invariant
            inames == input_names(libs_input@),
            forall|idx: int|
                0 <= idx < libs_input@.len() ==> spec_is_lib_dir(
                    (#[trigger] libs_input@[idx]).lib_rel_path.deep_view(),
                ),
            i <= libs_input@.len(),
            analyzed@.len() == i,
            forall|k: int|
                0 <= k < i ==> {
                    &&& lib_wf(#[trigger] analyzed@[k])
                    &&& analyzed@[k].lib_rel_path.deep_view()
                        == libs_input@[k].lib_rel_path.deep_view()
                    &&& analyzed@[k].lib_name@ == inames[k]
                    &&& (libs_input@[k].cargo_toml_text matches Some(t) ==> (analyzed@[k].cargo_toml
                        is Some <==> spec_parse(t@) is Some))
                    &&& (analyzed@[k].cargo_toml matches Some(tf) ==> libs_input@[k].cargo_toml_text
                        matches Some(t) && tf.text == t && spec_parse(t@) == Some(tf.doc))
                },
        decreases libs_input@.len() - i,
    {
        let rel = libs_input[i].lib_rel_path.clone();
        proof {
            assert forall|j: int| 0 <= j < rel@.len() implies rel@[j]
                == libs_input@[i as int].lib_rel_path@[j] by {
                assert(cloned::<String>(libs_input@[i as int].lib_rel_path@[j], rel@[j]));
            }
            assert(rel@ =~= libs_input@[i as int].lib_rel_path@);
            assert(rel.deep_view() =~= libs_input@[i as int].lib_rel_path.deep_view());
        }
        let text = libs_input[i].cargo_toml_text.clone();
        proof {
            if libs_input@[i as int].cargo_toml_text is Some {
                assert(cloned::<String>(
                    libs_input@[i as int].cargo_toml_text.unwrap(),
                    text.unwrap(),
                ));
            }
            assert(text == libs_input@[i as int].cargo_toml_text);
        }
        let la = analyze_lib(rel, text);
        analyzed.push(la);
        i = i + 1;
    }
    proof {
        assert(lib_names(analyzed@) =~= inames);
    }
    match check_libs(&analyzed) {
        Err(e) => {
            return Err(e);
        },
        Ok(()) => {},
    }
    let bundle = LibAnalysisBundle::new(&analyzed);
    let ghost analyzed0 = analyzed@;
    let mut writes: Vec<LibWrite> = Vec::new();
    let ghost mut widx: Seq<int> = Seq::empty();
    proof {
        assert(analyzed@ =~= analyzed0.take(analyzed@.len() as int));
        assert forall|i: int| 0 <= i < libs_input@.len() implies #[trigger] bundle_view(bundle)[i]
            == input_registry(libs_input@)[i] by {
            assert(bundle_view(bundle)[i] == (
                analyzed0[i].lib_name@,
                analyzed0[i].lib_rel_path.deep_view(),
            ));
            assert(inames[i] == spec_lib_name(libs_input@[i].lib_rel_path.deep_view()));
        }
        assert(bundle_view(bundle) =~= input_registry(libs_input@));
        assert forall|i1: int, i2: int|
            0 <= i1 < i2 < libs_input@.len() implies (
        #[trigger] libs_input@[i1]).lib_rel_path.deep_view() != (
        #[trigger] libs_input@[i2]).lib_rel_path.deep_view() by {
            if libs_input@[i1].lib_rel_path.deep_view() == libs_input@[i2].lib_rel_path.deep_view() {
                assert(inames[i1] == spec_lib_name(libs_input@[i1].lib_rel_path.deep_view()));
                assert(inames[i2] == spec_lib_name(libs_input@[i2].lib_rel_path.deep_view()));
                assert(false);
            }
        }
    }
    while analyzed.len() > 0
        invariant
            analyzed@ == analyzed0.take(analyzed@.len() as int),
            analyzed@.len() <= analyzed0.len(),
            inames == input_names(libs_input@),
            names_distinct(inames),
            forall|k: int|
                0 <= k < analyzed0.len() ==> {
                    &&& lib_wf(#[trigger] analyzed0[k])
                    &&& analyzed0[k].lib_rel_path.deep_view()
                        == libs_input@[k].lib_rel_path.deep_view()
                    &&& (libs_input@[k].cargo_toml_text matches Some(t) ==> (analyzed0[k].cargo_toml
                        is Some <==> spec_parse(t@) is Some))
                    &&& (analyzed0[k].cargo_toml matches Some(tf) ==> libs_input@[k].cargo_toml_text
                        matches Some(t) && tf.text == t && spec_parse(t@) == Some(tf.doc))
                },
            analyzed0.len() == libs_input@.len(),
            bundle_view(bundle) == input_registry(libs_input@),
            forall|i1: int, i2: int|
                0 <= i1 < i2 < libs_input@.len() ==> (
                #[trigger] libs_input@[i1]).lib_rel_path.deep_view() != (
                #[trigger] libs_input@[i2]).lib_rel_path.deep_view(),
            widx.len() == writes@.len(),
            forall|k: int|
                0 <= k < widx.len() ==> analyzed@.len() <= #[trigger] widx[k] < analyzed0.len(),
            forall|k1: int, k2: int| 0 <= k1 < k2 < widx.len() ==> widx[k1] > widx[k2],
            forall|k: int|
                0 <= k < writes@.len() ==> {
                    &&& (#[trigger] writes@[k]).lib_rel_path.deep_view()
                        == analyzed0[widx[k]].lib_rel_path.deep_view()
                    &&& (libs_input@[widx[k]].cargo_toml_text matches Some(t) && writes@[k].text@
                        != t@)
                },
            forall|i: int|
                #![trigger libs_input@[i]]
                analyzed@.len() <= i < analyzed0.len() ==> write_for(
                    writes@,
                    libs_input@[i].lib_rel_path.deep_view(),
                ) == expected_write(libs_input@, i),
            forall|i: int|
                #![trigger libs_input@[i]]
                0 <= i < analyzed@.len() ==> write_for(
                    writes@,
                    libs_input@[i].lib_rel_path.deep_view(),
                ) is None,
        decreases analyzed@.len(),
    {
        let mut lib = analyzed.pop().unwrap();
        let ghost p = analyzed@.len() as int;
        proof {
            assert(lib == analyzed0[p]);
            assert(analyzed@ =~= analyzed0.take(analyzed@.len() as int));
        }
        fix_lib(&mut lib, &bundle);
        match write_lib(&lib) {
            Some(text) => {
                let ghost libf = lib;
                let ghost t_text = text@;
                let ghost w_old = writes@;
                writes.push(LibWrite { lib_rel_path: lib.lib_rel_path, text });
                proof {
                    widx = widx.push(p);
                    let w = writes@.last();
                    assert(writes@ == w_old.push(w));
                    assert(w.lib_rel_path.deep_view() == libf.lib_rel_path.deep_view());
                    assert(w.text@ == t_text);
                    assert(libf.lib_rel_path.deep_view() == libs_input@[p].lib_rel_path.deep_view());
                    assert forall|i: int|
                        #![trigger libs_input@[i]]
                        p <= i < analyzed0.len() implies write_for(
                        writes@,
                        libs_input@[i].lib_rel_path.deep_view(),
                    ) == expected_write(libs_input@, i) by {
                        lemma_write_for_push(w_old, w, libs_input@[i].lib_rel_path.deep_view());
                        if i == p {
                            let tf0 = analyzed0[p].cargo_toml->Some_0;
                            let t = libs_input@[p].cargo_toml_text->Some_0;
                            let tf = libf.cargo_toml->Some_0;
                            assert(spec_parse(t@) == Some(tf0.doc));
                            assert(tf.doc == spec_fix_doc(
                                tf0.doc,
                                spec_lib_name(libs_input@[p].lib_rel_path.deep_view()),
                                libs_input@[p].lib_rel_path.deep_view(),
                                input_registry(libs_input@),
                            ));
                            assert(t_text == doc_text(tf.doc));
                            assert(tf.text@ == t@);
                            assert(doc_text(tf.doc) != t@);
                            assert(expected_write(libs_input@, p) == Some(t_text));
                        } else {
                            assert(libs_input@[i].lib_rel_path.deep_view()
                                != libs_input@[p].lib_rel_path.deep_view());
                        }
                    }
                    assert forall|i: int|
                        #![trigger libs_input@[i]]
                        0 <= i < p implies write_for(
                        writes@,
                        libs_input@[i].lib_rel_path.deep_view(),
                    ) is None by {
                        lemma_write_for_push(w_old, w, libs_input@[i].lib_rel_path.deep_view());
                        assert(libs_input@[i].lib_rel_path.deep_view()
                            != libs_input@[p].lib_rel_path.deep_view());
                    }
                }
            },
            None => {
                proof {
                    assert forall|i: int|
                        #![trigger libs_input@[i]]
                        p <= i < analyzed0.len() implies write_for(
                        writes@,
                        libs_input@[i].lib_rel_path.deep_view(),
                    ) == expected_write(libs_input@, i) by {
                        if i == p {
                            if libs_input@[p].cargo_toml_text is Some {
                                let t = libs_input@[p].cargo_toml_text->Some_0;
                                if spec_parse(t@) is Some {
                                    let tf0 = analyzed0[p].cargo_toml->Some_0;
                                    let tf = lib.cargo_toml->Some_0;
                                    assert(spec_parse(t@) == Some(tf0.doc));
                                    assert(tf.doc == spec_fix_doc(
                                        tf0.doc,
                                        spec_lib_name(libs_input@[p].lib_rel_path.deep_view()),
                                        libs_input@[p].lib_rel_path.deep_view(),
                                        input_registry(libs_input@),
                                    ));
                                    assert(tf.text@ == t@);
                                    assert(doc_text(tf.doc) == t@);
                                    assert(expected_write(libs_input@, p) is None);
                                } else {
                                    assert(analyzed0[p].cargo_toml is None);
                                    assert(expected_write(libs_input@, p) is None);
                                }
                            } else {
                                assert(expected_write(libs_input@, p) is None);
                            }
                        }
                    }
                }
            },
        }
    }
    proof {
        assert forall|k1: int, k2: int| 0 <= k1 < k2 < writes@.len() implies (
        #[trigger] writes@[k1]).lib_rel_path.deep_view() != (
        #[trigger] writes@[k2]).lib_rel_path.deep_view() by {
            let i1 = widx[k1];
            let i2 = widx[k2];
            assert(analyzed0[i1].lib_rel_path.deep_view()
                == libs_input@[i1].lib_rel_path.deep_view());
            assert(analyzed0[i2].lib_rel_path.deep_view()
                == libs_input@[i2].lib_rel_path.deep_view());
            if writes@[k1].lib_rel_path.deep_view() == writes@[k2].lib_rel_path.deep_view() {
                assert(inames[i1] == spec_lib_name(libs_input@[i1].lib_rel_path.deep_view()));
                assert(inames[i2] == spec_lib_name(libs_input@[i2].lib_rel_path.deep_view()));
                assert(inames[i1] == inames[i2]);
                assert(false);
            }
        }
        assert(writes_distinct(writes@));
        assert forall|k: int| #![trigger writes@[k]] 0 <= k < writes@.len() implies covered(
            writes@[k],
            libs_input@,
        ) by {
            lemma_covered_at(writes@[k], libs_input@, widx[k]);
        }
        assert(writes_cover_inputs(writes@, libs_input@));
    }
    Ok(writes)
}

} // verus!
