use vstd::prelude::*;

verus! {

#[verifier::external_type_specification]
#[verifier::external_body]
pub struct ExDocumentMut(toml_edit::DocumentMut);

/// The text that the document renders to.
pub uninterp spec fn doc_text(d: toml_edit::DocumentMut) -> Seq<char>;

/// The entries of the document's dependency table, in document order:
/// the dependency name, and the value of its `path` entry when the
/// dependency is written as an inline table carrying one.
pub uninterp spec fn doc_deps(d: toml_edit::DocumentMut) -> Seq<(Seq<char>, Option<Seq<char>>)>;

/// Whether the document's root holds a table-like `package` item.
pub uninterp spec fn doc_has_package(d: toml_edit::DocumentMut) -> bool;

/// The value of the package table's name entry, when present.
pub uninterp spec fn doc_package_name(d: toml_edit::DocumentMut) -> Option<Seq<char>>;

/// What parsing a text yields: parsing is a function of the text
/// alone.
pub uninterp spec fn spec_parse(s: Seq<char>) -> Option<toml_edit::DocumentMut>;

/// The document after the package name assignment: the assignment is
/// a function of the document and the name alone.
pub uninterp spec fn spec_set_package_name(d: toml_edit::DocumentMut, name: Seq<char>) -> toml_edit::DocumentMut;

/// The document after one dependency path replacement: a function of
/// the document, the dependency name and the path alone.
pub uninterp spec fn spec_set_dep_path(
    d: toml_edit::DocumentMut,
    name: Seq<char>,
    path: Seq<char>,
) -> toml_edit::DocumentMut;

/// The document after its dependency table is reordered by name: a
/// function of the document alone.
pub uninterp spec fn spec_sort_deps(d: toml_edit::DocumentMut) -> toml_edit::DocumentMut;

/// No two dependency entries share a name.
pub open spec fn dep_names_distinct(deps: Seq<(Seq<char>, Option<Seq<char>>)>) -> bool {
    forall|i: int, j: int|
        0 <= i < j < deps.len() ==> (#[trigger] deps[i]).0 != (#[trigger] deps[j]).0
}

/// Code-point lexicographic order on names, the order in which the
/// dependency table is sorted.
pub open spec fn lex_le(a: Seq<char>, b: Seq<char>) -> bool
    decreases a.len(),
{
    if a.len() == 0 {
        true
    } else if b.len() == 0 {
        false
    } else if a[0] == b[0] {
        lex_le(a.drop_first(), b.drop_first())
    } else {
        (a[0] as u32) < (b[0] as u32)
    }
}

/// Relies on toml_edit::DocumentMut::from_str: parsing depends on the
/// text alone, and a TOML document parses only when no table holds a
/// duplicate key, so the dependency names of a parsed document are
/// distinct.
#[verifier::external_body]
pub fn parse_doc(text: &str) -> (r: Option<toml_edit::DocumentMut>)
    ensures
        r == spec_parse(text@),
        r matches Some(d) ==> dep_names_distinct(doc_deps(d)),
{
    text.parse::<toml_edit::DocumentMut>().ok()
}

/// Relies on the Display impl of toml_edit::DocumentMut: the rendered
/// text depends on the document alone.
#[verifier::external_body]
pub fn doc_to_string(d: &toml_edit::DocumentMut) -> (r: String)
    ensures
        r@ == doc_text(*d),
{
    d.to_string()
}

/// Relies on toml_edit::Table::get_mut, Item::as_table_like_mut and
/// TableLike::insert: sets the `name` entry of the `package` item
/// when that item is a table, leaves a table-less or non-table
/// `package` alone, and touches no other part of the document's
/// content. The result depends on the document and the name alone.
#[verifier::external_body]
pub fn set_package_name(d: &mut toml_edit::DocumentMut, name: &str)
    ensures
        *final(d) == spec_set_package_name(*old(d), name@),
        doc_has_package(*final(d)) == doc_has_package(*old(d)),
        doc_deps(*final(d)) == doc_deps(*old(d)),
        doc_has_package(*old(d)) ==> doc_package_name(*final(d)) == Some(name@),
        !doc_has_package(*old(d)) ==> doc_package_name(*final(d)) == doc_package_name(*old(d)),
{
    let package = d.as_table_mut().get_mut("package").and_then(|p| p.as_table_like_mut());
    if let Some(package) = package {
        package.insert("name", toml_edit::value(name));
    }
}

/// Relies on toml_edit::Table::get and toml_edit::TableLike::iter:
/// lists each dependency entry's name, and whether it is an inline
/// table carrying a `path` entry, in document order.
#[verifier::external_body]
pub fn dep_entries(d: &toml_edit::DocumentMut) -> (r: Vec<(String, bool)>)
    ensures
        r@.len() == doc_deps(*d).len(),
        forall|i: int|
            0 <= i < r@.len() ==> (#[trigger] r@[i]).0@ == doc_deps(*d)[i].0 && r@[i].1 == (doc_deps(
                *d,
            )[i].1 is Some),
{
    let mut out = Vec::new();
    if let Some(deps) = d.as_table().get("dependencies").and_then(|v| v.as_table_like()) {
        for (k, v) in deps.iter() {
            let has_path = v.as_inline_table().map(|t| t.get("path").is_some()).unwrap_or(false);
            out.push((k.to_string(), has_path));
        }
    }
    out
}

/// Relies on toml_edit::TableLike::get_mut and
/// toml_edit::InlineTable::get_mut: replaces the `path` entry of the
/// named dependency when that dependency is an inline table carrying
/// one, and touches nothing else. The result depends on the document,
/// the name and the path alone.
#[verifier::external_body]
pub fn set_dep_path(d: &mut toml_edit::DocumentMut, name: &str, path: &str)
    ensures
        *final(d) == spec_set_dep_path(*old(d), name@, path@),
        doc_has_package(*final(d)) == doc_has_package(*old(d)),
        doc_package_name(*final(d)) == doc_package_name(*old(d)),
        doc_deps(*final(d)).len() == doc_deps(*old(d)).len(),
        forall|i: int|
            0 <= i < doc_deps(*old(d)).len() ==> doc_deps(*final(d))[i] == (if (
            #[trigger] doc_deps(*old(d))[i]).0 == name@ && doc_deps(*old(d))[i].1 is Some {
                (doc_deps(*old(d))[i].0, Some(path@))
            } else {
                doc_deps(*old(d))[i]
            }),
{
    let deps = d.as_table_mut().get_mut("dependencies").and_then(|v| v.as_table_like_mut());
    if let Some(deps) = deps {
        if let Some(dep) = deps.get_mut(name).and_then(|v| v.as_inline_table_mut()) {
            if let Some(p) = dep.get_mut("path") {
                *p = toml_edit::Value::from(path);
            }
        }
    }
}

/// Relies on toml_edit::TableLike::sort_values: reorders the
/// dependency entries by name, ascending, and touches nothing else.
/// The result depends on the document alone.
#[verifier::external_body]
pub fn sort_deps(d: &mut toml_edit::DocumentMut)
    ensures
        *final(d) == spec_sort_deps(*old(d)),
        doc_has_package(*final(d)) == doc_has_package(*old(d)),
        doc_package_name(*final(d)) == doc_package_name(*old(d)),
        doc_deps(*final(d)).to_multiset() == doc_deps(*old(d)).to_multiset(),
        forall|i: int, j: int|
            0 <= i < j < doc_deps(*final(d)).len() ==> lex_le(
                (#[trigger] doc_deps(*final(d))[i]).0,
                (#[trigger] doc_deps(*final(d))[j]).0,
            ),
{
    let deps = d.as_table_mut().get_mut("dependencies").and_then(|v| v.as_table_like_mut());
    if let Some(deps) = deps {
        deps.sort_values();
    }
}

} // verus!
