use lib_meta_fix::engine::analyze_lib;
use lib_meta_fix::engine::check_libs;
use lib_meta_fix::engine::fix_lib;
use lib_meta_fix::engine::resolve_dep_path;
use lib_meta_fix::engine::write_lib;
use lib_meta_fix::engine::LibAnalysisBundle;

fn segs(parts: &[&str]) -> Vec<String> {
    parts.iter().map(|s| s.to_string()).collect()
}

#[test]
fn analyze_derives_name_and_parses() {
    let la = analyze_lib(segs(&["x", "a.lib"]), Some("[package]\nname = \"n\"\n".to_string()));
    assert_eq!(la.lib_name, "x-a");
    assert_eq!(la.lib_rel_path, segs(&["x", "a.lib"]));
    assert!(la.cargo_toml.is_some());
}

#[test]
fn analyze_tolerates_missing_and_broken_manifests() {
    let missing = analyze_lib(segs(&["a.lib"]), None);
    assert!(missing.cargo_toml.is_none());
    let broken = analyze_lib(segs(&["a.lib"]), Some("= broken =".to_string()));
    assert!(broken.cargo_toml.is_none());
}

#[test]
fn check_libs_accepts_distinct_names() {
    let libs = vec![
        analyze_lib(segs(&["a.lib"]), None),
        analyze_lib(segs(&["b.lib"]), None),
    ];
    assert!(check_libs(&libs).is_ok());
}

#[test]
fn check_libs_reports_each_duplicate_once() {
    let libs = vec![
        analyze_lib(segs(&["a.lib"]), None),
        analyze_lib(segs(&["a", "core.lib"]), None),
        analyze_lib(segs(&["a.lib.lib"]), None),
    ];
    let errs = check_libs(&libs).unwrap_err();
    assert_eq!(errs, vec!["multiple libs with the same name: a".to_string()]);
}

#[test]
fn registry_lookup_finds_snapshot_entries() {
    let libs = vec![
        analyze_lib(segs(&["a.lib"]), None),
        analyze_lib(segs(&["b", "c.lib"]), None),
    ];
    let bundle = LibAnalysisBundle::new(&libs);
    assert_eq!(bundle.get("b-c"), Some(&segs(&["b", "c.lib"])));
    assert_eq!(bundle.get("a"), Some(&segs(&["a.lib"])));
    assert_eq!(bundle.get("missing"), None);
}

#[test]
fn resolve_known_and_unknown_names() {
    let libs = vec![
        analyze_lib(segs(&["x", "a.lib"]), None),
        analyze_lib(segs(&["x", "y", "b.lib"]), None),
    ];
    let bundle = LibAnalysisBundle::new(&libs);
    assert_eq!(resolve_dep_path(&segs(&["x", "a.lib"]), &bundle, "x-y-b"), "../y/b.lib");
    assert_eq!(resolve_dep_path(&segs(&["x", "a.lib"]), &bundle, "nobody"), "NOT_FOUND");
}

#[test]
fn fix_lib_rewrites_and_write_lib_reports_change() {
    let text = "[package]\nname = \"old\"\n\n[dependencies]\nb = { path = \"\" }\n";
    let mut lib = analyze_lib(segs(&["a.lib"]), Some(text.to_string()));
    let target = analyze_lib(segs(&["b.lib"]), None);
    let bundle = LibAnalysisBundle::new(&vec![
        analyze_lib(segs(&["a.lib"]), None),
        target,
    ]);
    fix_lib(&mut lib, &bundle);
    let new_text = write_lib(&lib).unwrap();
    let doc: toml_edit::DocumentMut = new_text.parse().unwrap();
    assert_eq!(doc["package"]["name"].as_str(), Some("a"));
    assert_eq!(doc["dependencies"]["b"]["path"].as_str(), Some("../b.lib"));
}

#[test]
fn write_lib_skips_unchanged_text() {
    let text = "[package]\nname = \"a\"\n";
    let mut lib = analyze_lib(segs(&["a.lib"]), Some(text.to_string()));
    let bundle = LibAnalysisBundle::new(&vec![analyze_lib(segs(&["a.lib"]), None)]);
    fix_lib(&mut lib, &bundle);
    assert_eq!(write_lib(&lib), None);
}

#[test]
fn write_lib_skips_manifest_less_library() {
    let lib = analyze_lib(segs(&["a.lib"]), None);
    assert_eq!(write_lib(&lib), None);
}
