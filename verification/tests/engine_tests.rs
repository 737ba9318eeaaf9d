use lib_meta_fix::engine::fix;
use lib_meta_fix::engine::LibSource;
use lib_meta_fix::engine::LibWrite;

fn segs(parts: &[&str]) -> Vec<String> {
    parts.iter().map(|s| s.to_string()).collect()
}

fn source(path: &[&str], text: Option<&str>) -> LibSource {
    LibSource { lib_rel_path: segs(path), cargo_toml_text: text.map(|s| s.to_string()) }
}

fn dep_path_of(text: &str, dep: &str) -> String {
    let doc: toml_edit::DocumentMut = text.parse().unwrap();
    doc["dependencies"][dep]["path"].as_str().unwrap().to_string()
}

fn package_name_of(text: &str) -> String {
    let doc: toml_edit::DocumentMut = text.parse().unwrap();
    doc["package"]["name"].as_str().unwrap().to_string()
}

#[test]
fn package_name_set_to_canonical() {
    let a = "[package]\nname = \"stale\"\n";
    let writes = fix(vec![source(&["x", "a.lib"], Some(a))]).unwrap();
    assert_eq!(writes.len(), 1);
    assert_eq!(writes[0].lib_rel_path, segs(&["x", "a.lib"]));
    assert_eq!(package_name_of(&writes[0].text), "x-a");
}

#[test]
fn dependency_path_rewritten_two_level() {
    let a = "[package]\nname = \"x-a\"\n\n[dependencies]\nx-y-b = { path = \"\" }\n";
    let b = "[package]\nname = \"x-y-b\"\n";
    let writes = fix(vec![
        source(&["x", "a.lib"], Some(a)),
        source(&["x", "y", "b.lib"], Some(b)),
    ])
    .unwrap();
    let wa: Vec<&LibWrite> =
        writes.iter().filter(|w| w.lib_rel_path == segs(&["x", "a.lib"])).collect();
    assert_eq!(wa.len(), 1);
    assert_eq!(dep_path_of(&wa[0].text, "x-y-b"), "../y/b.lib");
}

#[test]
fn dependency_path_rewritten_three_level() {
    let a = "[dependencies]\nx-y-z-b = { path = \"old\" }\n";
    let b = "";
    let writes = fix(vec![
        source(&["x", "a.lib"], Some(a)),
        source(&["x", "y", "z", "b.lib"], Some(b)),
    ])
    .unwrap();
    let wa: Vec<&LibWrite> =
        writes.iter().filter(|w| w.lib_rel_path == segs(&["x", "a.lib"])).collect();
    assert_eq!(wa.len(), 1);
    assert_eq!(dep_path_of(&wa[0].text, "x-y-z-b"), "../y/z/b.lib");
}

#[test]
fn unresolved_dependency_gets_sentinel() {
    let a = "[dependencies]\nno-such-lib = { path = \"somewhere\" }\n";
    let r = fix(vec![source(&["x", "a.lib"], Some(a))]);
    let writes = r.unwrap();
    assert_eq!(writes.len(), 1);
    assert_eq!(dep_path_of(&writes[0].text, "no-such-lib"), "NOT_FOUND");
}

#[test]
fn pathless_and_non_inline_dependencies_untouched() {
    let a = "[dependencies]\nserde = \"1.0\"\nx-y-b = { version = \"0.1\" }\n";
    let b = "";
    let writes = fix(vec![
        source(&["x", "a.lib"], Some(a)),
        source(&["x", "y", "b.lib"], Some(b)),
    ])
    .unwrap();
    assert_eq!(writes.len(), 0);
}

#[test]
fn dependencies_sorted_by_name() {
    let a = "[dependencies]\ncc = { path = \"\" }\naa = { path = \"\" }\nbb = \"1\"\n";
    let writes = fix(vec![source(&["x", "a.lib"], Some(a))]).unwrap();
    assert_eq!(writes.len(), 1);
    let doc: toml_edit::DocumentMut = writes[0].text.parse().unwrap();
    let keys: Vec<String> = doc["dependencies"]
        .as_table_like()
        .unwrap()
        .iter()
        .map(|(k, _)| k.to_string())
        .collect();
    assert_eq!(keys, vec!["aa".to_string(), "bb".to_string(), "cc".to_string()]);
}

#[test]
fn duplicate_names_abort_with_messages_and_no_writes() {
    let r = fix(vec![
        source(&["foo.lib"], Some("[package]\nname = \"a\"\n")),
        source(&["foo", "core.lib"], Some("[package]\nname = \"b\"\n")),
    ]);
    let errs = r.unwrap_err();
    assert_eq!(errs, vec!["multiple libs with the same name: foo".to_string()]);
}

#[test]
fn duplicate_names_one_message_per_name() {
    let r = fix(vec![
        source(&["foo.lib"], None),
        source(&["foo", "core.lib"], None),
        source(&["bar.lib"], None),
        source(&["bar", "core.lib"], None),
    ]);
    let errs = r.unwrap_err();
    assert_eq!(
        errs,
        vec![
            "multiple libs with the same name: foo".to_string(),
            "multiple libs with the same name: bar".to_string(),
        ]
    );
}

#[test]
fn non_table_package_left_alone() {
    let scalar = "package = 1\n";
    let writes = fix(vec![source(&["x", "a.lib"], Some(scalar))]).unwrap();
    assert_eq!(writes.len(), 0);
    let array = "[[package]]\nname = \"arr\"\n";
    let writes = fix(vec![source(&["x", "b.lib"], Some(array))]).unwrap();
    assert_eq!(writes.len(), 0);
}

#[test]
fn package_name_inserted_when_missing() {
    let a = "[package]\n";
    let writes = fix(vec![source(&["a.lib"], Some(a))]).unwrap();
    assert_eq!(writes.len(), 1);
    assert_eq!(package_name_of(&writes[0].text), "a");
}

#[test]
fn missing_manifest_is_skipped() {
    let writes = fix(vec![source(&["x", "a.lib"], None)]).unwrap();
    assert_eq!(writes.len(), 0);
}

#[test]
fn unparsable_manifest_is_skipped() {
    let writes = fix(vec![source(&["x", "a.lib"], Some("= not toml ="))]).unwrap();
    assert_eq!(writes.len(), 0);
}

#[test]
fn unchanged_manifest_not_written() {
    let a = "[package]\nname = \"x-a\"\n";
    let writes = fix(vec![source(&["x", "a.lib"], Some(a))]).unwrap();
    assert_eq!(writes.len(), 0);
}

#[test]
fn fix_twice_writes_nothing_the_second_time() {
    let a = "[package]\nname = \"wrong\"\n\n[dependencies]\nx-y-b = { path = \"zz\" }\nx-c = { path = \"\" }\n";
    let b = "[package]\nname = \"also-wrong\"\n";
    let c = "# comment kept\n[package]\nname = \"x-c\"\n";
    let mut texts = vec![a.to_string(), b.to_string(), c.to_string()];
    let paths: Vec<Vec<String>> =
        vec![segs(&["x", "a.lib"]), segs(&["x", "y", "b.lib"]), segs(&["x", "c.lib"])];
    let inputs = |texts: &Vec<String>| -> Vec<LibSource> {
        paths
            .iter()
            .zip(texts.iter())
            .map(|(p, t)| LibSource { lib_rel_path: p.clone(), cargo_toml_text: Some(t.clone()) })
            .collect()
    };
    let first = fix(inputs(&texts)).unwrap();
    assert!(first.len() > 0);
    for w in first {
        let i = paths.iter().position(|p| *p == w.lib_rel_path).unwrap();
        texts[i] = w.text;
    }
    let second = fix(inputs(&texts)).unwrap();
    assert_eq!(second.len(), 0);
}

#[test]
fn comments_and_layout_survive_a_rewrite() {
    let a = "# keep me\n[package]\nname = \"old\" # trailing\n\n[dependencies]\n";
    let writes = fix(vec![source(&["x", "a.lib"], Some(a))]).unwrap();
    assert_eq!(writes.len(), 1);
    assert!(writes[0].text.starts_with("# keep me\n"));
    assert_eq!(package_name_of(&writes[0].text), "x-a");
}
