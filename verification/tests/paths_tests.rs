use lib_meta_fix::paths::common_prefix;
use lib_meta_fix::paths::is_lib_dir;
use lib_meta_fix::paths::join_with;
use lib_meta_fix::paths::lib_rel_path_to_lib_name;
use lib_meta_fix::paths::relative_path;

fn segs(parts: &[&str]) -> Vec<String> {
    parts.iter().map(|s| s.to_string()).collect()
}

#[test]
fn name_single_marked_segment() {
    assert_eq!(lib_rel_path_to_lib_name(&segs(&["foo.lib"])), "foo");
}

#[test]
fn name_primary_segment_trimmed() {
    assert_eq!(lib_rel_path_to_lib_name(&segs(&["foo", "core.lib"])), "foo");
}

#[test]
fn name_nested_segment() {
    assert_eq!(lib_rel_path_to_lib_name(&segs(&["foo", "util.lib"])), "foo-util");
}

#[test]
fn name_deeply_nested_segment() {
    assert_eq!(lib_rel_path_to_lib_name(&segs(&["foo", "util", "bar.lib"])), "foo-util-bar");
}

#[test]
fn name_marker_stripped_repeatedly() {
    assert_eq!(lib_rel_path_to_lib_name(&segs(&["foo.lib.lib"])), "foo");
}

#[test]
fn name_sole_primary_segment_is_empty() {
    assert_eq!(lib_rel_path_to_lib_name(&segs(&["core.lib"])), "");
}

#[test]
fn name_primary_word_kept_in_earlier_segments() {
    assert_eq!(lib_rel_path_to_lib_name(&segs(&["core", "util.lib"])), "core-util");
}

#[test]
fn lib_dir_requires_final_marker() {
    assert!(is_lib_dir(&segs(&["foo.lib"])));
    assert!(is_lib_dir(&segs(&["foo", "util.lib"])));
    assert!(!is_lib_dir(&segs(&["foo"])));
    assert!(!is_lib_dir(&segs(&[])));
}

#[test]
fn lib_dir_rejects_nested_markers() {
    assert!(!is_lib_dir(&segs(&["a.lib", "b.lib"])));
    assert!(!is_lib_dir(&segs(&["a.lib", "b"])));
}

#[test]
fn common_prefix_of_paths() {
    assert_eq!(common_prefix(&segs(&["x", "a"]), &segs(&["x", "y", "b"])), segs(&["x"]));
    assert_eq!(common_prefix(&segs(&["x", "a"]), &segs(&["z"])), segs(&[]));
    assert_eq!(common_prefix(&segs(&["x", "y"]), &segs(&["x", "y"])), segs(&["x", "y"]));
}

#[test]
fn relative_path_two_level() {
    assert_eq!(
        relative_path(&segs(&["x", "a.lib"]), &segs(&["x", "y", "b.lib"])),
        segs(&["..", "y", "b.lib"])
    );
}

#[test]
fn relative_path_three_level() {
    assert_eq!(
        relative_path(&segs(&["x", "a.lib"]), &segs(&["x", "y", "z", "b.lib"])),
        segs(&["..", "y", "z", "b.lib"])
    );
    assert_eq!(
        relative_path(&segs(&["x", "y", "a.lib"]), &segs(&["x", "b.lib"])),
        segs(&["..", "..", "b.lib"])
    );
}

#[test]
fn relative_path_between_siblings() {
    assert_eq!(relative_path(&segs(&["a.lib"]), &segs(&["b.lib"])), segs(&["..", "b.lib"]));
}

#[test]
fn join_with_separator() {
    assert_eq!(join_with(&segs(&["..", "y", "b.lib"]), "/"), "../y/b.lib");
    assert_eq!(join_with(&segs(&["foo"]), "-"), "foo");
    assert_eq!(join_with(&segs(&[]), "-"), "");
}
