use lib_meta_fix::scheduler::initial_watch_state;
use lib_meta_fix::scheduler::is_qualifying_event;
use lib_meta_fix::scheduler::on_event;
use lib_meta_fix::scheduler::on_run_complete;
use lib_meta_fix::scheduler::on_window_elapsed;

fn paths(list: &[&[&str]]) -> Vec<Vec<String>> {
    list.iter().map(|p| p.iter().map(|s| s.to_string()).collect()).collect()
}

#[test]
fn manifest_event_qualifies() {
    assert!(is_qualifying_event(&paths(&[&["ws", "crates", "a.lib", "Cargo.toml"]])));
    assert!(is_qualifying_event(&paths(&[&["other.txt"], &["Cargo.toml"]])));
}

#[test]
fn non_manifest_event_never_triggers_a_run() {
    let ps = paths(&[&["ws", "crates", "a.lib", "src", "lib.rs"], &["notes", "Cargo.toml.bak"]]);
    assert!(!is_qualifying_event(&ps));
    let mut st = initial_watch_state();
    let started = on_event(&mut st, false);
    assert!(!started);
    assert_eq!(st, initial_watch_state());
}

#[test]
fn empty_event_does_not_qualify() {
    assert!(!is_qualifying_event(&paths(&[])));
    assert!(!is_qualifying_event(&paths(&[&[]])));
}

#[test]
fn burst_in_one_window_coalesces_to_a_single_run() {
    let mut st = initial_watch_state();
    let mut runs = 0;
    for _ in 0..5 {
        if on_event(&mut st, true) {
            runs += 1;
        }
    }
    // the run in flight finishes; nothing more was queued
    if on_run_complete(&mut st) {
        runs += 1;
    }
    assert_eq!(runs, 1);
    assert_eq!(st.run_wait, 0);
}

#[test]
fn debounce_coalescing_two_runs_for_a_burst() {
    // five qualifying events; the suppression window elapses while the
    // first run is still in flight: exactly 2 runs, never 5, never 0
    let mut st = initial_watch_state();
    let mut runs = 0;
    if on_event(&mut st, true) {
        runs += 1;
    }
    assert_eq!(runs, 1);
    assert!(!on_event(&mut st, true));
    assert!(!on_event(&mut st, true));
    on_window_elapsed(&mut st);
    assert!(!on_event(&mut st, true)); // queued: run_wait becomes 2
    assert!(!on_event(&mut st, true)); // suppressed again
    assert_eq!(st.run_wait, 2);
    // the in-flight run completes and owes exactly one follow-up
    if on_run_complete(&mut st) {
        runs += 1;
    }
    assert_eq!(runs, 2);
    // the follow-up completes; nothing further is owed
    assert!(!on_run_complete(&mut st));
    assert_eq!(st.run_wait, 0);
}

#[test]
fn queue_never_stacks_beyond_one_follow_up() {
    let mut st = initial_watch_state();
    assert!(on_event(&mut st, true));
    for _ in 0..10 {
        on_window_elapsed(&mut st);
        assert!(!on_event(&mut st, true));
    }
    assert_eq!(st.run_wait, 2);
}

#[test]
fn window_elapsing_reopens_acceptance() {
    let mut st = initial_watch_state();
    assert!(on_event(&mut st, true));
    assert!(st.accepting);
    on_window_elapsed(&mut st);
    assert!(!st.accepting);
    assert_eq!(st.run_wait, 1);
}
