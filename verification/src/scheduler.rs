use vstd::prelude::*;

verus! {

/// The watch scheduler's shared state: `accepting` is the suppression
/// flag (true while a suppression window is open and further
/// qualifying events are ignored), and `run_wait` counts the runs
/// still owed — the one in flight plus at most one queued follow-up.
#[derive(PartialEq, Eq, Structural, Clone, Copy, Debug)]
pub struct WatchState {
    pub accepting: bool,
    pub run_wait: usize,
}

/// The state a watch session starts in: not suppressing, no run owed.
pub fn initial_watch_state() -> (s: WatchState)
    ensures
        !s.accepting,
        s.run_wait == 0,
{
    WatchState { accepting: false, run_wait: 0 }
}

/// A path names a manifest when its final segment is the manifest
/// filename.
pub open spec fn spec_is_manifest_path(p: Seq<Seq<char>>) -> bool {
    p.len() > 0 && p.last() == "Cargo.toml"@
}

/// An event qualifies when at least one affected path names a
/// manifest.
pub open spec fn spec_qualifying(paths: Seq<Seq<Seq<char>>>) -> bool {
    exists|i: int| 0 <= i < paths.len() && spec_is_manifest_path(#[trigger] paths[i])
}

/// Whether one affected path's final segment is the manifest filename.
pub fn is_manifest_path(p: &Vec<String>) -> (r: bool)
    ensures
        r == spec_is_manifest_path(p.deep_view()),
{
    if p.len() == 0 {
        return false;
    }
    let m = String::from_str("Cargo.toml");
    let r = p[p.len() - 1] == m;
    proof {
        assert(p.deep_view().last() == p@[p@.len() - 1]@);
    }
    r
}

/// The event filter: an event qualifies only if some affected path
/// names a manifest; all other events are ignored.
pub fn is_qualifying_event(paths: &Vec<Vec<String>>) -> (r: bool)
    ensures
        r == spec_qualifying(paths.deep_view()),
{
    let ghost pd = paths.deep_view();
    let mut i: usize = 0;
    while i < paths.len()
        invariant
            pd == paths.deep_view(),
            i <= paths@.len(),
            forall|k: int| 0 <= k < i ==> !spec_is_manifest_path(#[trigger] pd[k]),
        decreases paths@.len() - i,
    {
        proof {
            assert(pd[i as int] == paths@[i as int].deep_view());
        }
        if is_manifest_path(&paths[i]) {
            return true;
        }
        i = i + 1;
    }
    false
}

/// What one qualifying or non-qualifying event does to the state, and
/// whether a run task starts: an event seen while suppressing, or one
/// that does not qualify, changes nothing; otherwise the suppression
/// window opens and the pending-run counter is bumped, saturating at
/// two, with a run task started only when none was owed.
pub open spec fn spec_on_event(s: WatchState, qualifying: bool) -> (WatchState, bool) {
    if !qualifying || s.accepting {
        (s, false)
    } else {
        let rw: usize = if s.run_wait == 0 {
            1
        } else if s.run_wait == 1 {
            2
        } else {
            s.run_wait
        };
        (WatchState { accepting: true, run_wait: rw }, s.run_wait == 0)
    }
}

/// Processes one event; the returned flag says whether a run task is
/// to start now.
pub fn on_event(state: &mut WatchState, qualifying: bool) -> (start_run: bool)
    ensures
        *final(state) == spec_on_event(*old(state), qualifying).0,
        start_run == spec_on_event(*old(state), qualifying).1,
        !qualifying || old(state).accepting ==> *final(state) == *old(state) && !start_run,
{
    if !qualifying || state.accepting {
        false
    } else {
        state.accepting = true;
        if state.run_wait == 0 {
            state.run_wait = 1;
            true
        } else {
            if state.run_wait == 1 {
                state.run_wait = 2;
            }
            false
        }
    }
}

/// A finished run pays one owed run off; a follow-up task starts
/// exactly when more is still owed.
pub fn on_run_complete(state: &mut WatchState) -> (run_again: bool)
    requires
        old(state).run_wait > 0,
    ensures
        final(state).accepting == old(state).accepting,
        final(state).run_wait == old(state).run_wait - 1,
        run_again <==> final(state).run_wait > 0,
{
    state.run_wait = state.run_wait - 1;
    state.run_wait > 0
}

/// The suppression window has elapsed: events are accepted again,
/// whatever the run state.
pub fn on_window_elapsed(state: &mut WatchState)
    ensures
        !final(state).accepting,
        final(state).run_wait == old(state).run_wait,
{
    state.accepting = false;
}

/// The counter never leaves [0, 2]: at most one run in flight and one
/// queued, so a burst can never stack more than one follow-up run.
pub proof fn lemma_run_wait_bounded(s: WatchState, qualifying: bool)
    requires
        s.run_wait <= 2,
    ensures
        spec_on_event(s, qualifying).0.run_wait <= 2,
{
}

/// The state and number of runs started by a burst of `n` qualifying
/// events with no suppression reset in between.
pub open spec fn spec_burst(s: WatchState, n: nat) -> (WatchState, nat)
    decreases n,
{
    if n == 0 {
        (s, 0)
    } else {
        let e = spec_on_event(s, true);
        let rest = spec_burst(e.0, (n - 1) as nat);
        (rest.0, (if e.1 {
            1nat
        } else {
            0nat
        }) + rest.1)
    }
}

proof fn lemma_burst_suppressed(s: WatchState, n: nat)
    requires
        s.accepting,
    ensures
        spec_burst(s, n) == (s, 0nat),
    decreases n,
{
    if n == 0 {
    } else {
        lemma_burst_suppressed(s, (n - 1) as nat);
    }
}

/// Debounce coalescing: a burst of qualifying events that all fall
/// inside the suppression window opened by the first, arriving while
/// the scheduler is idle, starts exactly one run — never one per
/// event, never none — and leaves exactly that one run owed.
pub proof fn lemma_burst_coalesces(s: WatchState, n: nat)
    requires
        !s.accepting,
        s.run_wait == 0,
        n >= 1,
    ensures
        spec_burst(s, n).1 == 1,
        spec_burst(s, n).0.accepting,
        spec_burst(s, n).0.run_wait == 1,
{
    let e = spec_on_event(s, true);
    assert(e.0 == WatchState { accepting: true, run_wait: 1usize });
    assert(e.1);
    lemma_burst_suppressed(e.0, (n - 1) as nat);
}

} // verus!
