use vstd::prelude::*;

use crate::session::{FocusSession, SessionView};

verus! {

/// The live, in-memory state of at most one focus session and its countdown.
///
/// The engine is a pure value holder: the host wraps one `TimerState` in a
/// single exclusive lock covering all four fields together, so the pairing
/// invariant below is never observed broken.
pub struct TimerState {
    pub is_running: bool,
    pub remaining_seconds: u32,
    pub current_task: Option<String>,
    pub start_time: Option<String>,
}

impl TimerState {
    /// `current_task` and `start_time` are both present or both absent.
    pub open spec fn wf(&self) -> bool {
        self.current_task is Some <==> self.start_time is Some
    }

    /// The idle engine: nothing running, nothing in flight.
    pub fn new() -> (r: Self)
        ensures
            r.wf(),
            !r.is_running,
            r.remaining_seconds == 0,
            r.current_task is None,
            r.start_time is None,
    {
        TimerState {
            is_running: false,
            remaining_seconds: 0,
            current_task: None,
            start_time: None,
        }
    }
}

/// Start a session: from any state the engine becomes Running with a fresh
/// countdown. A run already in flight is silently discarded, never persisted.
pub fn start_timer(state: &mut TimerState, duration_minutes: u32, task: String, now: String)
    requires
        1 <= duration_minutes <= u32::MAX / 60,
    ensures
        final(state).wf(),
        final(state).is_running,
        final(state).remaining_seconds == duration_minutes * 60,
        final(state).current_task == Some(task),
        final(state).start_time == Some(now),
{
    state.is_running = true;
    state.remaining_seconds = duration_minutes * 60;
    state.current_task = Some(task);
    state.start_time = Some(now);
}

/// Pause the countdown; every other field is left untouched. Pausing an
/// idle or paused engine is a silent no-op.
pub fn pause_timer(state: &mut TimerState)
    ensures
        !final(state).is_running,
        final(state).remaining_seconds == old(state).remaining_seconds,
        final(state).current_task == old(state).current_task,
        final(state).start_time == old(state).start_time,
        old(state).wf() ==> final(state).wf(),
{
    state.is_running = false;
}

/// Resume the countdown; every other field is left untouched. Resuming a
/// running engine is silently redundant.
pub fn resume_timer(state: &mut TimerState)
    ensures
        final(state).is_running,
        final(state).remaining_seconds == old(state).remaining_seconds,
        final(state).current_task == old(state).current_task,
        final(state).start_time == old(state).start_time,
        old(state).wf() ==> final(state).wf(),
{
    state.is_running = true;
}

/// Clear the engine back to Idle. The caller reads the fields it needs
/// (see [`build_session_on_stop`]) before calling this.
pub fn stop_timer(state: &mut TimerState)
    ensures
        final(state).wf(),
        !final(state).is_running,
        final(state).remaining_seconds == 0,
        final(state).current_task is None,
        final(state).start_time is None,
{
    state.is_running = false;
    state.remaining_seconds = 0;
    state.current_task = None;
    state.start_time = None;
}

/// Minutes recorded for a stopped session: `max(1, remaining_seconds / 60)`.
pub open spec fn spec_session_minutes(remaining_seconds: u32) -> u32 {
    if remaining_seconds / 60 >= 1 {
        remaining_seconds / 60
    } else {
        1
    }
}

/// The record a stop builds from the engine's in-flight data, before the
/// engine is cleared: `duration = max(1, remaining_seconds / 60)`, the task
/// and start time as held (empty when absent), no tags, the given end time
/// and completion flag.
pub open spec fn spec_session_on_stop(
    t: TimerState,
    id: Seq<char>,
    end_time: Seq<char>,
    completed: bool,
) -> SessionView {
    SessionView {
        id: id,
        task: match t.current_task {
            Some(task) => task@,
            None => Seq::<char>::empty(),
        },
        duration: spec_session_minutes(t.remaining_seconds),
        start_time: match t.start_time {
            Some(st) => st@,
            None => Seq::<char>::empty(),
        },
        end_time: end_time,
        completed: completed,
        tags: Seq::<Seq<char>>::empty(),
    }
}

/// Build the `FocusSession` that stopping the given engine persists.
pub fn build_session_on_stop(
    state: &TimerState,
    id: String,
    end_time: String,
    completed: bool,
) -> (r: FocusSession)
    ensures
        r@ == spec_session_on_stop(*state, id@, end_time@, completed),
        r.wf(),
{
    let task = match &state.current_task {
        Some(t) => t.clone(),
        None => String::new(),
    };
    let start_time = match &state.start_time {
        Some(st) => st.clone(),
        None => String::new(),
    };
    let minutes = state.remaining_seconds / 60;
    let duration = if minutes >= 1 {
        minutes
    } else {
        1
    };
    let r = FocusSession {
        id,
        task,
        duration,
        start_time,
        end_time,
        completed,
        tags: Vec::new(),
    };
    proof {
        assert(r.tags.deep_view() =~= Seq::<Seq<char>>::empty());
    }
    r
}

/// Starting a timer for `d` minutes and stopping it at once records a
/// session of exactly `max(1, d) == d` minutes, carrying the completion
/// flag passed to the stop.
pub proof fn lemma_start_then_stop(
    t1: TimerState,
    d: u32,
    id: Seq<char>,
    end_time: Seq<char>,
    completed: bool,
)
    requires
        1 <= d <= u32::MAX / 60,
        t1.remaining_seconds == d * 60,
    ensures
        spec_session_on_stop(t1, id, end_time, completed).duration == d,
        spec_session_on_stop(t1, id, end_time, completed).completed == completed,
{
    assert(d * 60 / 60 == d) by (nonlinear_arith)
        requires 1 <= d <= u32::MAX / 60;
}

/// Pausing and then resuming leaves `remaining_seconds` and `current_task`
/// (and the start time) exactly as they were.
pub proof fn lemma_pause_then_resume(before: TimerState, paused: TimerState, after: TimerState)
    requires
        // what pause_timer ensures
        paused.remaining_seconds == before.remaining_seconds,
        paused.current_task == before.current_task,
        paused.start_time == before.start_time,
        // what resume_timer ensures
        after.remaining_seconds == paused.remaining_seconds,
        after.current_task == paused.current_task,
        after.start_time == paused.start_time,
    ensures
        after.remaining_seconds == before.remaining_seconds,
        after.current_task == before.current_task,
        after.start_time == before.start_time,
{
}

} // verus!
