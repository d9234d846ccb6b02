use vstd::prelude::*;

verus! {

/// Mathematical model of a persisted focus session: every field as a plain
/// mathematical value.
pub ghost struct SessionView {
    pub id: Seq<char>,
    pub task: Seq<char>,
    pub duration: u32,
    pub start_time: Seq<char>,
    pub end_time: Seq<char>,
    pub completed: bool,
    pub tags: Seq<Seq<char>>,
}

impl SessionView {
    /// A session records at least one minute of focus time.
    pub open spec fn wf(self) -> bool {
        self.duration >= 1
    }
}

/// One completed or abandoned timed work interval, as persisted by the
/// session store.
pub struct FocusSession {
    /// Unique opaque identifier, assigned at creation, immutable.
    pub id: String,
    /// Free-text label, may be empty.
    pub task: String,
    /// Focus time in whole minutes; always at least one.
    pub duration: u32,
    /// Timestamp with timezone offset, in a sortable textual form.
    pub start_time: String,
    /// Timestamp with timezone offset; the moment the session was stopped.
    pub end_time: String,
    /// Whether the session ran to natural completion.
    pub completed: bool,
    /// Ordered free-text labels; duplicates permitted.
    pub tags: Vec<String>,
}

impl View for FocusSession {
    type V = SessionView;

    open spec fn view(&self) -> SessionView {
        SessionView {
            id: self.id@,
            task: self.task@,
            duration: self.duration,
            start_time: self.start_time@,
            end_time: self.end_time@,
            completed: self.completed,
            tags: self.tags.deep_view(),
        }
    }
}

impl FocusSession {
    pub open spec fn wf(&self) -> bool {
        self@.wf()
    }
}

impl Clone for FocusSession {
    fn clone(&self) -> (r: Self)
        ensures
            r@ == self@,
    {
        let tags = self.tags.clone();
        proof {
            assert(tags.deep_view() =~= self.tags.deep_view()) by {
                assert forall|i: int| 0 <= i < tags.len() implies tags.deep_view()[i]
                    == self.tags.deep_view()[i] by {
                    assert(cloned::<String>(self.tags[i], tags[i]));
                }
            }
        }
        FocusSession {
            id: self.id.clone(),
            task: self.task.clone(),
            duration: self.duration,
            start_time: self.start_time.clone(),
            end_time: self.end_time.clone(),
            completed: self.completed,
            tags,
        }
    }
}

/// The models of a sequence of stored sessions.
pub open spec fn views(s: Seq<FocusSession>) -> Seq<SessionView> {
    s.map_values(|x: FocusSession| x@)
}

/// Aggregate figures for a few fixed reporting windows.
pub struct StatsData {
    pub today_total: i32,
    pub today_count: i32,
    pub week_total: i32,
    pub week_avg: i32,
    pub month_total: i32,
    pub month_count: i32,
}

} // verus!
