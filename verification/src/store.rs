use vstd::prelude::*;
use vstd::multiset::Multiset;

use crate::codec::{enc_doc, encode_sessions, parse_sessions, sp_doc};
use crate::platform::{fresh_session_id, now_rfc3339};
use crate::session::{FocusSession, SessionView, views};
use crate::text::{lex_le, lemma_lex_lt_trans, lemma_lex_total, str_eq, str_lex_lt};
use crate::timer::{TimerState, build_session_on_stop, spec_session_on_stop, stop_timer};

verus! {

broadcast use vstd::seq_lib::group_seq_properties;

/// The store could not accept a write.
#[derive(Clone, Copy, PartialEq, Eq, Structural, Debug)]
pub enum StorageError {
    /// A session with the same id is already stored.
    DuplicateId,
}

/// An import document does not have the expected shape.
#[derive(Clone, Copy, PartialEq, Eq, Structural, Debug)]
pub enum FormatError {
    Malformed,
}

/// Some stored session carries this id.
pub open spec fn has_id(l: Seq<SessionView>, id: Seq<char>) -> bool {
    exists|i: int| 0 <= i < l.len() && l[i].id == id
}

/// The index carrying this id (unique when ids are distinct).
pub open spec fn idx_of_id(l: Seq<SessionView>, id: Seq<char>) -> int {
    choose|i: int| 0 <= i < l.len() && l[i].id == id
}

/// No two stored sessions share an id.
pub open spec fn distinct_ids(l: Seq<SessionView>) -> bool {
    forall|i: int, j: int| 0 <= i < j < l.len() ==> l[i].id != l[j].id
}

/// Insert, or replace the session sharing the same id.
pub open spec fn upsert_one(l: Seq<SessionView>, x: SessionView) -> Seq<SessionView> {
    if has_id(l, x.id) {
        l.update(idx_of_id(l, x.id), x)
    } else {
        l.push(x)
    }
}

/// Upsert a whole document, record by record.
pub open spec fn upsert_all(l: Seq<SessionView>, d: Seq<SessionView>) -> Seq<SessionView>
    decreases d.len(),
{
    if d.len() == 0 {
        l
    } else {
        upsert_one(upsert_all(l, d.drop_last()), d.last())
    }
}

/// The stored sessions with this id removed.
pub open spec fn remove_id(l: Seq<SessionView>, id: Seq<char>) -> Seq<SessionView>
    decreases l.len(),
{
    if l.len() == 0 {
        Seq::empty()
    } else if l.last().id == id {
        remove_id(l.drop_last(), id)
    } else {
        remove_id(l.drop_last(), id).push(l.last())
    }
}

/// The store's contents as a finite map from id to session.
pub open spec fn id_map(l: Seq<SessionView>) -> Map<Seq<char>, SessionView>
    decreases l.len(),
{
    if l.len() == 0 {
        Map::empty()
    } else {
        id_map(l.drop_last()).insert(l.last().id, l.last())
    }
}

/// Listing order: most recent `start_time` first.
pub open spec fn sorted_by_start_desc(l: Seq<SessionView>) -> bool {
    forall|i: int, j: int| 0 <= i < j < l.len() ==> lex_le(#[trigger] l[j].start_time, #[trigger] l[i].start_time)
}

pub open spec fn all_wf(l: Seq<SessionView>) -> bool {
    forall|i: int| 0 <= i < l.len() ==> (#[trigger] l[i]).wf()
}

/// The session store: the persisted set of completed sessions, keyed by id.
pub struct SessionStore {
    sessions: Vec<FocusSession>,
}

impl View for SessionStore {
    type V = Seq<SessionView>;

    closed spec fn view(&self) -> Seq<SessionView> {
        views(self.sessions@)
    }
}

impl SessionStore {
    /// Ids are unique and every stored session is well formed.
    pub open spec fn wf(&self) -> bool {
        distinct_ids(self@) && all_wf(self@)
    }

    /// A fresh, empty store.
    pub fn new() -> (r: Self)
        ensures
            r.wf(),
            r@ == Seq::<SessionView>::empty(),
    {
        let r = SessionStore { sessions: Vec::new() };
        proof {
            assert(r@ =~= Seq::<SessionView>::empty());
        }
        r
    }

    /// How many sessions are stored.
    pub fn count(&self) -> (r: usize)
        ensures
            r == self@.len(),
    {
        self.sessions.len()
    }

    /// Insert a new session; a session whose id is already present is
    /// refused and the store is left unchanged.
    pub fn save_session(&mut self, session: FocusSession) -> (r: Result<(), StorageError>)
        requires
            old(self).wf(),
            session.wf(),
        ensures
            final(self).wf(),
            match r {
                Ok(()) => !has_id(old(self)@, session@.id) && final(self)@ == old(self)@.push(
                    session@,
                ),
                Err(e) => e == StorageError::DuplicateId && has_id(old(self)@, session@.id)
                    && final(self)@ == old(self)@,
            },
    {
        let found = find_by_id(&self.sessions, self.sessions.len(), session.id.as_str());
        match found {
            Some(_) => Err(StorageError::DuplicateId),
            None => {
                let ghost old_views = self@;
                self.sessions.push(session);
                proof {
                    assert(self@ =~= old_views.push(session@));
                }
                Ok(())
            },
        }
    }

    /// The stored sessions, most recent `start_time` first; with a limit, at
    /// most that many (the most recent ones).
    pub fn get_sessions(&self, limit: Option<usize>) -> (r: Vec<FocusSession>)
        requires
            self.wf(),
        ensures
            exists|p: Seq<SessionView>|
                {
                    &&& p.to_multiset() == self@.to_multiset()
                    &&& sorted_by_start_desc(p)
                    &&& all_wf(p)
                    &&& views(r@) == p.take(limit_len(limit, p.len() as int))
                },
    {
        let sorted = sort_sessions_desc(&self.sessions);
        match limit {
            None => {
                proof {
                    assert(views(sorted@) =~= views(sorted@).take(views(sorted@).len() as int));
                }
                sorted
            },
            Some(l) => {
                let mut sorted = sorted;
                if l < sorted.len() {
                    let ghost p = views(sorted@);
                    sorted.truncate(l);
                    proof {
                        assert(views(sorted@) =~= p.take(l as int));
                    }
                    sorted
                } else {
                    proof {
                        assert(views(sorted@) =~= views(sorted@).take(
                            views(sorted@).len() as int,
                        ));
                    }
                    sorted
                }
            },
        }
    }

    /// Remove the session with this id; absence is not an error and leaves
    /// the store unchanged.
    pub fn delete_session(&mut self, id: &str)
        requires
            old(self).wf(),
        ensures
            final(self).wf(),
            final(self)@ == remove_id(old(self)@, id@),
            !has_id(old(self)@, id@) ==> final(self)@ == old(self)@,
    {
        let ghost old_views = self@;
        let mut kept: Vec<FocusSession> = Vec::new();
        let mut i: usize = 0;
        proof {
            assert(views(kept@) =~= remove_id(old_views.take(0), id@));
            assert(old_views.take(0) =~= Seq::<SessionView>::empty());
        }
        while i < self.sessions.len()
            invariant
                i <= self.sessions.len(),
                old_views == views(self.sessions@),
                views(kept@) == remove_id(old_views.take(i as int), id@),
            decreases self.sessions.len() - i,
        {
            let keep = !str_eq(self.sessions[i].id.as_str(), id);
            proof {
                assert(old_views.take(i + 1).drop_last() =~= old_views.take(i as int));
                assert(old_views.take(i + 1).last() == old_views[i as int]);
                assert(old_views[i as int] == self.sessions@[i as int]@);
            }
            if keep {
                let ghost kv = views(kept@);
                let s = clone_session(&self.sessions, i);
                kept.push(s);
                proof {
                    assert(views(kept@) =~= kv.push(old_views[i as int]));
                }
            }
            i += 1;
        }
        proof {
            assert(old_views.take(old_views.len() as int) =~= old_views);
        }
        self.sessions = kept;
        proof {
            lemma_remove_id_props(old_views, id@);
            if !has_id(old_views, id@) {
                lemma_remove_id_absent(old_views, id@);
            }
        }
    }

    /// Serialize the full session set, most recent first, as one document.
    pub fn export_data(&self) -> (r: String)
        requires
            self.wf(),
        ensures
            exists|p: Seq<SessionView>|
                {
                    &&& p.to_multiset() == self@.to_multiset()
                    &&& sorted_by_start_desc(p)
                    &&& all_wf(p)
                    &&& r@ == enc_doc(p)
                },
    {
        let listed = self.get_sessions(None);
        let r = encode_sessions(&listed);
        proof {
            let p = choose|p: Seq<SessionView>|
                {
                    &&& p.to_multiset() == self@.to_multiset()
                    &&& sorted_by_start_desc(p)
                    &&& all_wf(p)
                    &&& views(listed@) == p.take(limit_len(None, p.len() as int))
                };
            assert(p.take(limit_len(None, p.len() as int)) =~= p);
            assert(r@ == enc_doc(p));
        }
        r
    }

    /// Parse a document and upsert every record in order: a record replaces
    /// the stored session sharing its id, or is inserted. A document that is
    /// not of the expected shape is refused before any change. Returns how
    /// many records were processed.
    #[verifier::rlimit(50)]
    pub fn import_data(&mut self, doc: &str) -> (r: Result<usize, FormatError>)
        requires
            old(self).wf(),
        ensures
            final(self).wf(),
            match r {
                Ok(n) => {
                    &&& sp_doc(doc@) is Some
                    &&& n == sp_doc(doc@)->Some_0.len()
                    &&& final(self)@ == upsert_all(old(self)@, sp_doc(doc@)->Some_0)
                },
                Err(e) => e == FormatError::Malformed && sp_doc(doc@) is None && final(self)@
                    == old(self)@,
            },
    {
        let parsed = match parse_sessions(doc) {
            Some(list) => list,
            None => {
                return Err(FormatError::Malformed);
            },
        };
        let ghost d = views(parsed@);
        let ghost old_views = self@;
        let mut i: usize = 0;
        proof {
            assert(d.take(0) =~= Seq::<SessionView>::empty());
        }
        while i < parsed.len()
            invariant
                i <= parsed.len(),
                d == views(parsed@),
                all_wf(d),
                self@ == upsert_all(old_views, d.take(i as int)),
                distinct_ids(self@),
                all_wf(self@),
            decreases parsed.len() - i,
        {
            let x = clone_session(&parsed, i);
            proof {
                assert(d[i as int] == parsed@[i as int]@);
                assert(d[i as int].wf());
            }
            upsert_session(&mut self.sessions, x);
            proof {
                assert(d.take(i + 1).drop_last() =~= d.take(i as int));
                assert(d.take(i + 1).last() == d[i as int]);
            }
            i += 1;
        }
        proof {
            assert(d.take(parsed.len() as int) =~= d);
        }
        Ok(parsed.len())
    }
}

/// At most `limit` of `n` entries.
pub open spec fn limit_len(limit: Option<usize>, n: int) -> int {
    match limit {
        None => n,
        Some(l) => if l < n {
            l as int
        } else {
            n
        },
    }
}

/// First stored index carrying this id, scanning from the front.
fn find_by_id(v: &Vec<FocusSession>, n: usize, id: &str) -> (r: Option<usize>)
    requires
        n == v@.len(),
    ensures
        match r {
            Some(i) => i < v@.len() && views(v@)[i as int].id == id@,
            None => !has_id(views(v@), id@),
        },
{
    let mut i: usize = 0;
    while i < n
        invariant
            i <= n,
            n == v@.len(),
            forall|j: int| 0 <= j < i ==> views(v@)[j].id != id@,
        decreases n - i,
    {
        proof {
            assert(views(v@)[i as int] == v@[i as int]@);
        }
        if str_eq(v[i].id.as_str(), id) {
            return Some(i);
        }
        i += 1;
    }
    None
}

/// A copy of the session at this index.
fn clone_session(v: &Vec<FocusSession>, i: usize) -> (r: FocusSession)
    requires
        i < v@.len(),
    ensures
        r@ == views(v@)[i as int],
        r.wf() <==> views(v@)[i as int].wf(),
{
    let r = v[i].clone();
    proof {
        assert(views(v@)[i as int] == v@[i as int]@);
    }
    r
}

/// Replace the session sharing `x`'s id, or append `x`.
fn upsert_session(v: &mut Vec<FocusSession>, x: FocusSession)
    requires
        distinct_ids(views(old(v)@)),
        all_wf(views(old(v)@)),
        x.wf(),
    ensures
        views(final(v)@) == upsert_one(views(old(v)@), x@),
        distinct_ids(views(final(v)@)),
        all_wf(views(final(v)@)),
{
    let ghost l = views(v@);
    let n = v.len();
    let found = find_by_id(v, n, x.id.as_str());
    match found {
        Some(i) => {
            proof {
                let j = idx_of_id(l, x@.id);
                assert(has_id(l, x@.id));
                assert(0 <= j < l.len() && l[j].id == x@.id);
                assert(j == i);
            }
            v.set(i, x);
            proof {
                assert(views(v@) =~= l.update(i as int, x@));
            }
        },
        None => {
            v.push(x);
            proof {
                assert(views(v@) =~= l.push(x@));
            }
        },
    }
}

/// The stored sessions in listing order: selection of the largest remaining
/// `start_time`, so the result is sorted descending and holds the same
/// sessions.
fn sort_sessions_desc(input: &Vec<FocusSession>) -> (r: Vec<FocusSession>)
    requires
        all_wf(views(input@)),
    ensures
        views(r@).to_multiset() == views(input@).to_multiset(),
        sorted_by_start_desc(views(r@)),
        all_wf(views(r@)),
{
    let mut src: Vec<FocusSession> = Vec::new();
    let mut i: usize = 0;
    proof {
        assert(views(src@) =~= views(input@).take(0));
    }
    while i < input.len()
        invariant
            i <= input.len(),
            views(src@) == views(input@).take(i as int),
        decreases input.len() - i,
    {
        let s = clone_session(input, i);
        let ghost sv = views(src@);
        src.push(s);
        proof {
            assert(views(src@) =~= sv.push(views(input@)[i as int]));
            assert(views(input@).take(i + 1) =~= views(input@).take(i as int).push(
                views(input@)[i as int],
            ));
        }
        i += 1;
    }
    proof {
        assert(views(input@).take(input@.len() as int) =~= views(input@));
    }
    let mut out: Vec<FocusSession> = Vec::new();
    proof {
        broadcast use vstd::seq_lib::group_to_multiset_ensures;

        assert(views(out@) =~= Seq::<SessionView>::empty());
        assert(views(out@).to_multiset().add(views(src@).to_multiset()) =~= views(
            input@,
        ).to_multiset());
    }
    while src.len() > 0
        invariant
            views(out@).to_multiset().add(views(src@).to_multiset()) == views(
                input@,
            ).to_multiset(),
            sorted_by_start_desc(views(out@)),
            all_wf(views(out@)),
            all_wf(views(src@)),
            forall|a: int, b: int|
                0 <= a < views(out@).len() && 0 <= b < views(src@).len() ==> lex_le(
                    #[trigger] views(src@)[b].start_time,
                    #[trigger] views(out@)[a].start_time,
                ),
        decreases src.len(),
    {
        let mut m: usize = 0;
        let mut j: usize = 1;
        while j < src.len()
            invariant
                m < j <= src@.len(),
                forall|k: int|
                    0 <= k < j ==> lex_le(
                        #[trigger] views(src@)[k].start_time,
                        views(src@)[m as int].start_time,
                    ),
            decreases src@.len() - j,
        {
            proof {
                assert(views(src@)[m as int] == src@[m as int]@);
                assert(views(src@)[j as int] == src@[j as int]@);
            }
            if str_lex_lt(src[m].start_time.as_str(), src[j].start_time.as_str()) {
                proof {
                    let sv = views(src@);
                    assert forall|k: int| 0 <= k < j + 1 implies lex_le(
                        #[trigger] sv[k].start_time,
                        sv[j as int].start_time,
                    ) by {
                        if k < j {
                            lemma_lex_total(sv[k].start_time, sv[m as int].start_time);
                            if sv[k].start_time != sv[m as int].start_time {
                                lemma_lex_lt_trans(
                                    sv[k].start_time,
                                    sv[m as int].start_time,
                                    sv[j as int].start_time,
                                );
                            }
                        }
                    }
                }
                m = j;
            } else {
                proof {
                    let sv = views(src@);
                    lemma_lex_total(sv[j as int].start_time, sv[m as int].start_time);
                }
            }
            j += 1;
        }
        let ghost sv = views(src@);
        let ghost ov = views(out@);
        let x = src.remove(m);
        out.push(x);
        proof {
            broadcast use vstd::seq_lib::group_to_multiset_ensures;

            assert(views(src@) =~= sv.remove(m as int));
            assert(views(out@) =~= ov.push(sv[m as int]));
            assert(sv.remove(m as int).to_multiset() =~= sv.to_multiset().remove(sv[m as int]));
            assert(ov.push(sv[m as int]).to_multiset() =~= ov.to_multiset().insert(sv[m as int]));
            assert(ov.to_multiset().insert(sv[m as int]).add(
                sv.to_multiset().remove(sv[m as int]),
            ) =~= ov.to_multiset().add(sv.to_multiset()));
            assert forall|a: int, b: int|
                0 <= a < views(out@).len() && 0 <= b < views(src@).len() implies lex_le(
                #[trigger] views(src@)[b].start_time,
                #[trigger] views(out@)[a].start_time,
            ) by {
                let nb = if b < m { b } else { b + 1 };
                assert(views(src@)[b] == sv[nb]);
                if a < ov.len() {
                    assert(lex_le(sv[nb].start_time, ov[a].start_time));
                } else {
                    assert(views(out@)[a] == sv[m as int]);
                    assert(lex_le(sv[nb].start_time, sv[m as int].start_time));
                }
            }
        }
    }
    proof {
        broadcast use vstd::seq_lib::group_to_multiset_ensures;

        assert(views(src@).to_multiset() =~= Multiset::<SessionView>::empty());
        assert(views(out@).to_multiset().add(Multiset::<SessionView>::empty()) =~= views(
            out@,
        ).to_multiset());
    }
    out
}

/// Stop the running or paused timer and persist the finished session: a
/// fresh id (36 characters, not yet stored) and the current time are drawn,
/// the record is built from the engine's in-flight state, and only after a
/// successful save is the engine cleared. A save can be refused only when
/// the drawn id collides with a stored 36-character id — in particular,
/// stopping into a store with no such id (an empty store above all) always
/// succeeds — and a refusal leaves the timer and the store unchanged.
/// Whether the end time is at or after the start time rests on two clock
/// reads and is not stated.
pub fn stop_session(
    timer: &mut TimerState,
    store: &mut SessionStore,
    completed: bool,
) -> (r: Result<(), StorageError>)
    requires
        old(store).wf(),
    ensures
        final(store).wf(),
        match r {
            Ok(()) => {
                &&& exists|id: Seq<char>, end: Seq<char>|
                    {
                        &&& id.len() == 36
                        &&& end.len() >= 20
                        &&& !has_id(old(store)@, id)
                        &&& final(store)@ == old(store)@.push(
                            spec_session_on_stop(*old(timer), id, end, completed),
                        )
                    }
                &&& final(timer).wf()
                &&& !final(timer).is_running
                &&& final(timer).remaining_seconds == 0
                &&& final(timer).current_task is None
                &&& final(timer).start_time is None
            },
            Err(e) => {
                &&& e == StorageError::DuplicateId
                &&& final(store)@ == old(store)@
                &&& *final(timer) == *old(timer)
                &&& exists|i: int|
                    0 <= i < old(store)@.len() && (#[trigger] old(store)@[i]).id.len() == 36
                &&& old(store)@.len() > 0
            },
        },
{
    let id = fresh_session_id();
    let end_time = now_rfc3339();
    let ghost gid = id@;
    let ghost gend = end_time@;
    let session = build_session_on_stop(timer, id, end_time, completed);
    proof {
        assert(session@.id == gid);
    }
    match store.save_session(session) {
        Ok(()) => {
            stop_timer(timer);
            proof {
                let sv = spec_session_on_stop(*old(timer), gid, gend, completed);
                assert(gid.len() == 36 && gend.len() >= 20 && !has_id(old(store)@, gid)
                    && store@ == old(store)@.push(sv));
            }
            Ok(())
        },
        Err(e) => {
            proof {
                assert(has_id(old(store)@, gid));
                let i = choose|i: int| 0 <= i < old(store)@.len() && old(store)@[i].id == gid;
                assert(old(store)@[i].id.len() == 36);
            }
            Err(e)
        },
    }
}

proof fn lemma_id_map_update(l: Seq<SessionView>, i: int, x: SessionView)
    requires
        distinct_ids(l),
        0 <= i < l.len(),
        l[i].id == x.id,
    ensures
        id_map(l.update(i, x)) == id_map(l).insert(x.id, x),
    decreases l.len(),
{
    let u = l.update(i, x);
    if i == l.len() - 1 {
        assert(u.drop_last() =~= l.drop_last());
        assert(u.last() == x);
        assert(id_map(l).insert(x.id, x) =~= id_map(l.drop_last()).insert(x.id, x));
    } else {
        assert(u.drop_last() =~= l.drop_last().update(i, x));
        assert(u.last() == l.last());
        assert(distinct_ids(l.drop_last())) by {
            assert forall|a: int, b: int|
                0 <= a < b < l.drop_last().len() implies #[trigger] l.drop_last()[a].id
                    != #[trigger] l.drop_last()[b].id by {
                assert(l.drop_last()[a] == l[a]);
                assert(l.drop_last()[b] == l[b]);
            }
        }
        assert(l.drop_last()[i] == l[i]);
        lemma_id_map_update(l.drop_last(), i, x);
        assert(l.last().id != x.id);
        assert(id_map(l.drop_last()).insert(x.id, x).insert(l.last().id, l.last()) =~= id_map(
            l.drop_last(),
        ).insert(l.last().id, l.last()).insert(x.id, x));
    }
}

proof fn lemma_upsert_one_map(l: Seq<SessionView>, x: SessionView)
    requires
        distinct_ids(l),
    ensures
        id_map(upsert_one(l, x)) == id_map(l).insert(x.id, x),
        distinct_ids(upsert_one(l, x)),
{
    if has_id(l, x.id) {
        let i = idx_of_id(l, x.id);
        assert(0 <= i < l.len() && l[i].id == x.id);
        lemma_id_map_update(l, i, x);
        let u = l.update(i, x);
        assert forall|a: int, b: int| 0 <= a < b < u.len() implies u[a].id != u[b].id by {
            assert(u[a].id == l[a].id);
            assert(u[b].id == l[b].id);
        }
    } else {
        let u = l.push(x);
        assert(u.drop_last() =~= l);
        assert(u.last() == x);
        assert forall|a: int, b: int| 0 <= a < b < u.len() implies u[a].id != u[b].id by {
            if b == u.len() - 1 {
                assert(u[a] == l[a]);
                if l[a].id == x.id {
                    assert(has_id(l, x.id));
                }
            } else {
                assert(u[a] == l[a]);
                assert(u[b] == l[b]);
            }
        }
    }
}

/// The contents map after an import: the store's map overridden by the
/// document's map (for a duplicated id inside one document, the last record
/// wins, in the map and in the fold alike).
pub proof fn lemma_upsert_all_map(l: Seq<SessionView>, d: Seq<SessionView>)
    requires
        distinct_ids(l),
    ensures
        id_map(upsert_all(l, d)) == id_map(l).union_prefer_right(id_map(d)),
        distinct_ids(upsert_all(l, d)),
    decreases d.len(),
{
    if d.len() == 0 {
        assert(id_map(l).union_prefer_right(id_map(d)) =~= id_map(l));
    } else {
        lemma_upsert_all_map(l, d.drop_last());
        let a = upsert_all(l, d.drop_last());
        lemma_upsert_one_map(a, d.last());
        assert(id_map(l).union_prefer_right(id_map(d.drop_last())).insert(d.last().id, d.last())
            =~= id_map(l).union_prefer_right(id_map(d.drop_last()).insert(d.last().id, d.last())));
    }
}

/// Importing the same document twice yields the same final store contents
/// (the map from id to session) as importing it once.
pub proof fn lemma_import_idempotent(l: Seq<SessionView>, d: Seq<SessionView>)
    requires
        distinct_ids(l),
    ensures
        id_map(upsert_all(upsert_all(l, d), d)) == id_map(upsert_all(l, d)),
{
    lemma_upsert_all_map(l, d);
    lemma_upsert_all_map(upsert_all(l, d), d);
    assert(id_map(l).union_prefer_right(id_map(d)).union_prefer_right(id_map(d)) =~= id_map(
        l,
    ).union_prefer_right(id_map(d)));
}

/// Importing records with pairwise distinct ids into a fresh store stores
/// exactly those records, in order.
pub proof fn lemma_import_into_fresh(p: Seq<SessionView>)
    requires
        distinct_ids(p),
    ensures
        upsert_all(Seq::empty(), p) == p,
    decreases p.len(),
{
    if p.len() == 0 {
        assert(upsert_all(Seq::empty(), p) =~= p);
    } else {
        let dl = p.drop_last();
        assert(distinct_ids(dl)) by {
            assert forall|a: int, b: int| 0 <= a < b < dl.len() implies dl[a].id != dl[b].id by {
                assert(dl[a] == p[a]);
                assert(dl[b] == p[b]);
            }
        }
        lemma_import_into_fresh(dl);
        assert(!has_id(dl, p.last().id)) by {
            if has_id(dl, p.last().id) {
                let i = choose|i: int| 0 <= i < dl.len() && dl[i].id == p.last().id;
                assert(p[i].id == p[p.len() - 1].id);
            }
        }
        assert(upsert_all(Seq::empty(), p) == dl.push(p.last()));
        assert(dl.push(p.last()) =~= p);
    }
}

/// A permutation of sessions with pairwise distinct ids has them too.
proof fn lemma_distinct_ids_transfer(s: Seq<SessionView>, p: Seq<SessionView>)
    requires
        distinct_ids(s),
        p.to_multiset() == s.to_multiset(),
    ensures
        distinct_ids(p),
{
    broadcast use vstd::seq_lib::group_to_multiset_ensures;
    broadcast use vstd::multiset::group_multiset_axioms;

    assert forall|i: int, j: int| 0 <= i < j < p.len() implies p[i].id != p[j].id by {
        if p[i].id == p[j].id {
            assert(p.contains(p[i]));
            assert(p.to_multiset().count(p[i]) > 0);
            assert(s.to_multiset().count(p[i]) > 0);
            assert(s.contains(p[i]));
            assert(p.contains(p[j]));
            assert(p.to_multiset().count(p[j]) > 0);
            assert(s.to_multiset().count(p[j]) > 0);
            assert(s.contains(p[j]));
            let a = choose|a: int| 0 <= a < s.len() && s[a] == p[i];
            let b = choose|b: int| 0 <= b < s.len() && s[b] == p[j];
            assert(a == b);
            assert(p[i] == p[j]);
            assert(p.remove(i).to_multiset() == p.to_multiset().remove(p[i]));
            assert(p.remove(i)[j - 1] == p[j]);
            assert(p.remove(i).contains(p[j]));
            assert(p.remove(i).to_multiset().count(p[j]) > 0);
            assert(p.to_multiset().remove(p[i]).count(p[i]) == p.to_multiset().count(p[i]) - 1);
            assert(p.to_multiset().count(p[i]) >= 2);
            assert(s.remove(a).to_multiset() == s.to_multiset().remove(s[a]));
            assert(s.to_multiset().remove(s[a]).count(s[a]) == s.to_multiset().count(s[a]) - 1);
            assert(s.remove(a).to_multiset().count(p[i]) >= 1);
            assert(s.remove(a).contains(p[i]));
            let c = choose|c: int| 0 <= c < s.remove(a).len() && s.remove(a)[c] == p[i];
            let c2 = if c < a {
                c
            } else {
                c + 1
            };
            assert(s[c2] == p[i]);
            assert(c2 != a);
            assert(s[c2].id == s[a].id);
            assert(false);
        }
    }
}

/// Exporting a store and importing the document into a fresh store
/// reproduces an identical session set: the exported listing parses back
/// exactly, and importing it stores exactly the same sessions.
pub proof fn lemma_export_import_round_trip(s: Seq<SessionView>, p: Seq<SessionView>)
    requires
        distinct_ids(s),
        all_wf(s),
        p.to_multiset() == s.to_multiset(),
        sorted_by_start_desc(p),
    ensures
        sp_doc(enc_doc(p)) == Some(p),
        upsert_all(Seq::empty(), p) == p,
        p.to_multiset() == s.to_multiset(),
{
    broadcast use vstd::seq_lib::group_to_multiset_ensures;

    assert forall|i: int| 0 <= i < p.len() implies (#[trigger] p[i]).wf() by {
        assert(p.contains(p[i]));
        assert(p.to_multiset().count(p[i]) > 0);
        assert(s.to_multiset().count(p[i]) > 0);
        assert(s.contains(p[i]));
        let a = choose|a: int| 0 <= a < s.len() && s[a] == p[i];
        assert(s[a].wf());
    }
    crate::codec::lemma_doc_round_trip(p);
    lemma_distinct_ids_transfer(s, p);
    lemma_import_into_fresh(p);
}

/// Removing an id keeps exactly the other sessions.
proof fn lemma_remove_id_props(l: Seq<SessionView>, id: Seq<char>)
    requires
        distinct_ids(l),
        all_wf(l),
    ensures
        distinct_ids(remove_id(l, id)),
        all_wf(remove_id(l, id)),
        forall|k: int|
            0 <= k < remove_id(l, id).len() ==> exists|j: int|
                0 <= j < l.len() && #[trigger] remove_id(l, id)[k] == l[j],
    decreases l.len(),
{
    if l.len() > 0 {
        let dl = l.drop_last();
        lemma_remove_id_props(dl, id);
        let r = remove_id(l, id);
        if l.last().id != id {
            let rd = remove_id(dl, id);
            assert forall|k: int| 0 <= k < r.len() implies exists|j: int|
                0 <= j < l.len() && #[trigger] r[k] == l[j] by {
                if k < rd.len() {
                    let j = choose|j: int| 0 <= j < dl.len() && rd[k] == dl[j];
                    assert(r[k] == l[j]);
                } else {
                    assert(r[k] == l[l.len() - 1]);
                }
            }
            assert forall|a: int, b: int| 0 <= a < b < r.len() implies r[a].id != r[b].id by {
                if b < rd.len() {
                } else {
                    let j = choose|j: int| 0 <= j < dl.len() && rd[a] == dl[j];
                    assert(r[a] == l[j]);
                    assert(r[b] == l[l.len() - 1]);
                }
            }
        }
    }
}

/// Deleting an id that nothing carries leaves the sessions unchanged.
proof fn lemma_remove_id_absent(l: Seq<SessionView>, id: Seq<char>)
    requires
        !has_id(l, id),
    ensures
        remove_id(l, id) == l,
    decreases l.len(),
{
    if l.len() > 0 {
        assert(l[l.len() - 1].id != id);
        assert(!has_id(l.drop_last(), id)) by {
            if has_id(l.drop_last(), id) {
                let i = choose|i: int| 0 <= i < l.drop_last().len() && l.drop_last()[i].id == id;
                assert(l[i].id == id);
            }
        }
        lemma_remove_id_absent(l.drop_last(), id);
        assert(remove_id(l, id) =~= l);
    }
}

} // verus!
