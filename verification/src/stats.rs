use vstd::prelude::*;

use crate::platform::{
    MAX_DAY_NUMBER, MIN_DAY_NUMBER, day_key_of, day_key_of_day_number, parse_rfc3339_day,
    rfc3339_day_of, today_day_number,
};
use crate::session::{FocusSession, SessionView, views};
use crate::text::{lex_lt, str_eq};

verus! {

/// One calendar day in a trailing window: date key, focus minutes, sessions.
pub struct DailyStats {
    pub date: String,
    pub total_minutes: u64,
    pub count: u64,
}

pub ghost struct DailyStatsView {
    pub date: Seq<char>,
    pub total_minutes: int,
    pub count: int,
}

impl View for DailyStats {
    type V = DailyStatsView;

    open spec fn view(&self) -> DailyStatsView {
        DailyStatsView {
            date: self.date@,
            total_minutes: self.total_minutes as int,
            count: self.count as int,
        }
    }
}

/// Focus minutes carried by one tag, with its share of all tagged minutes.
pub struct TagStats {
    pub tag: String,
    pub total_minutes: u64,
    /// Share of all tagged minutes, rounded to tenths of a percent
    /// (727 stands for 72.7 %); 0 when no tagged minutes exist.
    pub percent_tenths: u32,
}

/// A session counts toward `day` when its start time parses and falls on it.
pub open spec fn on_day(v: SessionView, day: Seq<char>) -> bool {
    rfc3339_day_of(v.start_time) == Some(day)
}

/// Minutes of the sessions starting on `day`.
pub open spec fn day_total(l: Seq<SessionView>, day: Seq<char>) -> int
    decreases l.len(),
{
    if l.len() == 0 {
        0
    } else {
        day_total(l.drop_last(), day) + if on_day(l.last(), day) {
            l.last().duration as int
        } else {
            0
        }
    }
}

/// How many sessions start on `day`.
pub open spec fn day_count(l: Seq<SessionView>, day: Seq<char>) -> int
    decreases l.len(),
{
    if l.len() == 0 {
        0
    } else {
        day_count(l.drop_last(), day) + if on_day(l.last(), day) {
            1int
        } else {
            0int
        }
    }
}

/// The daily figures for the window of `days` days ending on day number
/// `today`: one entry per day, oldest first, each with that day's totals
/// over the whole session sequence.
pub open spec fn daily_stats_match(
    l: Seq<SessionView>,
    days: int,
    today: int,
    r: Seq<DailyStatsView>,
) -> bool {
    &&& r.len() == days
    &&& forall|k: int|
        0 <= k < days ==> (#[trigger] r[k]).date == day_key_of(today - days + 1 + k)
    &&& forall|k: int|
        0 <= k < days ==> (#[trigger] r[k]).total_minutes == day_total(
            l,
            day_key_of(today - days + 1 + k),
        )
    &&& forall|k: int|
        0 <= k < days ==> (#[trigger] r[k]).count == day_count(l, day_key_of(today - days + 1 + k))
}

pub open spec fn stats_views(s: Seq<DailyStats>) -> Seq<DailyStatsView> {
    s.map_values(|d: DailyStats| d@)
}

/// One `DailyStats` entry for every calendar day in the window of `days`
/// days ending on day number `today`, oldest first; a session contributes
/// to the day its start time falls on, and one whose start time does not
/// parse contributes nowhere.
pub fn daily_stats_from(sessions: &Vec<FocusSession>, days: u32, today: i64) -> (r: Vec<
    DailyStats,
>)
    requires
        sessions@.len() <= u32::MAX,
        MIN_DAY_NUMBER <= today <= MAX_DAY_NUMBER,
        days as int <= today,
    ensures
        daily_stats_match(views(sessions@), days as int, today as int, stats_views(r@)),
        forall|a: int, b: int|
            0 <= a < b < r@.len() ==> lex_lt(
                #[trigger] stats_views(r@)[a].date,
                #[trigger] stats_views(r@)[b].date,
            ),
{
    let l = sessions.len();
    let ghost lv = views(sessions@);
    let mut out: Vec<DailyStats> = Vec::new();
    let mut k: u32 = 0;
    while k < days
        invariant
            k <= days,
            l == sessions@.len() <= u32::MAX,
            lv == views(sessions@),
            MIN_DAY_NUMBER <= today <= MAX_DAY_NUMBER,
            days as int <= today,
            stats_views(out@).len() == k,
            forall|j: int|
                0 <= j < k ==> (#[trigger] stats_views(out@)[j]).date == day_key_of(
                    today - days + 1 + j,
                ),
            forall|j: int|
                0 <= j < k ==> (#[trigger] stats_views(out@)[j]).total_minutes == day_total(
                    lv,
                    day_key_of(today - days + 1 + j),
                ),
            forall|j: int|
                0 <= j < k ==> (#[trigger] stats_views(out@)[j]).count == day_count(
                    lv,
                    day_key_of(today - days + 1 + j),
                ),
            forall|a: int, b: int|
                0 <= a < b < k ==> lex_lt(
                    #[trigger] stats_views(out@)[a].date,
                    #[trigger] stats_views(out@)[b].date,
                ),
        decreases days - k,
    {
        let n: i64 = today - (days as i64) + 1 + (k as i64);
        let key = day_key_of_day_number(n);
        let mut total: u64 = 0;
        let mut cnt: u64 = 0;
        let mut i: usize = 0;
        proof {
            assert(lv.take(0) =~= Seq::<SessionView>::empty());
        }
        while i < l
            invariant
                i <= l,
                l == sessions@.len() <= u32::MAX,
                lv == views(sessions@),
                key@ == day_key_of(n as int),
                total == day_total(lv.take(i as int), key@),
                cnt == day_count(lv.take(i as int), key@),
                total <= (i as int) * (u32::MAX as int),
                cnt <= i,
            decreases l - i,
        {
            let parsed = parse_rfc3339_day(sessions[i].start_time.as_str());
            let here = match &parsed {
                Some(d) => str_eq(d.as_str(), key.as_str()),
                None => false,
            };
            proof {
                assert(lv[i as int] == sessions@[i as int]@);
                assert(here == on_day(lv[i as int], key@));
                assert(lv.take(i + 1).drop_last() =~= lv.take(i as int));
                assert(lv.take(i + 1).last() == lv[i as int]);
                assert((i as int) * (u32::MAX as int) + (u32::MAX as int) == ((i + 1) as int) * (
                u32::MAX as int)) by (nonlinear_arith);
                assert((l as int) * (u32::MAX as int) < u64::MAX) by (nonlinear_arith)
                    requires
                        l <= u32::MAX,
                ;
            }
            if here {
                total = total + (sessions[i].duration as u64);
                cnt = cnt + 1;
            }
            i += 1;
        }
        proof {
            assert(lv.take(l as int) =~= lv);
        }
        let ghost prev = stats_views(out@);
        out.push(DailyStats { date: key, total_minutes: total, count: cnt });
        proof {
            assert(stats_views(out@) =~= prev.push(
                DailyStatsView { date: key@, total_minutes: total as int, count: cnt as int },
            ));
        }
        k += 1;
    }
    out
}

/// The daily figures for the trailing window of `days` days ending today,
/// oldest day first (the clock is read once; a clock far outside the
/// calendar's range is clamped into it).
pub fn calculate_daily_stats(sessions: &Vec<FocusSession>, days: u32) -> (r: Vec<DailyStats>)
    requires
        sessions@.len() <= u32::MAX,
        days <= 3_652_059,
    ensures
        exists|today: i64|
            #![auto]
            MIN_DAY_NUMBER <= today <= MAX_DAY_NUMBER && days as int <= today
                && daily_stats_match(views(sessions@), days as int, today as int, stats_views(r@)),
        r@.len() == days,
        forall|a: int, b: int|
            0 <= a < b < r@.len() ==> lex_lt(
                #[trigger] stats_views(r@)[a].date,
                #[trigger] stats_views(r@)[b].date,
            ),
{
    let t = today_day_number();
    let lo: i64 = if days as i64 >= 1 {
        days as i64
    } else {
        1
    };
    let today: i64 = if t < lo {
        lo
    } else if t > MAX_DAY_NUMBER {
        MAX_DAY_NUMBER
    } else {
        t
    };
    let r = daily_stats_from(sessions, days, today);
    proof {
        assert(stats_views(r@).len() == days as int);
    }
    r
}

pub ghost struct TagStatsView {
    pub tag: Seq<char>,
    pub total_minutes: int,
    pub percent_tenths: int,
}

impl View for TagStats {
    type V = TagStatsView;

    open spec fn view(&self) -> TagStatsView {
        TagStatsView {
            tag: self.tag@,
            total_minutes: self.total_minutes as int,
            percent_tenths: self.percent_tenths as int,
        }
    }
}

pub open spec fn tag_views(s: Seq<TagStats>) -> Seq<TagStatsView> {
    s.map_values(|t: TagStats| t@)
}

/// How often a tag occurs in one session's tag list.
pub open spec fn tag_count(tags: Seq<Seq<char>>, tag: Seq<char>) -> int
    decreases tags.len(),
{
    if tags.len() == 0 {
        0
    } else {
        tag_count(tags.drop_last(), tag) + if tags.last() == tag {
            1int
        } else {
            0int
        }
    }
}

/// Minutes carried by a tag: every session carrying it contributes its full
/// duration, once per occurrence.
pub open spec fn tag_total(l: Seq<SessionView>, tag: Seq<char>) -> int
    decreases l.len(),
{
    if l.len() == 0 {
        0
    } else {
        tag_total(l.drop_last(), tag) + l.last().duration * tag_count(l.last().tags, tag)
    }
}

/// All tagged minutes, counting multiplicities: a session with N tags
/// contributes its duration N times.
pub open spec fn grand_total(l: Seq<SessionView>) -> int
    decreases l.len(),
{
    if l.len() == 0 {
        0
    } else {
        grand_total(l.drop_last()) + l.last().duration * l.last().tags.len()
    }
}

/// Some session carries this tag.
pub open spec fn tag_appears(l: Seq<SessionView>, tag: Seq<char>) -> bool {
    exists|i: int, b: int| 0 <= i < l.len() && 0 <= b < l[i].tags.len() && l[i].tags[b] == tag
}

/// Some accumulated entry carries this tag name.
pub open spec fn covered(names: Seq<String>, tag: Seq<char>) -> bool {
    exists|k: int| 0 <= k < names.len() && names[k]@ == tag
}

/// A share in tenths of a percent, rounded half up; 0 of an empty whole.
pub open spec fn percent_tenths_of(total: int, grand: int) -> int {
    if grand > 0 {
        (2000 * total + grand) / (2 * grand)
    } else {
        0
    }
}

proof fn lemma_tag_count_bounds(tags: Seq<Seq<char>>, tag: Seq<char>)
    ensures
        0 <= tag_count(tags, tag) <= tags.len(),
    decreases tags.len(),
{
    if tags.len() > 0 {
        lemma_tag_count_bounds(tags.drop_last(), tag);
    }
}

proof fn lemma_tag_count_zero(tags: Seq<Seq<char>>, tag: Seq<char>)
    requires
        forall|b: int| 0 <= b < tags.len() ==> tags[b] != tag,
    ensures
        tag_count(tags, tag) == 0,
    decreases tags.len(),
{
    if tags.len() > 0 {
        assert forall|b: int| 0 <= b < tags.drop_last().len() implies tags.drop_last()[b]
            != tag by {
            assert(tags.drop_last()[b] == tags[b]);
        }
        lemma_tag_count_zero(tags.drop_last(), tag);
        assert(tags.last() != tag);
    }
}

proof fn lemma_tag_total_zero(l: Seq<SessionView>, tag: Seq<char>)
    requires
        !tag_appears(l, tag),
    ensures
        tag_total(l, tag) == 0,
    decreases l.len(),
{
    if l.len() > 0 {
        assert(!tag_appears(l.drop_last(), tag)) by {
            if tag_appears(l.drop_last(), tag) {
                let (i, b) = choose|i: int, b: int|
                    0 <= i < l.drop_last().len() && 0 <= b < l.drop_last()[i].tags.len()
                        && l.drop_last()[i].tags[b] == tag;
                assert(l[i].tags[b] == tag);
            }
        }
        lemma_tag_total_zero(l.drop_last(), tag);
        assert(tag_count(l.last().tags, tag) == 0) by {
            assert forall|b: int| 0 <= b < l.last().tags.len() implies l.last().tags[b] != tag by {
                if l.last().tags[b] == tag {
                    assert(l[l.len() - 1].tags[b] == tag);
                }
            }
            lemma_tag_count_zero(l.last().tags, tag);
        }
    }
}

proof fn lemma_tag_le_grand(l: Seq<SessionView>, tag: Seq<char>)
    ensures
        0 <= tag_total(l, tag) <= grand_total(l),
    decreases l.len(),
{
    if l.len() > 0 {
        lemma_tag_le_grand(l.drop_last(), tag);
        lemma_tag_count_bounds(l.last().tags, tag);
        assert(l.last().duration * tag_count(l.last().tags, tag) <= l.last().duration
            * l.last().tags.len() && 0 <= l.last().duration * tag_count(l.last().tags, tag))
            by (nonlinear_arith)
            requires
                0 <= tag_count(l.last().tags, tag) <= l.last().tags.len(),
                l.last().duration >= 0,
        ;
    }
}

proof fn lemma_grand_mono(l: Seq<SessionView>, i: int, j: int)
    requires
        0 <= i <= j <= l.len(),
    ensures
        grand_total(l.take(i)) <= grand_total(l.take(j)),
        grand_total(l.take(l.len() as int)) == grand_total(l),
    decreases j - i,
{
    assert(l.take(l.len() as int) =~= l);
    if i < j {
        lemma_grand_mono(l, i, j - 1);
        assert(l.take(j).drop_last() =~= l.take(j - 1));
        let x = l.take(j).last();
        assert(grand_total(l.take(j)) == grand_total(l.take(j - 1)) + x.duration * x.tags.len());
        assert(x.duration * x.tags.len() >= 0) by (nonlinear_arith)
            requires
                x.duration >= 0,
                x.tags.len() >= 0,
        ;
    }
}

/// Minutes and share per distinct tag, over all tags carried by any
/// session, each tag once: tag totals are not mutually exclusive, and the
/// shares are fractions of all tagged minutes (counting multiplicities), so
/// they account for the whole. A tag named twice in one session's list is
/// credited that session's duration twice, and the session contributes its
/// duration to the grand total once per tag occurrence.
pub fn calculate_tag_stats(sessions: &Vec<FocusSession>) -> (r: Vec<TagStats>)
    requires
        grand_total(views(sessions@)) <= u64::MAX,
    ensures
        sessions@.len() == 0 ==> r@.len() == 0,
        forall|k1: int, k2: int|
            0 <= k1 < k2 < r@.len() ==> #[trigger] tag_views(r@)[k1].tag != #[trigger] tag_views(
                r@,
            )[k2].tag,
        forall|k: int| 0 <= k < r@.len() ==> tag_appears(views(sessions@), tag_views(r@)[k].tag),
        forall|tag: Seq<char>|
            tag_appears(views(sessions@), tag) ==> exists|k: int|
                0 <= k < r@.len() && tag_views(r@)[k].tag == tag,
        forall|k: int|
            0 <= k < r@.len() ==> tag_views(r@)[k].total_minutes == tag_total(
                views(sessions@),
                tag_views(r@)[k].tag,
            ),
        forall|k: int|
            0 <= k < r@.len() ==> tag_views(r@)[k].percent_tenths == percent_tenths_of(
                tag_total(views(sessions@), tag_views(r@)[k].tag),
                grand_total(views(sessions@)),
            ),
{
    let ghost lv = views(sessions@);
    let mut names: Vec<String> = Vec::new();
    let mut totals: Vec<u64> = Vec::new();
    let mut grand: u64 = 0;
    let mut i: usize = 0;
    proof {
        assert(lv.take(0) =~= Seq::<SessionView>::empty());
    }
    while i < sessions.len()
        invariant
            i <= sessions@.len(),
            lv == views(sessions@),
            grand_total(lv) <= u64::MAX,
            names@.len() == totals@.len(),
            forall|k1: int, k2: int|
                0 <= k1 < k2 < names@.len() ==> #[trigger] names@[k1]@ != #[trigger] names@[k2]@,
            forall|k: int| 0 <= k < names@.len() ==> tag_appears(lv, #[trigger] names@[k]@),
            forall|tag: Seq<char>|
                #[trigger] tag_appears(lv.take(i as int), tag) ==> covered(names@, tag),
            forall|k: int|
                0 <= k < names@.len() ==> totals@[k] == tag_total(
                    lv.take(i as int),
                    #[trigger] names@[k]@,
                ),
            grand == grand_total(lv.take(i as int)),
        decreases sessions@.len() - i,
    {
        let ntags = sessions[i].tags.len();
        let dur = sessions[i].duration;
        let ghost tv = lv[i as int].tags;
        proof {
            assert(lv[i as int] == sessions@[i as int]@);
            assert(tv.len() == ntags);
            assert(tv.take(0) =~= Seq::<Seq<char>>::empty());
        }
        let mut j: usize = 0;
        while j < ntags
            invariant
                j <= ntags,
                i < sessions@.len(),
                lv == views(sessions@),
                lv[i as int] == sessions@[i as int]@,
                tv == lv[i as int].tags,
                ntags == tv.len(),
                dur == lv[i as int].duration,
                grand_total(lv) <= u64::MAX,
                names@.len() == totals@.len(),
                forall|k1: int, k2: int|
                    0 <= k1 < k2 < names@.len() ==> #[trigger] names@[k1]@ != #[trigger] names@[k2]@,
                forall|k: int| 0 <= k < names@.len() ==> tag_appears(lv, #[trigger] names@[k]@),
                forall|tag: Seq<char>|
                    #[trigger] tag_appears(lv.take(i as int), tag) ==> covered(names@, tag),
                forall|b: int| 0 <= b < j ==> #[trigger] covered(names@, tv[b]),
                forall|k: int|
                    0 <= k < names@.len() ==> totals@[k] == tag_total(
                        lv.take(i as int),
                        #[trigger] names@[k]@,
                    ) + dur * tag_count(tv.take(j as int), names@[k]@),
                grand == grand_total(lv.take(i as int)) + dur * j,
            decreases ntags - j,
        {
            let t = &sessions[i].tags[j];
            proof {
                assert(tv[j as int] == sessions@[i as int].tags@[j as int]@);
                assert(tv.take(j + 1).drop_last() =~= tv.take(j as int));
                assert(tv.take(j + 1).last() == tv[j as int]);
                lemma_grand_mono(lv, i as int + 1, lv.len() as int);
                assert(lv.take(i as int + 1).drop_last() =~= lv.take(i as int));
                assert(lv.take(i as int + 1).last() == lv[i as int]);
                assert(dur * (j + 1) == dur * j + dur) by (nonlinear_arith);
                assert(dur * (j + 1) <= dur * tv.len()) by (nonlinear_arith)
                    requires
                        0 <= dur,
                        j + 1 <= tv.len(),
                ;
            }
            let found = find_tag(&names, t.as_str());
            let ghost old_names = names@;
            let ghost old_totals = totals@;
            match found {
                Some(k) => {
                    proof {
                        lemma_tag_count_bounds(tv.take(j as int), old_names[k as int]@);
                        lemma_tag_le_grand(lv.take(i as int), old_names[k as int]@);
                        assert(dur * tag_count(tv.take(j as int), old_names[k as int]@) <= dur * (
                        j as int)) by (nonlinear_arith)
                            requires
                                0 <= dur,
                                0 <= tag_count(tv.take(j as int), old_names[k as int]@) <= j as int,
                        ;
                    }
                    let nt = totals[k] + (dur as u64);
                    totals.set(k, nt);
                    proof {
                        assert(covered(names@, tv[j as int]));
                        assert forall|q: int| 0 <= q < names@.len() implies totals@[q]
                            == tag_total(lv.take(i as int), #[trigger] names@[q]@) + dur
                            * tag_count(tv.take(j + 1), names@[q]@) by {
                            assert(tag_count(tv.take(j + 1), names@[q]@) == tag_count(
                                tv.take(j as int),
                                names@[q]@,
                            ) + if tv[j as int] == names@[q]@ {
                                1int
                            } else {
                                0int
                            });
                            if q == k as int {
                                assert(tv[j as int] == names@[q]@);
                                assert(dur * (tag_count(tv.take(j as int), names@[q]@) + 1) == dur
                                    * tag_count(tv.take(j as int), names@[q]@) + dur)
                                    by (nonlinear_arith);
                            } else {
                                assert(names@[q]@ != names@[k as int]@);
                            }
                        }
                    }
                },
                None => {
                    let tag_copy = clone_string(t);
                    names.push(tag_copy);
                    totals.push(dur as u64);
                    proof {
                        assert(names@[names@.len() - 1]@ == tv[j as int]);
                        assert(covered(names@, tv[j as int]));
                        assert(!tag_appears(lv.take(i as int), tv[j as int])) by {
                            if tag_appears(lv.take(i as int), tv[j as int]) {
                                assert(covered(old_names, tv[j as int]));
                                let q = choose|q: int|
                                    0 <= q < old_names.len() && old_names[q]@ == tv[j as int];
                                assert(old_names[q]@ == tv[j as int]);
                            }
                        }
                        lemma_tag_total_zero(lv.take(i as int), tv[j as int]);
                        assert(forall|b: int| 0 <= b < j ==> tv.take(j as int)[b] == tv[b]);
                        assert forall|b: int| 0 <= b < j implies tv[b] != tv[j as int] by {
                            if tv[b] == tv[j as int] {
                                assert(covered(old_names, tv[b]));
                                let q = choose|q: int|
                                    0 <= q < old_names.len() && old_names[q]@ == tv[b];
                                assert(old_names[q]@ == tv[j as int]);
                            }
                        }
                        lemma_tag_count_zero(tv.take(j as int), tv[j as int]);
                        assert(tag_appears(lv, tv[j as int])) by {
                            assert(lv[i as int].tags[j as int] == tv[j as int]);
                        }
                        assert forall|q: int| 0 <= q < names@.len() implies totals@[q]
                            == tag_total(lv.take(i as int), #[trigger] names@[q]@) + dur
                            * tag_count(tv.take(j + 1), names@[q]@) by {
                            assert(tag_count(tv.take(j + 1), names@[q]@) == tag_count(
                                tv.take(j as int),
                                names@[q]@,
                            ) + if tv[j as int] == names@[q]@ {
                                1int
                            } else {
                                0int
                            });
                            if q == names@.len() - 1 {
                                assert(names@[q]@ == tv[j as int]);
                                assert(tag_count(tv.take(j as int), names@[q]@) == 0);
                                assert(dur * 1 == dur) by (nonlinear_arith);
                            } else {
                                assert(names@[q]@ == old_names[q]@);
                                assert(totals@[q] == old_totals[q]);
                                assert(names@[q]@ != tv[j as int]);
                            }
                        }
                    }
                },
            }
            proof {
                assert forall|tag: Seq<char>|
                    #[trigger] tag_appears(lv.take(i as int), tag) implies covered(
                    names@,
                    tag,
                ) by {
                    let k = choose|k: int| 0 <= k < old_names.len() && old_names[k]@ == tag;
                    assert(names@[k]@ == tag);
                }
                assert forall|b: int| 0 <= b < j + 1 implies #[trigger] covered(
                    names@,
                    tv[b],
                ) by {
                    if b < j {
                        assert(covered(old_names, tv[b]));
                        let k = choose|k: int| 0 <= k < old_names.len() && old_names[k]@ == tv[b];
                        assert(names@[k]@ == tv[b]);
                    }
                }
            }
            j += 1;
            grand = grand + (dur as u64);
        }
        proof {
            assert(tv.take(tv.len() as int) =~= tv);
            assert(lv.take(i as int + 1).drop_last() =~= lv.take(i as int));
            assert(lv.take(i as int + 1).last() == lv[i as int]);
            assert forall|tag: Seq<char>|
                #[trigger] tag_appears(lv.take(i as int + 1), tag) implies covered(
                names@,
                tag,
            ) by {
                let pfx = lv.take(i as int + 1);
                let (a, b) = choose|a: int, b: int|
                    0 <= a < pfx.len() && 0 <= b < pfx[a].tags.len() && pfx[a].tags[b] == tag;
                if a < i as int {
                    assert(lv.take(i as int)[a].tags[b] == tag);
                    assert(tag_appears(lv.take(i as int), tag));
                } else {
                    assert(tv[b] == tag);
                    assert(covered(names@, tv[b]));
                }
            }
        }
        i += 1;
    }
    proof {
        assert(lv.take(sessions@.len() as int) =~= lv);
    }
    let mut r: Vec<TagStats> = Vec::new();
    let mut k: usize = 0;
    while k < names.len()
        invariant
            k <= names@.len(),
            lv == views(sessions@),
            grand_total(lv) <= u64::MAX,
            names@.len() == totals@.len(),
            grand == grand_total(lv),
            forall|k1: int, k2: int|
                0 <= k1 < k2 < names@.len() ==> #[trigger] names@[k1]@ != #[trigger] names@[k2]@,
            forall|q: int| 0 <= q < names@.len() ==> tag_appears(lv, #[trigger] names@[q]@),
            forall|tag: Seq<char>| #[trigger] tag_appears(lv, tag) ==> covered(names@, tag),
            forall|q: int|
                0 <= q < names@.len() ==> totals@[q] == tag_total(lv, #[trigger] names@[q]@),
            tag_views(r@).len() == k,
            forall|q: int| 0 <= q < k ==> (#[trigger] tag_views(r@)[q]).tag == names@[q]@,
            forall|q: int|
                0 <= q < k ==> (#[trigger] tag_views(r@)[q]).total_minutes == totals@[q],
            forall|q: int|
                0 <= q < k ==> (#[trigger] tag_views(r@)[q]).percent_tenths == percent_tenths_of(
                    totals@[q] as int,
                    grand as int,
                ),
        decreases names@.len() - k,
    {
        let total = totals[k];
        let pct: u32 = if grand > 0 {
            proof {
                lemma_tag_le_grand(lv, names@[k as int]@);
                assert((2000 * (total as int) + grand as int) / (2 * (grand as int)) <= 1000)
                    by (nonlinear_arith)
                    requires
                        0 < grand as int,
                        0 <= total as int <= grand as int,
                ;
                assert((2000 * (total as int) + grand as int) / (2 * (grand as int)) >= 0)
                    by (nonlinear_arith)
                    requires
                        0 < grand as int,
                        0 <= total as int,
                ;
            }
            let wide: u128 = (2000u128 * (total as u128) + (grand as u128)) / (2u128 * (
            grand as u128));
            wide as u32
        } else {
            0
        };
        let name = clone_string(&names[k]);
        let ghost prev = tag_views(r@);
        r.push(TagStats { tag: name, total_minutes: total, percent_tenths: pct });
        proof {
            assert(tag_views(r@) =~= prev.push(
                TagStatsView {
                    tag: names@[k as int]@,
                    total_minutes: total as int,
                    percent_tenths: pct as int,
                },
            ));
        }
        k += 1;
    }
    proof {
        assert forall|tag: Seq<char>| #[trigger] tag_appears(lv, tag) implies exists|q: int|
            0 <= q < r@.len() && tag_views(r@)[q].tag == tag by {
            assert(covered(names@, tag));
            let q = choose|q: int| 0 <= q < names@.len() && names@[q]@ == tag;
            assert(tag_views(r@)[q].tag == tag);
        }
        if lv.len() == 0 && r@.len() > 0 {
            assert(tag_appears(lv, names@[0]@));
            let (i, b) = choose|i: int, b: int|
                0 <= i < lv.len() && 0 <= b < lv[i].tags.len() && lv[i].tags[b] == names@[0]@;
            assert(false);
        }
    }
    r
}

/// Tag names are pairwise distinct.
pub open spec fn distinct_tags(ds: Seq<Seq<char>>) -> bool {
    forall|i: int, j: int| 0 <= i < j < ds.len() ==> ds[i] != ds[j]
}

/// Sum of the minutes credited to each listed tag.
pub open spec fn sum_tag_totals(l: Seq<SessionView>, ds: Seq<Seq<char>>) -> int
    decreases ds.len(),
{
    if ds.len() == 0 {
        0
    } else {
        sum_tag_totals(l, ds.drop_last()) + tag_total(l, ds.last())
    }
}

/// Sum of one session's tag occurrences over the listed tags.
spec fn sum_counts(tags: Seq<Seq<char>>, ds: Seq<Seq<char>>) -> int
    decreases ds.len(),
{
    if ds.len() == 0 {
        0
    } else {
        sum_counts(tags, ds.drop_last()) + tag_count(tags, ds.last())
    }
}

spec fn occurrences(ds: Seq<Seq<char>>, x: Seq<char>) -> int
    decreases ds.len(),
{
    if ds.len() == 0 {
        0
    } else {
        occurrences(ds.drop_last(), x) + if ds.last() == x {
            1int
        } else {
            0int
        }
    }
}

proof fn lemma_occurrences_one(ds: Seq<Seq<char>>, x: Seq<char>)
    requires
        distinct_tags(ds),
    ensures
        ds.contains(x) ==> occurrences(ds, x) == 1,
        !ds.contains(x) ==> occurrences(ds, x) == 0,
    decreases ds.len(),
{
    if ds.len() > 0 {
        let dl = ds.drop_last();
        assert forall|i: int, j: int| 0 <= i < j < dl.len() implies dl[i] != dl[j] by {
            assert(dl[i] == ds[i]);
            assert(dl[j] == ds[j]);
        }
        lemma_occurrences_one(dl, x);
        if ds.contains(x) {
            let i = choose|i: int| 0 <= i < ds.len() && ds[i] == x;
            if i < ds.len() - 1 {
                assert(dl[i] == x);
                assert(dl.contains(x));
                assert(ds.last() != x);
            } else {
                assert(ds.last() == x);
                assert(!dl.contains(x)) by {
                    if dl.contains(x) {
                        let j = choose|j: int| 0 <= j < dl.len() && dl[j] == x;
                        assert(ds[j] == x);
                    }
                }
            }
        } else {
            assert(!dl.contains(x)) by {
                if dl.contains(x) {
                    let j = choose|j: int| 0 <= j < dl.len() && dl[j] == x;
                    assert(ds[j] == x);
                    assert(ds.contains(x));
                }
            }
            assert(ds.last() != x) by {
                if ds.last() == x {
                    assert(ds[ds.len() - 1] == x);
                    assert(ds.contains(x));
                }
            }
        }
    }
}

proof fn lemma_sum_counts_empty(ds: Seq<Seq<char>>)
    ensures
        sum_counts(Seq::<Seq<char>>::empty(), ds) == 0,
    decreases ds.len(),
{
    if ds.len() > 0 {
        lemma_sum_counts_empty(ds.drop_last());
    }
}

proof fn lemma_sum_counts_push(tg: Seq<Seq<char>>, x: Seq<char>, ds: Seq<Seq<char>>)
    ensures
        sum_counts(tg.push(x), ds) == sum_counts(tg, ds) + occurrences(ds, x),
    decreases ds.len(),
{
    if ds.len() > 0 {
        lemma_sum_counts_push(tg, x, ds.drop_last());
        assert(tg.push(x).drop_last() =~= tg);
        assert(tg.push(x).last() == x);
        assert(tag_count(tg.push(x), ds.last()) == tag_count(tg, ds.last()) + if x == ds.last() {
            1int
        } else {
            0int
        });
    }
}

proof fn lemma_sum_counts_all(tags: Seq<Seq<char>>, ds: Seq<Seq<char>>)
    requires
        distinct_tags(ds),
        forall|b: int| 0 <= b < tags.len() ==> ds.contains(#[trigger] tags[b]),
    ensures
        sum_counts(tags, ds) == tags.len(),
    decreases tags.len(),
{
    if tags.len() == 0 {
        assert(tags =~= Seq::<Seq<char>>::empty());
        lemma_sum_counts_empty(ds);
    } else {
        let tg = tags.drop_last();
        let x = tags.last();
        assert(tags =~= tg.push(x));
        assert forall|b: int| 0 <= b < tg.len() implies ds.contains(#[trigger] tg[b]) by {
            assert(tg[b] == tags[b]);
        }
        lemma_sum_counts_all(tg, ds);
        lemma_sum_counts_push(tg, x, ds);
        assert(ds.contains(tags[tags.len() - 1]));
        lemma_occurrences_one(ds, x);
    }
}

proof fn lemma_sum_tag_totals_empty(ds: Seq<Seq<char>>)
    ensures
        sum_tag_totals(Seq::<SessionView>::empty(), ds) == 0,
    decreases ds.len(),
{
    if ds.len() > 0 {
        lemma_sum_tag_totals_empty(ds.drop_last());
    }
}

proof fn lemma_sum_split(l: Seq<SessionView>, ds: Seq<Seq<char>>)
    requires
        l.len() > 0,
    ensures
        sum_tag_totals(l, ds) == sum_tag_totals(l.drop_last(), ds) + l.last().duration
            * sum_counts(l.last().tags, ds),
    decreases ds.len(),
{
    let dur = l.last().duration as int;
    if ds.len() == 0 {
        assert(dur * 0 == 0) by (nonlinear_arith);
    } else {
        lemma_sum_split(l, ds.drop_last());
        let a = sum_counts(l.last().tags, ds.drop_last());
        let b = tag_count(l.last().tags, ds.last());
        assert(dur * a + dur * b == dur * (a + b)) by (nonlinear_arith);
    }
}

/// The listed tag totals account for all tagged minutes exactly: summed over
/// any list of pairwise distinct tags that covers every tag in use, the tag
/// totals add up to the grand total of tagged minutes. Each share is its
/// total scaled by a thousandth of that grand total, so the shares sum to
/// one hundred percent up to the per-entry rounding.
pub proof fn lemma_sum_tag_totals_grand(l: Seq<SessionView>, ds: Seq<Seq<char>>)
    requires
        distinct_tags(ds),
        forall|t: Seq<char>| #[trigger] tag_appears(l, t) ==> ds.contains(t),
    ensures
        sum_tag_totals(l, ds) == grand_total(l),
    decreases l.len(),
{
    if l.len() == 0 {
        assert(l =~= Seq::<SessionView>::empty());
        lemma_sum_tag_totals_empty(ds);
    } else {
        let dl = l.drop_last();
        assert forall|t: Seq<char>| #[trigger] tag_appears(dl, t) implies ds.contains(t) by {
            let (i, b) = choose|i: int, b: int|
                0 <= i < dl.len() && 0 <= b < dl[i].tags.len() && dl[i].tags[b] == t;
            assert(l[i].tags[b] == t);
            assert(tag_appears(l, t));
        }
        lemma_sum_tag_totals_grand(dl, ds);
        assert forall|b: int| 0 <= b < l.last().tags.len() implies ds.contains(
            #[trigger] l.last().tags[b],
        ) by {
            assert(l[l.len() - 1].tags[b] == l.last().tags[b]);
            assert(tag_appears(l, l.last().tags[b]));
        }
        lemma_sum_counts_all(l.last().tags, ds);
        lemma_sum_split(l, ds);
        assert(sum_counts(l.last().tags, ds) == l.last().tags.len());
        assert(grand_total(l) == grand_total(dl) + l.last().duration * l.last().tags.len());
        assert(sum_tag_totals(l, ds) == grand_total(dl) + l.last().duration * sum_counts(
            l.last().tags,
            ds,
        ));
    }
}

/// Sum of the minutes over the computed tag entries.
pub open spec fn sum_entry_totals(rs: Seq<TagStatsView>) -> int
    decreases rs.len(),
{
    if rs.len() == 0 {
        0
    } else {
        sum_entry_totals(rs.drop_last()) + rs.last().total_minutes
    }
}

/// The tags of the computed entries.
pub open spec fn entry_tags(rs: Seq<TagStatsView>) -> Seq<Seq<char>> {
    rs.map_values(|e: TagStatsView| e.tag)
}

proof fn lemma_sum_entries(l: Seq<SessionView>, rs: Seq<TagStatsView>)
    requires
        forall|k: int|
            0 <= k < rs.len() ==> (#[trigger] rs[k]).total_minutes == tag_total(l, rs[k].tag),
    ensures
        sum_entry_totals(rs) == sum_tag_totals(l, entry_tags(rs)),
    decreases rs.len(),
{
    if rs.len() > 0 {
        let dl = rs.drop_last();
        assert(entry_tags(dl) =~= entry_tags(rs).drop_last());
        assert(entry_tags(rs).last() == rs.last().tag);
        assert(rs[rs.len() - 1].total_minutes == tag_total(l, rs[rs.len() - 1].tag));
        lemma_sum_entries(l, dl);
    }
}

/// What [`calculate_tag_stats`] lists accounts for every tagged minute: the
/// entry totals sum to the grand total of tagged minutes, so the shares
/// (each total scaled to tenths of a percent of that grand total) sum to
/// one hundred percent up to the per-entry rounding.
pub proof fn lemma_tag_totals_sum_to_grand(l: Seq<SessionView>, rs: Seq<TagStatsView>)
    requires
        forall|k1: int, k2: int|
            0 <= k1 < k2 < rs.len() ==> (#[trigger] rs[k1]).tag != (#[trigger] rs[k2]).tag,
        forall|t: Seq<char>|
            #[trigger] tag_appears(l, t) ==> exists|k: int| 0 <= k < rs.len() && rs[k].tag == t,
        forall|k: int|
            0 <= k < rs.len() ==> (#[trigger] rs[k]).total_minutes == tag_total(l, rs[k].tag),
    ensures
        sum_entry_totals(rs) == grand_total(l),
{
    let ds = entry_tags(rs);
    assert forall|i: int, j: int| 0 <= i < j < ds.len() implies ds[i] != ds[j] by {
        assert(ds[i] == rs[i].tag);
        assert(ds[j] == rs[j].tag);
    }
    assert forall|t: Seq<char>| #[trigger] tag_appears(l, t) implies ds.contains(t) by {
        let k = choose|k: int| 0 <= k < rs.len() && rs[k].tag == t;
        assert(ds[k] == t);
    }
    lemma_sum_tag_totals_grand(l, ds);
    lemma_sum_entries(l, rs);
}

/// Sum of the rounded shares over the computed tag entries, in tenths of a
/// percent.
pub open spec fn sum_shares(rs: Seq<TagStatsView>) -> int
    decreases rs.len(),
{
    if rs.len() == 0 {
        0
    } else {
        sum_shares(rs.drop_last()) + rs.last().percent_tenths
    }
}

proof fn lemma_share_bounds(t: int, g: int)
    requires
        0 <= t,
        1 <= g,
    ensures
        2 * g * percent_tenths_of(t, g) <= 2000 * t + g,
        2000 * t + g < 2 * g * percent_tenths_of(t, g) + 2 * g,
{
    let x = 2000 * t + g;
    let d = 2 * g;
    vstd::arithmetic::div_mod::lemma_fundamental_div_mod(x, d);
    vstd::arithmetic::div_mod::lemma_mod_bound(x, d);
    assert(percent_tenths_of(t, g) == x / d);
}

proof fn lemma_sum_shares_bounds(l: Seq<SessionView>, rs: Seq<TagStatsView>, g: int)
    requires
        g == grand_total(l),
        g >= 1,
        forall|k: int|
            0 <= k < rs.len() ==> (#[trigger] rs[k]).total_minutes == tag_total(l, rs[k].tag),
        forall|k: int|
            0 <= k < rs.len() ==> (#[trigger] rs[k]).percent_tenths == percent_tenths_of(
                tag_total(l, rs[k].tag),
                g,
            ),
    ensures
        2000 * sum_entry_totals(rs) - rs.len() * g <= 2 * g * sum_shares(rs),
        2 * g * sum_shares(rs) <= 2000 * sum_entry_totals(rs) + rs.len() * g,
    decreases rs.len(),
{
    if rs.len() > 0 {
        let dl = rs.drop_last();
        assert forall|k: int| 0 <= k < dl.len() implies (#[trigger] dl[k]).total_minutes
            == tag_total(l, dl[k].tag) && dl[k].percent_tenths == percent_tenths_of(
            tag_total(l, dl[k].tag),
            g,
        ) by {
            assert(dl[k] == rs[k]);
        }
        lemma_sum_shares_bounds(l, dl, g);
        let last = rs[rs.len() - 1];
        let t = tag_total(l, last.tag);
        lemma_tag_le_grand(l, last.tag);
        lemma_share_bounds(t, g);
        let sh = percent_tenths_of(t, g);
        assert(2 * g * (sum_shares(dl) + sh) == 2 * g * sum_shares(dl) + 2 * g * sh)
            by (nonlinear_arith);
        assert(rs.len() * g == dl.len() * g + g) by (nonlinear_arith)
            requires
                rs.len() == dl.len() + 1,
        ;
    }
}

/// The rounded shares account for the whole, up to the per-entry rounding:
/// scaled by twice the grand total, their sum lies within `rs.len()` times
/// the grand total of `2000 * grand` — that is, the shares sum to one
/// hundred percent give or take half a tenth of a percent per entry. The
/// requirements are exactly what `calculate_tag_stats` ensures of its
/// result whenever any tagged minutes exist.
pub proof fn lemma_shares_sum_within_rounding(l: Seq<SessionView>, rs: Seq<TagStatsView>)
    requires
        grand_total(l) >= 1,
        forall|k1: int, k2: int|
            0 <= k1 < k2 < rs.len() ==> (#[trigger] rs[k1]).tag != (#[trigger] rs[k2]).tag,
        forall|t: Seq<char>|
            #[trigger] tag_appears(l, t) ==> exists|k: int| 0 <= k < rs.len() && rs[k].tag == t,
        forall|k: int|
            0 <= k < rs.len() ==> (#[trigger] rs[k]).total_minutes == tag_total(l, rs[k].tag),
        forall|k: int|
            0 <= k < rs.len() ==> (#[trigger] rs[k]).percent_tenths == percent_tenths_of(
                tag_total(l, rs[k].tag),
                grand_total(l),
            ),
    ensures
        2000 * grand_total(l) - rs.len() * grand_total(l) <= 2 * grand_total(l) * sum_shares(rs),
        2 * grand_total(l) * sum_shares(rs) <= 2000 * grand_total(l) + rs.len() * grand_total(l),
{
    lemma_tag_totals_sum_to_grand(l, rs);
    lemma_sum_shares_bounds(l, rs, grand_total(l));
}

/// Index of this tag among the accumulated tag names.
fn find_tag(names: &Vec<String>, t: &str) -> (r: Option<usize>)
    ensures
        match r {
            Some(k) => k < names@.len() && names@[k as int]@ == t@,
            None => forall|k: int| 0 <= k < names@.len() ==> names@[k]@ != t@,
        },
{
    let mut k: usize = 0;
    while k < names.len()
        invariant
            k <= names@.len(),
            forall|q: int| 0 <= q < k ==> names@[q]@ != t@,
        decreases names@.len() - k,
    {
        if str_eq(names[k].as_str(), t) {
            return Some(k);
        }
        k += 1;
    }
    None
}

/// A copy of a tag name.
fn clone_string(s: &String) -> (r: String)
    ensures
        r@ == s@,
{
    s.clone()
}

} // verus!

