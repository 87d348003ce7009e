//! The day/break state machine: the reducer that walks one employee's
//! chronologically ordered events and emits accumulated minutes per
//! (day, action) bucket.
//!
//! The reserved action label `"Begin/Pause"` toggles between "on duty" and
//! "on break".  A closing toggle accumulates the break's whole minutes; a
//! non-toggle event closes the open work segment and credits its minutes,
//! minus the accumulated break minutes, to the (day, action) bucket.  A
//! calendar-day change clears the open action and the open break before the
//! event is interpreted, so every day starts fresh.
//!
//! Data-quality anomalies are absorbed, not corrected: a day whose first
//! event is not a toggle credits nothing for the gap (its bucket is merely
//! created), an open tail at the end of a day is never counted, and break
//! minutes left over when a day ends are only discarded by the next day's
//! opening toggle — a day opened by a plain action inherits them, which can
//! drive its first closed bucket negative.  See
//! [`lemma_unopened_day_credits_nothing`] and [`lemma_day_boundary_reset`]
//! for the parts of this policy that hold unconditionally.

use crate::db_parser::TimeRowEvent;
use crate::group::{sorted_by_ts, ts_of};
use crate::sheet::{bump1, bump3, day_get, inner_get, leaf_get, WorkSheet};
use crate::time::{
    lemma_minutes_bound, lemma_minutes_concat, lemma_minutes_le, minutes_between, minutes_from,
    Timestamp, MAX_TOTAL_SECS, MINUTE_BOUND,
};
use vstd::prelude::*;

verus! {

/// The reserved action label that toggles between on-duty and on-break.
pub open spec fn toggle_label() -> Seq<char> {
    "Begin/Pause"@
}

/// Executable copy of the toggle label.
pub fn toggle_string() -> (r: String)
    ensures
        r@ == toggle_label(),
{
    "Begin/Pause".to_owned()
}

/// Where the reducer stands inside one employee's day.
#[derive(Clone, Copy, PartialEq, Eq, Structural, Debug)]
pub enum Phase {
    /// No action has opened the current day yet.
    DayNotStarted,
    /// A work segment is open.
    OnDuty,
    /// A break is open since the recorded instant.
    OnBreak(Timestamp),
}

/// The reducer's transient per-employee state.
#[derive(Clone, Copy, PartialEq, Eq, Structural, Debug)]
pub struct ReducerState {
    /// End time of the most recently closed action, when the day has been
    /// seen at all.
    pub last: Option<Timestamp>,
    pub phase: Phase,
    /// Break minutes accumulated since the last closed work segment.
    pub break_minutes: i64,
}

/// The reducer state as specifications see it: break minutes as a
/// mathematical integer.
pub ghost struct StateV {
    pub last: Option<Timestamp>,
    pub phase: Phase,
    pub break_minutes: int,
}

impl View for ReducerState {
    type V = StateV;

    open spec fn view(&self) -> StateV {
        StateV { last: self.last, phase: self.phase, break_minutes: self.break_minutes as int }
    }
}

pub open spec fn init_state() -> StateV {
    StateV { last: None, phase: Phase::DayNotStarted, break_minutes: 0 }
}

impl ReducerState {
    /// The state at the start of an employee's timeline.
    pub fn init() -> (r: ReducerState)
        ensures
            r@ == init_state(),
    {
        ReducerState { last: None, phase: Phase::DayNotStarted, break_minutes: 0 }
    }
}

pub open spec fn state_wf(s: StateV) -> bool {
    0 <= s.break_minutes && (match s.last {
        Some(l) => l.valid(),
        None => s.phase is DayNotStarted && s.break_minutes == 0,
    }) && (match s.phase {
        Phase::OnBreak(b) => b.valid() && s.last is Some,
        _ => true,
    })
}

/// Every instant recorded in the state lies at or before second `t`.
pub open spec fn state_le(s: StateV, t: int) -> bool {
    (match s.last {
        Some(l) => l.total_secs() <= t,
        None => true,
    }) && (match s.phase {
        Phase::OnBreak(b) => b.total_secs() <= t,
        _ => true,
    })
}

/// One bucket contribution: `delta` minutes for `action` on day `day`.
pub ghost struct Update {
    pub day: int,
    pub action: Seq<char>,
    pub delta: int,
}

/// Executable bucket contribution.
pub struct BucketDelta {
    pub day: u32,
    pub action: String,
    pub delta: i64,
}

impl View for BucketDelta {
    type V = Update;

    open spec fn view(&self) -> Update {
        Update { day: self.day as int, action: self.action@, delta: self.delta as int }
    }
}

/// The transition of the state machine on one event, together with the
/// bucket update it emits, if any.
///
/// A first-ever event only records itself as the open action.  Otherwise the
/// day-boundary rule applies first: an event on a different calendar day
/// than the last recorded instant clears the open action and the open break.
/// Then a toggle event closes an open break (accumulating its whole
/// minutes), opens a break when on duty, or opens the day; a non-toggle
/// event touches the bucket `(last day, its action)` — crediting elapsed
/// minutes minus accumulated break minutes when a segment was open, and
/// merely creating the bucket (a zero contribution) when the day had not
/// been opened by a toggle.
pub open spec fn spec_step(s: StateV, action: Seq<char>, ts: Timestamp) -> (StateV, Option<
    Update,
>) {
    match s.last {
        None => (
            StateV { last: Some(ts), phase: Phase::OnDuty, break_minutes: s.break_minutes },
            None,
        ),
        Some(l) => {
            let phase0 = if l.day != ts.day {
                Phase::DayNotStarted
            } else {
                s.phase
            };
            if action == toggle_label() {
                match phase0 {
                    Phase::OnBreak(since) => (
                        StateV {
                            last: s.last,
                            phase: Phase::OnDuty,
                            break_minutes: s.break_minutes + minutes_between(
                                since.total_secs(),
                                ts.total_secs(),
                            ),
                        },
                        None,
                    ),
                    Phase::OnDuty => (
                        StateV {
                            last: s.last,
                            phase: Phase::OnBreak(ts),
                            break_minutes: s.break_minutes,
                        },
                        None,
                    ),
                    Phase::DayNotStarted => (
                        StateV { last: Some(ts), phase: Phase::OnDuty, break_minutes: 0 },
                        None,
                    ),
                }
            } else {
                if phase0 is DayNotStarted {
                    (
                        StateV {
                            last: Some(ts),
                            phase: Phase::OnDuty,
                            break_minutes: s.break_minutes,
                        },
                        Some(Update { day: l.day as int, action, delta: 0 }),
                    )
                } else {
                    (
                        StateV { last: Some(ts), phase: Phase::OnDuty, break_minutes: 0 },
                        Some(
                            Update {
                                day: l.day as int,
                                action,
                                delta: minutes_between(l.total_secs(), ts.total_secs())
                                    - s.break_minutes,
                            },
                        ),
                    )
                }
            }
        },
    }
}

pub open spec fn update_matches(bd: Option<BucketDelta>, u: Option<Update>) -> bool {
    match (bd, u) {
        (Some(b), Some(uu)) => b@ == uu,
        (None, None) => true,
        _ => false,
    }
}

/// Executable transition; exact with respect to [`spec_step`].
pub fn step(s: ReducerState, action: &String, ts: Timestamp) -> (r: (
    ReducerState,
    Option<BucketDelta>,
))
    requires
        state_wf(s@),
        ts.valid(),
        state_le(s@, ts.total_secs()),
        s.break_minutes <= MINUTE_BOUND,
    ensures
        r.0@ == spec_step(s@, action@, ts).0,
        update_matches(r.1, spec_step(s@, action@, ts).1),
        state_wf(r.0@),
        state_le(r.0@, ts.total_secs()),
{
    let toggle = toggle_string();
    match s.last {
        None => (
            ReducerState { last: Some(ts), phase: Phase::OnDuty, break_minutes: s.break_minutes },
            None,
        ),
        Some(l) => {
            let phase0 = if l.day != ts.day {
                Phase::DayNotStarted
            } else {
                s.phase
            };
            if *action == toggle {
                match phase0 {
                    Phase::OnBreak(since) => {
                        let d = minutes_from(since.total(), ts.total());
                        (
                            ReducerState {
                                last: s.last,
                                phase: Phase::OnDuty,
                                break_minutes: s.break_minutes + d,
                            },
                            None,
                        )
                    },
                    Phase::OnDuty => (
                        ReducerState {
                            last: s.last,
                            phase: Phase::OnBreak(ts),
                            break_minutes: s.break_minutes,
                        },
                        None,
                    ),
                    Phase::DayNotStarted => (
                        ReducerState { last: Some(ts), phase: Phase::OnDuty, break_minutes: 0 },
                        None,
                    ),
                }
            } else {
                match phase0 {
                    Phase::DayNotStarted => (
                        ReducerState {
                            last: Some(ts),
                            phase: Phase::OnDuty,
                            break_minutes: s.break_minutes,
                        },
                        Some(BucketDelta { day: l.day, action: action.clone(), delta: 0 }),
                    ),
                    _ => {
                        let d = minutes_from(l.total(), ts.total());
                        (
                            ReducerState { last: Some(ts), phase: Phase::OnDuty, break_minutes: 0 },
                            Some(
                                BucketDelta {
                                    day: l.day,
                                    action: action.clone(),
                                    delta: d - s.break_minutes,
                                },
                            ),
                        )
                    },
                }
            }
        },
    }
}

// ---------------------------------------------------------------------------
// Bounds: every quantity the reducer accumulates stays far below i64 range.
// ---------------------------------------------------------------------------

/// The accounting invariant that ties a state to three ghost tallies:
/// `dd` bounds every minute sum ever credited to a bucket, `bb` counts every
/// break minute ever accumulated, and `sb` the break minutes already
/// consumed or discarded; `hi` is the latest processed instant in seconds.
pub open spec fn inv_bounds(s: StateV, dd: int, bb: int, sb: int, hi: int) -> bool {
    0 <= dd && 0 <= sb && sb + s.break_minutes <= bb && bb <= hi / 60 && 0 <= hi && hi
        < MAX_TOTAL_SECS && (match s.last {
        Some(l) => dd <= l.total_secs() / 60,
        None => dd == 0,
    }) && (match s.phase {
        Phase::OnBreak(b) => bb <= b.total_secs() / 60,
        _ => true,
    })
}

/// Bucket values bounded by the tallies: every recorded value lies between
/// `-sb` and `dd`.
pub open spec fn acc_bounded(m: Map<int, Map<Seq<char>, int>>, sb: int, dd: int) -> bool {
    forall|d: int, a: Seq<char>|
        m.dom().contains(d) && #[trigger] m[d].dom().contains(a) ==> -sb <= m[d][a] <= dd
}

/// One step preserves the accounting invariant, with tallies that only grow,
/// and bounds the emitted delta by the tallies' growth.
pub proof fn lemma_step_bounds(
    s: StateV,
    action: Seq<char>,
    ts: Timestamp,
    dd: int,
    bb: int,
    sb: int,
    hi: int,
) -> (g: (int, int, int))
    requires
        state_wf(s),
        ts.valid(),
        inv_bounds(s, dd, bb, sb, hi),
        state_le(s, hi),
        hi <= ts.total_secs(),
    ensures
        inv_bounds(spec_step(s, action, ts).0, g.0, g.1, g.2, ts.total_secs()),
        dd <= g.0,
        sb <= g.2,
        match spec_step(s, action, ts).1 {
            Some(u) => sb - g.2 <= u.delta <= g.0 - dd && 0 <= u.day,
            None => true,
        },
{
    let t = ts.total_secs();
    assert(0 <= t && t < MAX_TOTAL_SECS);
    lemma_minutes_le(hi, t);
    match s.last {
        None => {
            lemma_minutes_le(0, t);
            (dd, bb, sb)
        },
        Some(l) => {
            lemma_minutes_le(l.total_secs(), t);
            let phase0 = if l.day != ts.day {
                Phase::DayNotStarted
            } else {
                s.phase
            };
            if action == toggle_label() {
                match phase0 {
                    Phase::OnBreak(since) => {
                        let diff = minutes_between(since.total_secs(), t);
                        lemma_minutes_concat(since.total_secs(), t - since.total_secs());
                        (dd, bb + diff, sb)
                    },
                    Phase::OnDuty => (dd, bb, sb),
                    Phase::DayNotStarted => (dd, bb, sb + s.break_minutes),
                }
            } else {
                if phase0 is DayNotStarted {
                    (dd, bb, sb)
                } else {
                    let dm = minutes_between(l.total_secs(), t);
                    lemma_minutes_concat(l.total_secs(), t - l.total_secs());
                    (dd + dm, bb, sb + s.break_minutes)
                }
            }
        },
    }
}

// ---------------------------------------------------------------------------
// Running a whole timeline, in specification terms.
// ---------------------------------------------------------------------------

/// Applies one bucket update to an employee's day -> action -> minutes map.
pub open spec fn apply_update(m: Map<int, Map<Seq<char>, int>>, u: Update) -> Map<
    int,
    Map<Seq<char>, int>,
> {
    let dm = if m.dom().contains(u.day) {
        m[u.day]
    } else {
        Map::empty()
    };
    m.insert(u.day, bump1(dm, u.action, u.delta))
}

/// The state and the accumulated day -> action -> minutes map after
/// reducing a whole timeline from the initial state.
pub open spec fn spec_run(tl: Seq<TimeRowEvent>) -> (StateV, Map<int, Map<Seq<char>, int>>)
    decreases tl.len(),
{
    if tl.len() == 0 {
        (init_state(), Map::empty())
    } else {
        let prev = spec_run(tl.drop_last());
        let e = tl.last();
        let stepped = spec_step(prev.0, e.action@, e.timestamp);
        (
            stepped.0,
            match stepped.1 {
                Some(u) => apply_update(prev.1, u),
                None => prev.1,
            },
        )
    }
}

/// The minutes one employee's ordered timeline contributes, per day and
/// action.
pub open spec fn employee_sheet(tl: Seq<TimeRowEvent>) -> Map<int, Map<Seq<char>, int>> {
    spec_run(tl).1
}

// ---------------------------------------------------------------------------
// Folding one employee's timeline into the worksheet.
// ---------------------------------------------------------------------------

/// The worksheet after adding one employee's per-day results: days the
/// employee contributed to gain (or extend to) an entry for that employee;
/// all other days are untouched.
pub open spec fn merge_employee(
    w: Map<int, Map<Seq<char>, Map<Seq<char>, int>>>,
    emp: Seq<char>,
    es: Map<int, Map<Seq<char>, int>>,
) -> Map<int, Map<Seq<char>, Map<Seq<char>, int>>> {
    Map::new(
        |d: int| w.dom().contains(d) || es.dom().contains(d),
        |d: int|
            if es.dom().contains(d) {
                day_get(w, d).insert(emp, es[d])
            } else {
                w[d]
            },
    )
}

/// A bucket update of the merged sheet under the employee's keys is the
/// merge of the update applied to the employee's own accumulator — the
/// update never touches another employee's entries.
proof fn lemma_merge_bump(
    w: Map<int, Map<Seq<char>, Map<Seq<char>, int>>>,
    emp: Seq<char>,
    acc: Map<int, Map<Seq<char>, int>>,
    u: Update,
)
    requires
        forall|d: int| #[trigger] w.dom().contains(d) ==> !w[d].dom().contains(emp),
    ensures
        bump3(merge_employee(w, emp, acc), u.day, emp, u.action, u.delta) == merge_employee(
            w,
            emp,
            apply_update(acc, u),
        ),
{
    let m = merge_employee(w, emp, acc);
    let acc2 = apply_update(acc, u);
    let lhs = bump3(m, u.day, emp, u.action, u.delta);
    let rhs = merge_employee(w, emp, acc2);
    let dm_acc = if acc.dom().contains(u.day) {
        acc[u.day]
    } else {
        Map::empty()
    };
    assert(acc2[u.day] == bump1(dm_acc, u.action, u.delta));
    assert forall|d: int| #[trigger] lhs.dom().contains(d) implies rhs.dom().contains(d)
        && lhs[d] == rhs[d] by {
        if d == u.day {
            if acc.dom().contains(d) {
                assert(day_get(m, d) == day_get(w, d).insert(emp, acc[d]));
                assert(inner_get(day_get(m, d), emp) == acc[d]);
                assert(lhs[d] == day_get(w, d).insert(emp, acc[d]).insert(
                    emp,
                    bump1(acc[d], u.action, u.delta),
                ));
                assert(lhs[d] =~= day_get(w, d).insert(emp, bump1(acc[d], u.action, u.delta)));
                assert(rhs[d] == day_get(w, d).insert(emp, acc2[d]));
            } else if w.dom().contains(d) {
                assert(day_get(m, d) == w[d]);
                assert(!w[d].dom().contains(emp));
                assert(inner_get(day_get(m, d), emp) == Map::<Seq<char>, int>::empty());
                assert(lhs[d] == w[d].insert(
                    emp,
                    bump1(Map::<Seq<char>, int>::empty(), u.action, u.delta),
                ));
                assert(rhs[d] == day_get(w, d).insert(emp, acc2[d]));
                assert(day_get(w, d) == w[d]);
            } else {
                assert(!m.dom().contains(d));
                assert(day_get(m, d) =~= Map::<Seq<char>, Map<Seq<char>, int>>::empty());
                assert(lhs[d] == Map::<Seq<char>, Map<Seq<char>, int>>::empty().insert(
                    emp,
                    bump1(Map::<Seq<char>, int>::empty(), u.action, u.delta),
                ));
                assert(rhs[d] == day_get(w, d).insert(emp, acc2[d]));
                assert(day_get(w, d) =~= Map::<Seq<char>, Map<Seq<char>, int>>::empty());
            }
        } else {
            assert(m.dom().contains(d));
            assert(lhs[d] == m[d]);
            assert(acc2.dom().contains(d) <==> acc.dom().contains(d));
            if acc.dom().contains(d) {
                assert(acc2[d] == acc[d]);
            }
        }
    }
    assert forall|d: int| #[trigger] rhs.dom().contains(d) implies lhs.dom().contains(d) by {}
    assert(lhs =~= rhs);
}

/// The value a bucket update will land on, inside the merged sheet, is the
/// employee's own accumulated value (absent entries count as zero), hence
/// bounded by the tallies.
proof fn lemma_merge_cur(
    w: Map<int, Map<Seq<char>, Map<Seq<char>, int>>>,
    emp: Seq<char>,
    acc: Map<int, Map<Seq<char>, int>>,
    day: int,
    action: Seq<char>,
    sb: int,
    dd: int,
)
    requires
        forall|d: int| #[trigger] w.dom().contains(d) ==> !w[d].dom().contains(emp),
        acc_bounded(acc, sb, dd),
        0 <= sb,
        0 <= dd,
    ensures
        -sb <= leaf_get(inner_get(day_get(merge_employee(w, emp, acc), day), emp), action) <= dd,
{
    let m = merge_employee(w, emp, acc);
    if acc.dom().contains(day) {
        assert(day_get(m, day) == day_get(w, day).insert(emp, acc[day]));
        assert(inner_get(day_get(m, day), emp) == acc[day]);
        if acc[day].dom().contains(action) {
            assert(-sb <= acc[day][action] <= dd);
        }
    } else if w.dom().contains(day) {
        assert(day_get(m, day) == w[day]);
        assert(!w[day].dom().contains(emp));
        assert(inner_get(day_get(m, day), emp) == Map::<Seq<char>, int>::empty());
    } else {
        assert(!m.dom().contains(day));
    }
}

/// Reduces one employee's ordered timeline into the shared worksheet.
///
/// The worksheet afterwards is the old worksheet with this employee's
/// per-day results merged in; no other employee's entries change.
pub fn reduce_timeline(sheet: &mut WorkSheet, employee: &String, timeline: &Vec<TimeRowEvent>)
    requires
        old(sheet).wf(),
        sorted_by_ts(timeline@),
        forall|idx: int|
            0 <= idx < timeline@.len() ==> (#[trigger] timeline@[idx]).timestamp.valid(),
        forall|idx: int|
            0 <= idx < timeline@.len() ==> (#[trigger] timeline@[idx]).employee@ == employee@,
        forall|d: int|
            #[trigger] old(sheet)@.dom().contains(d) ==> !old(sheet)@[d].dom().contains(
                employee@,
            ),
    ensures
        final(sheet).wf(),
        final(sheet)@ == merge_employee(old(sheet)@, employee@, employee_sheet(timeline@)),
{
    let n = timeline.len();
    let mut st = ReducerState::init();
    let mut i: usize = 0;
    let ghost mut dd: int = 0;
    let ghost mut bb: int = 0;
    let ghost mut sb: int = 0;
    let ghost mut hi: int = 0;
    proof {
        assert(timeline@.take(0) =~= Seq::<TimeRowEvent>::empty());
        assert(spec_run(timeline@.take(0)).0 == init_state());
        assert(sheet@ =~= merge_employee(
            old(sheet)@,
            employee@,
            spec_run(timeline@.take(0)).1,
        ));
    }
    while i < n
        invariant
            0 <= i <= n,
            n == timeline@.len(),
            sorted_by_ts(timeline@),
            forall|idx: int|
                0 <= idx < timeline@.len() ==> (#[trigger] timeline@[idx]).timestamp.valid(),
            forall|d: int|
                #[trigger] old(sheet)@.dom().contains(d) ==> !old(sheet)@[d].dom().contains(
                    employee@,
                ),
            st@ == spec_run(timeline@.take(i as int)).0,
            state_wf(st@),
            state_le(st@, hi),
            inv_bounds(st@, dd, bb, sb, hi),
            hi == if i == 0 {
                0
            } else {
                ts_of(timeline@[i as int - 1])
            },
            acc_bounded(spec_run(timeline@.take(i as int)).1, sb, dd),
            sheet@ == merge_employee(old(sheet)@, employee@, spec_run(timeline@.take(i as int)).1),
            sheet.wf(),
        decreases n - i,
    {
        let e = &timeline[i];
        let ghost t = ts_of(timeline@[i as int]);
        proof {
            if i > 0 {
                assert(ts_of(timeline@[i as int - 1]) <= ts_of(timeline@[i as int]));
            }
            assert(hi <= t);
            lemma_minutes_bound(hi);
        }
        let (st2, upd) = step(st, &e.action, e.timestamp);
        let ghost acc0 = spec_run(timeline@.take(i as int)).1;
        let ghost sres = spec_step(st@, e.action@, e.timestamp);
        let ghost dd0 = dd;
        let ghost sb0 = sb;
        proof {
            let g = lemma_step_bounds(st@, e.action@, e.timestamp, dd, bb, sb, hi);
            dd = g.0;
            bb = g.1;
            sb = g.2;
            hi = t;
            assert(timeline@.take(i as int + 1).drop_last() =~= timeline@.take(i as int));
            assert(timeline@.take(i as int + 1).last() == timeline@[i as int]);
            assert(spec_run(timeline@.take(i as int + 1)).0 == sres.0);
            lemma_minutes_bound(t);
            assert(sb <= bb) by {
                assert(0 <= sres.0.break_minutes);
            }
            assert(dd < MINUTE_BOUND) by {
                match sres.0.last {
                    Some(l2) => {
                        assert(l2.total_secs() <= t);
                        assert(0 <= l2.total_secs());
                        lemma_minutes_le(l2.total_secs(), t);
                    },
                    None => {},
                }
            }
            assert(sb < MINUTE_BOUND);
        }
        match upd {
            Some(bd) => {
                proof {
                    assert(sres.1 == Some(bd@));
                    assert(spec_run(timeline@.take(i as int + 1)).1 == apply_update(acc0, bd@));
                    lemma_merge_cur(
                        old(sheet)@,
                        employee@,
                        acc0,
                        bd@.day,
                        bd@.action,
                        sb0,
                        dd0,
                    );
                    assert(sb0 - sb <= bd@.delta <= dd - dd0);
                }
                sheet.add(bd.day, employee, &bd.action, bd.delta);
                proof {
                    lemma_merge_bump(old(sheet)@, employee@, acc0, bd@);
                    let acc2 = apply_update(acc0, bd@);
                    assert(sheet@ == merge_employee(old(sheet)@, employee@, acc2));
                    let dm_acc = if acc0.dom().contains(bd@.day) {
                        acc0[bd@.day]
                    } else {
                        Map::empty()
                    };
                    assert(acc2[bd@.day] == bump1(dm_acc, bd@.action, bd@.delta));
                    assert forall|d: int, a: Seq<char>|
                        acc2.dom().contains(d) && #[trigger] acc2[d].dom().contains(a) implies -sb
                        <= acc2[d][a] <= dd by {
                        if d == bd@.day {
                            if a == bd@.action {
                                if dm_acc.dom().contains(a) {
                                    assert(acc0.dom().contains(d) && acc0[d].dom().contains(a));
                                    assert(-sb0 <= dm_acc[a] <= dd0);
                                }
                                assert(acc2[d][a] == leaf_get(dm_acc, a) + bd@.delta);
                            } else {
                                if dm_acc.dom().contains(a) {
                                    assert(acc0.dom().contains(d) && acc0[d].dom().contains(a));
                                    assert(acc2[d][a] == acc0[d][a]);
                                }
                            }
                        } else {
                            assert(acc2[d] == acc0[d]);
                            assert(acc0.dom().contains(d) && acc0[d].dom().contains(a));
                        }
                    }
                }
            },
            None => {
                proof {
                    assert(sres.1 is None);
                    assert(spec_run(timeline@.take(i as int + 1)).1 == acc0);
                    assert forall|d: int, a: Seq<char>|
                        acc0.dom().contains(d) && #[trigger] acc0[d].dom().contains(a) implies -sb
                        <= acc0[d][a] <= dd by {
                        assert(-sb0 <= acc0[d][a] <= dd0);
                    }
                }
            },
        }
        st = st2;
        i = i + 1;
    }
    proof {
        assert(timeline@.take(n as int) =~= timeline@);
    }
}

// ---------------------------------------------------------------------------
// Laws of the state machine.
// ---------------------------------------------------------------------------

/// Day-boundary reset: an event on a calendar day different from the last
/// recorded instant is processed exactly as if the day had not started —
/// no action or break state carries over into the new day.
pub proof fn lemma_day_boundary_reset(s: StateV, action: Seq<char>, ts: Timestamp, l: Timestamp)
    requires
        s.last == Some(l),
        l.day != ts.day,
    ensures
        spec_step(s, action, ts) == spec_step(
            StateV { last: s.last, phase: Phase::DayNotStarted, break_minutes: s.break_minutes },
            action,
            ts,
        ),
{
}

/// Unopened day: when the current day was not opened by a toggle (or the
/// event starts a new day), a non-toggle event credits zero minutes — the
/// bucket it touches is created but receives nothing.
pub proof fn lemma_unopened_day_credits_nothing(s: StateV, action: Seq<char>, ts: Timestamp)
    requires
        action != toggle_label(),
        match s.last {
            None => true,
            Some(l) => l.day != ts.day || s.phase is DayNotStarted,
        },
    ensures
        match spec_step(s, action, ts).1 {
            Some(u) => u.delta == 0,
            None => s.last is None,
        },
{
}

} // verus!
