//! Worksheet derivation for punch-clock events.
//!
//! The library turns a flat list of time-clock punches (employee, action
//! label, timestamp) into a per-day, per-employee, per-action summary of
//! worked minutes.  Events are grouped by employee, each employee's events
//! are sorted stably by timestamp, and a small state machine walks the
//! ordered timeline: the reserved action label `"Begin/Pause"` toggles
//! between "on duty" and "on break", break intervals are subtracted from
//! the next closed work action, and all state resets at calendar-day
//! boundaries.

use vstd::prelude::*;

pub mod db_parser;
pub mod group;
pub mod reducer;
pub mod sheet;
pub mod time;

use crate::db_parser::TimeRowEvent;
use crate::group::{
    by_employee, group_by_employee, lemma_filter_element_of, lemma_sort_by_ts_contains,
    lemma_sort_by_ts_sorted, sort_events, timeline_of,
};
use crate::reducer::{employee_sheet, merge_employee, reduce_timeline};
use crate::sheet::WorkSheet;
use vstd::seq_lib::group_filter_ensures;

verus! {

/// What the derivation computes, declaratively: a day appears exactly when
/// some employee's timeline contributes to it, and the entry of day `d` and
/// employee `emp` is what the reducer yields for `emp`'s timeline — that
/// employee's events, sorted stably by timestamp.  No employee's entry
/// depends on any other employee's events, nor on the order in which
/// employees appear in the input.
pub open spec fn spec_derive(evs: Seq<TimeRowEvent>) -> Map<
    int,
    Map<Seq<char>, Map<Seq<char>, int>>,
> {
    Map::new(
        |d: int|
            exists|emp: Seq<char>| #[trigger] employee_sheet(
                timeline_of(evs, emp),
            ).dom().contains(d),
        |d: int|
            Map::new(
                |emp: Seq<char>| employee_sheet(timeline_of(evs, emp)).dom().contains(d),
                |emp: Seq<char>| employee_sheet(timeline_of(evs, emp))[d],
            ),
    )
}

/// The employees named by the suffix of the group list from position `k` on.
spec fn processed_set(gs: Seq<(String, Vec<TimeRowEvent>)>, k: int) -> Set<Seq<char>> {
    Set::new(|emp: Seq<char>| exists|g: int| k <= g < gs.len() && (#[trigger] gs[g]).0@ == emp)
}

/// The worksheet restricted to a set of employees.
spec fn partial_sheet(evs: Seq<TimeRowEvent>, names: Set<Seq<char>>) -> Map<
    int,
    Map<Seq<char>, Map<Seq<char>, int>>,
> {
    Map::new(
        |d: int|
            exists|emp: Seq<char>|
                names.contains(emp) && #[trigger] employee_sheet(
                    timeline_of(evs, emp),
                ).dom().contains(d),
        |d: int|
            Map::new(
                |emp: Seq<char>| names.contains(emp) && employee_sheet(
                    timeline_of(evs, emp),
                ).dom().contains(d),
                |emp: Seq<char>| employee_sheet(timeline_of(evs, emp))[d],
            ),
    )
}

/// Merging one more employee extends the restricted worksheet to that
/// employee.
proof fn lemma_partial_merge(evs: Seq<TimeRowEvent>, names: Set<Seq<char>>, name: Seq<char>)
    requires
        !names.contains(name),
    ensures
        merge_employee(
            partial_sheet(evs, names),
            name,
            employee_sheet(timeline_of(evs, name)),
        ) == partial_sheet(evs, names.insert(name)),
{
    let p = partial_sheet(evs, names);
    let es = employee_sheet(timeline_of(evs, name));
    let lhs = merge_employee(p, name, es);
    let rhs = partial_sheet(evs, names.insert(name));
    assert forall|d: int| #[trigger] rhs.dom().contains(d) implies lhs.dom().contains(d) by {
        let emp = choose|emp: Seq<char>|
            names.insert(name).contains(emp) && #[trigger] employee_sheet(
                timeline_of(evs, emp),
            ).dom().contains(d);
        if emp != name {
            assert(names.contains(emp));
            assert(p.dom().contains(d));
        }
    }
    assert forall|d: int| #[trigger] lhs.dom().contains(d) implies rhs.dom().contains(d)
        && lhs[d] == rhs[d] by {
        if p.dom().contains(d) {
            let emp = choose|emp: Seq<char>|
                names.contains(emp) && #[trigger] employee_sheet(
                    timeline_of(evs, emp),
                ).dom().contains(d);
            assert(names.insert(name).contains(emp));
            assert(rhs.dom().contains(d));
        } else {
            assert(es.dom().contains(d));
            assert(rhs.dom().contains(d));
        }
        if es.dom().contains(d) {
            assert(lhs[d] == crate::sheet::day_get(p, d).insert(name, es[d]));
            assert forall|emp: Seq<char>| #[trigger] lhs[d].dom().contains(emp) <==> rhs[
                d
            ].dom().contains(emp) by {
                if emp == name {
                    assert(lhs[d].dom().contains(emp));
                    assert(names.insert(name).contains(name));
                } else {
                    if p.dom().contains(d) && p[d].dom().contains(emp) {
                        assert(names.contains(emp));
                    }
                    if names.insert(name).contains(emp) && employee_sheet(
                        timeline_of(evs, emp),
                    ).dom().contains(d) {
                        assert(names.contains(emp));
                        assert(p.dom().contains(d));
                        assert(p[d].dom().contains(emp));
                    }
                }
            }
            assert forall|emp: Seq<char>| #[trigger] lhs[d].dom().contains(emp) implies lhs[d][emp]
                == rhs[d][emp] by {
                if emp != name {
                    assert(p.dom().contains(d) && p[d].dom().contains(emp));
                    assert(lhs[d][emp] == p[d][emp]);
                }
            }
            assert(lhs[d] =~= rhs[d]);
        } else {
            assert(p.dom().contains(d));
            assert(lhs[d] == p[d]);
            assert forall|emp: Seq<char>| #[trigger] p[d].dom().contains(emp) <==> rhs[
                d
            ].dom().contains(emp) by {
                if names.insert(name).contains(emp) && employee_sheet(
                    timeline_of(evs, emp),
                ).dom().contains(d) {
                    assert(emp != name);
                    assert(names.contains(emp));
                }
            }
            assert forall|emp: Seq<char>| #[trigger] p[d].dom().contains(emp) implies p[d][emp]
                == rhs[d][emp] by {}
            assert(lhs[d] =~= rhs[d]);
        }
    }
    assert(lhs =~= rhs);
}

/// Derives the worksheet from an arbitrary-order event list.
///
/// Every timestamp must lie in the representable range (days up to the year
/// 9999); events built by this crate's parsing functions always do.
pub fn derive_work_sheet(events: Vec<TimeRowEvent>) -> (r: WorkSheet)
    requires
        forall|i: int| 0 <= i < events@.len() ==> (#[trigger] events@[i]).timestamp.valid(),
    ensures
        r.wf(),
        r@ == spec_derive(events@),
{
    broadcast use group_filter_ensures;

    let ghost evs = events@;
    let mut sheet = WorkSheet::new();
    let mut groups = group_by_employee(&events);
    let ghost gs = groups@;
    proof {
        assert(groups@ =~= gs.take(gs.len() as int));
        assert forall|d: int| !(#[trigger] partial_sheet(
            evs,
            processed_set(gs, gs.len() as int),
        ).dom().contains(d)) by {
            if partial_sheet(evs, processed_set(gs, gs.len() as int)).dom().contains(d) {
                let emp = choose|emp: Seq<char>|
                    processed_set(gs, gs.len() as int).contains(emp) && #[trigger] employee_sheet(
                        timeline_of(evs, emp),
                    ).dom().contains(d);
                let g = choose|g: int|
                    gs.len() <= g < gs.len() && (#[trigger] gs[g]).0@ == emp;
            }
        }
        assert(sheet@ =~= partial_sheet(evs, processed_set(gs, gs.len() as int)));
    }
    while groups.len() > 0
        invariant
            groups@ == gs.take(groups@.len() as int),
            groups@.len() <= gs.len(),
            evs == events@,
            forall|g1: int, g2: int|
                0 <= g1 < g2 < gs.len() ==> (#[trigger] gs[g1]).0@ != (#[trigger] gs[g2]).0@,
            forall|g: int|
                0 <= g < gs.len() ==> (#[trigger] gs[g]).1@ == evs.filter(by_employee(gs[g].0@)),
            forall|emp: Seq<char>|
                (forall|g: int| 0 <= g < gs.len() ==> (#[trigger] gs[g]).0@ != emp)
                    ==> #[trigger] evs.filter(by_employee(emp)) == Seq::<TimeRowEvent>::empty(),
            forall|i: int| 0 <= i < evs.len() ==> (#[trigger] evs[i]).timestamp.valid(),
            sheet@ == partial_sheet(evs, processed_set(gs, groups@.len() as int)),
            sheet.wf(),
        decreases groups.len(),
    {
        let ghost k = groups@.len() as int;
        let (name, mut tl) = groups.pop().unwrap();
        proof {
            assert(gs.take(k).last() == gs[k - 1]);
            assert(groups@ =~= gs.take(k - 1));
            assert(name == gs[k - 1].0 && tl == gs[k - 1].1);
            assert(tl@ == evs.filter(by_employee(name@)));
        }
        sort_events(&mut tl);
        proof {
            lemma_sort_by_ts_sorted(evs.filter(by_employee(name@)));
            assert(tl@ == timeline_of(evs, name@));
            let f = evs.filter(by_employee(name@));
            assert forall|idx: int| 0 <= idx < tl@.len() implies (
            #[trigger] tl@[idx]).timestamp.valid() && tl@[idx].employee@ == name@ by {
                lemma_sort_by_ts_contains(f, idx);
                let j = choose|j: int| 0 <= j < f.len() && f[j] == tl@[idx];
                assert(by_employee(name@)(f[j]));
                lemma_filter_element_of(evs, by_employee(name@), j);
                let jj = choose|jj: int| 0 <= jj < evs.len() && evs[jj] == f[j];
                assert(evs[jj].timestamp.valid());
            }
            assert forall|d: int| #[trigger] sheet@.dom().contains(d) implies !sheet@[
                d
            ].dom().contains(name@) by {
                if sheet@[d].dom().contains(name@) {
                    assert(processed_set(gs, k).contains(name@));
                    let g = choose|g: int| k <= g < gs.len() && (#[trigger] gs[g]).0@ == name@;
                    assert(gs[k - 1].0@ != gs[g].0@);
                }
            }
        }
        reduce_timeline(&mut sheet, &name, &tl);
        proof {
            assert(!processed_set(gs, k).contains(name@)) by {
                if processed_set(gs, k).contains(name@) {
                    let g = choose|g: int| k <= g < gs.len() && (#[trigger] gs[g]).0@ == name@;
                    assert(gs[k - 1].0@ != gs[g].0@);
                }
            }
            lemma_partial_merge(evs, processed_set(gs, k), name@);
            assert(processed_set(gs, k).insert(name@) =~= processed_set(gs, k - 1)) by {
                assert forall|emp: Seq<char>| #[trigger] processed_set(gs, k - 1).contains(emp)
                    implies processed_set(gs, k).insert(name@).contains(emp) by {
                    let g = choose|g: int| k - 1 <= g < gs.len() && (#[trigger] gs[g]).0@ == emp;
                    if g == k - 1 {
                        assert(emp == name@);
                    } else {
                        assert(processed_set(gs, k).contains(emp));
                    }
                }
                assert forall|emp: Seq<char>| #[trigger] processed_set(gs, k).insert(
                    name@,
                ).contains(emp) implies processed_set(gs, k - 1).contains(emp) by {
                    if emp == name@ {
                        assert(gs[k - 1].0@ == emp);
                    } else {
                        let g = choose|g: int| k <= g < gs.len() && (#[trigger] gs[g]).0@ == emp;
                        assert(k - 1 <= g < gs.len());
                    }
                }
            }
            assert(sheet@ == partial_sheet(evs, processed_set(gs, k - 1)));
        }
    }
    proof {
        let all = processed_set(gs, 0);
        assert forall|emp: Seq<char>| !(#[trigger] all.contains(emp)) implies employee_sheet(
            timeline_of(evs, emp),
        ) =~= Map::<int, Map<Seq<char>, int>>::empty() by {
            assert forall|g: int| 0 <= g < gs.len() implies (#[trigger] gs[g]).0@ != emp by {
                if gs[g].0@ == emp {
                    assert(all.contains(emp));
                }
            }
            assert(evs.filter(by_employee(emp)) == Seq::<TimeRowEvent>::empty());
            assert(timeline_of(evs, emp) == Seq::<TimeRowEvent>::empty());
            assert(employee_sheet(Seq::<TimeRowEvent>::empty()) =~= Map::<
                int,
                Map<Seq<char>, int>,
            >::empty());
        }
        let p = partial_sheet(evs, all);
        let sd = spec_derive(evs);
        assert forall|d: int| #[trigger] sd.dom().contains(d) implies p.dom().contains(d) by {
            let emp = choose|emp: Seq<char>| #[trigger] employee_sheet(
                timeline_of(evs, emp),
            ).dom().contains(d);
            assert(all.contains(emp));
        }
        assert forall|d: int| #[trigger] p.dom().contains(d) implies sd.dom().contains(d)
            && p[d] == sd[d] by {
            assert forall|emp: Seq<char>| #[trigger] sd[d].dom().contains(emp) implies p[
                d
            ].dom().contains(emp) by {
                assert(all.contains(emp));
            }
            assert forall|emp: Seq<char>| #[trigger] p[d].dom().contains(emp) implies sd[
                d
            ].dom().contains(emp) by {}
            assert(p[d] =~= sd[d]);
        }
        assert(p =~= sd);
    }
    sheet
}

// ---------------------------------------------------------------------------
// Laws of the derivation.
// ---------------------------------------------------------------------------

/// Idempotence of assembly: deriving a worksheet from the same event list
/// twice yields identical results — the derivation is a pure function of
/// the list, with no hidden state.
pub proof fn lemma_assembly_idempotent(w1: WorkSheet, w2: WorkSheet, evs: Seq<TimeRowEvent>)
    requires
        w1@ == spec_derive(evs),
        w2@ == spec_derive(evs),
    ensures
        w1@ == w2@,
{
}

/// Order-independence of employee processing: two event lists in which
/// every employee has the same events in the same relative order — any
/// permutation at employee granularity — derive the same worksheet.
pub proof fn lemma_employee_order_independence(l1: Seq<TimeRowEvent>, l2: Seq<TimeRowEvent>)
    requires
        forall|emp: Seq<char>| #[trigger] l1.filter(by_employee(emp)) == l2.filter(
            by_employee(emp),
        ),
    ensures
        spec_derive(l1) == spec_derive(l2),
{
    assert forall|emp: Seq<char>| #[trigger] timeline_of(l1, emp) == timeline_of(l2, emp) by {
        assert(l1.filter(by_employee(emp)) == l2.filter(by_employee(emp)));
    }
    let a = spec_derive(l1);
    let b = spec_derive(l2);
    assert forall|d: int| #[trigger] a.dom().contains(d) <==> b.dom().contains(d) by {
        if a.dom().contains(d) {
            let emp = choose|emp: Seq<char>| #[trigger] employee_sheet(
                timeline_of(l1, emp),
            ).dom().contains(d);
            assert(timeline_of(l2, emp) == timeline_of(l1, emp));
            assert(employee_sheet(timeline_of(l2, emp)).dom().contains(d));
        }
        if b.dom().contains(d) {
            let emp = choose|emp: Seq<char>| #[trigger] employee_sheet(
                timeline_of(l2, emp),
            ).dom().contains(d);
            assert(timeline_of(l1, emp) == timeline_of(l2, emp));
            assert(employee_sheet(timeline_of(l1, emp)).dom().contains(d));
        }
    }
    assert forall|d: int| #[trigger] a.dom().contains(d) implies a[d] == b[d] by {
        assert forall|emp: Seq<char>| #[trigger] a[d].dom().contains(emp) <==> b[
            d
        ].dom().contains(emp) by {
            assert(timeline_of(l1, emp) == timeline_of(l2, emp));
        }
        assert forall|emp: Seq<char>| #[trigger] a[d].dom().contains(emp) implies a[d][emp]
            == b[d][emp] by {
            assert(timeline_of(l1, emp) == timeline_of(l2, emp));
        }
        assert(a[d] =~= b[d]);
    }
    assert(a =~= b);
}

} // verus!
