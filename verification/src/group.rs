//! The grouping stage: partition a flat event list into per-employee
//! sequences, and the stable timestamp sort applied to each sequence.
//!
//! Grouping keeps first-seen employee order and each employee's events in
//! input order.  The sort orders by timestamp only; events with equal
//! timestamps keep their relative input order (stable, insertion order) —
//! the tie-break left unspecified by the data source, made explicit here.

use crate::db_parser::TimeRowEvent;
use vstd::multiset::Multiset;
use vstd::prelude::*;
use vstd::seq_lib::group_filter_ensures;
use vstd::seq_lib::group_to_multiset_ensures;

verus! {

pub open spec fn ts_of(e: TimeRowEvent) -> int {
    e.timestamp.total_secs()
}

pub open spec fn sorted_by_ts(s: Seq<TimeRowEvent>) -> bool {
    forall|i: int, j: int|
        0 <= i <= j < s.len() ==> ts_of(#[trigger] s[i]) <= ts_of(#[trigger] s[j])
}

/// Stable insertion of `x` into `s`: `x` lands after every element whose
/// timestamp is less than or equal to its own.
pub open spec fn sorted_insert(s: Seq<TimeRowEvent>, x: TimeRowEvent) -> Seq<TimeRowEvent>
    decreases s.len(),
{
    if s.len() == 0 {
        seq![x]
    } else if ts_of(x) < ts_of(s.last()) {
        sorted_insert(s.drop_last(), x).push(s.last())
    } else {
        s.push(x)
    }
}

/// Stable sort by timestamp: insert the elements one by one, in order.
pub open spec fn sort_by_ts(s: Seq<TimeRowEvent>) -> Seq<TimeRowEvent>
    decreases s.len(),
{
    if s.len() == 0 {
        Seq::empty()
    } else {
        sorted_insert(sort_by_ts(s.drop_last()), s.last())
    }
}

pub proof fn lemma_sorted_insert_multiset(s: Seq<TimeRowEvent>, x: TimeRowEvent)
    ensures
        sorted_insert(s, x).len() == s.len() + 1,
        sorted_insert(s, x).to_multiset() == s.to_multiset().insert(x),
    decreases s.len(),
{
    broadcast use group_to_multiset_ensures;

    if s.len() == 0 {
        assert(seq![x] =~= Seq::<TimeRowEvent>::empty().push(x));
        assert(Seq::<TimeRowEvent>::empty().to_multiset() =~= Multiset::<TimeRowEvent>::empty());
    } else if ts_of(x) < ts_of(s.last()) {
        lemma_sorted_insert_multiset(s.drop_last(), x);
        assert(s.drop_last().push(s.last()) =~= s);
        assert(sorted_insert(s.drop_last(), x).push(s.last()).to_multiset() =~= sorted_insert(
            s.drop_last(),
            x,
        ).to_multiset().insert(s.last()));
        assert(s.drop_last().to_multiset().insert(x).insert(s.last()) =~= s.drop_last()
            .to_multiset().insert(s.last()).insert(x));
    } else {
    }
}

pub proof fn lemma_sorted_insert_sorted(s: Seq<TimeRowEvent>, x: TimeRowEvent)
    requires
        sorted_by_ts(s),
    ensures
        sorted_by_ts(sorted_insert(s, x)),
    decreases s.len(),
{
    broadcast use group_to_multiset_ensures;

    let out = sorted_insert(s, x);
    if s.len() == 0 {
    } else if ts_of(x) < ts_of(s.last()) {
        assert(sorted_by_ts(s.drop_last())) by {
            assert forall|i: int, j: int| 0 <= i <= j < s.drop_last().len() implies ts_of(
                #[trigger] s.drop_last()[i],
            ) <= ts_of(#[trigger] s.drop_last()[j]) by {
                assert(s.drop_last()[i] == s[i]);
                assert(s.drop_last()[j] == s[j]);
            }
        }
        lemma_sorted_insert_sorted(s.drop_last(), x);
        lemma_sorted_insert_multiset(s.drop_last(), x);
        let inner = sorted_insert(s.drop_last(), x);
        assert forall|i: int, j: int| 0 <= i <= j < out.len() implies ts_of(#[trigger] out[i])
            <= ts_of(#[trigger] out[j]) by {
            if j < out.len() - 1 {
                assert(out[i] == inner[i] && out[j] == inner[j]);
            } else if i < out.len() - 1 {
                assert(out[i] == inner[i]);
                assert(out[j] == s.last());
                // every element of `inner` is an element of `s.drop_last()`
                // or `x` itself, and all of those are at most `s.last()`
                assert(inner.to_multiset().count(inner[i]) > 0);
                assert(inner.contains(inner[i]));
                if inner[i] == x {
                } else {
                    assert(s.drop_last().to_multiset().insert(x).count(inner[i]) > 0);
                    assert(s.drop_last().to_multiset().count(inner[i]) > 0);
                    assert(s.drop_last().contains(inner[i]));
                    let k = choose|k: int|
                        0 <= k < s.drop_last().len() && s.drop_last()[k] == inner[i];
                    assert(s[k] == inner[i]);
                    assert(ts_of(s[k]) <= ts_of(s[s.len() - 1]));
                }
            }
        }
    } else {
        assert forall|i: int, j: int| 0 <= i <= j < out.len() implies ts_of(#[trigger] out[i])
            <= ts_of(#[trigger] out[j]) by {
            if j == out.len() - 1 && i < j {
                assert(out[i] == s[i]);
                assert(ts_of(s[i]) <= ts_of(s[s.len() - 1]));
            }
        }
    }
}

pub proof fn lemma_sort_by_ts_sorted(s: Seq<TimeRowEvent>)
    ensures
        sorted_by_ts(sort_by_ts(s)),
        sort_by_ts(s).len() == s.len(),
        sort_by_ts(s).to_multiset() == s.to_multiset(),
    decreases s.len(),
{
    broadcast use group_to_multiset_ensures;

    if s.len() == 0 {
        assert(Seq::<TimeRowEvent>::empty().to_multiset() =~= Multiset::<TimeRowEvent>::empty());
        assert(s.to_multiset() =~= Multiset::<TimeRowEvent>::empty());
    } else {
        lemma_sort_by_ts_sorted(s.drop_last());
        lemma_sorted_insert_sorted(sort_by_ts(s.drop_last()), s.last());
        lemma_sorted_insert_multiset(sort_by_ts(s.drop_last()), s.last());
        assert(s.drop_last().push(s.last()) =~= s);
        assert(s.drop_last().to_multiset().insert(s.last()) =~= s.drop_last().push(
            s.last(),
        ).to_multiset());
    }
}

/// Sorting permutes: every element of the sorted sequence occurs in the
/// input.
pub proof fn lemma_sort_by_ts_contains(s: Seq<TimeRowEvent>, i: int)
    requires
        0 <= i < sort_by_ts(s).len(),
    ensures
        s.contains(sort_by_ts(s)[i]),
{
    broadcast use group_to_multiset_ensures;

    lemma_sort_by_ts_sorted(s);
    assert(sort_by_ts(s).contains(sort_by_ts(s)[i]));
    assert(sort_by_ts(s).to_multiset().count(sort_by_ts(s)[i]) > 0);
}

/// The events sharing one timestamp value.
pub open spec fn same_ts(t: int) -> spec_fn(TimeRowEvent) -> bool {
    |e: TimeRowEvent| ts_of(e) == t
}

proof fn lemma_sorted_insert_filter(q: Seq<TimeRowEvent>, x: TimeRowEvent, t: int)
    ensures
        sorted_insert(q, x).filter(same_ts(t)) == if ts_of(x) == t {
            q.filter(same_ts(t)).push(x)
        } else {
            q.filter(same_ts(t))
        },
    decreases q.len(),
{
    reveal(Seq::filter);
    let p = same_ts(t);
    if q.len() == 0 {
        assert(sorted_insert(q, x) == seq![x]);
        assert(seq![x].drop_last() =~= q);
        assert(seq![x].last() == x);
        assert(seq![x].filter(p) == if p(x) {
            q.filter(p).push(x)
        } else {
            q.filter(p)
        });
    } else if ts_of(x) < ts_of(q.last()) {
        let out = sorted_insert(q.drop_last(), x).push(q.last());
        assert(sorted_insert(q, x) == out);
        assert(out.drop_last() =~= sorted_insert(q.drop_last(), x));
        assert(out.last() == q.last());
        lemma_sorted_insert_filter(q.drop_last(), x, t);
        if ts_of(x) == t {
            // x lies strictly before q's last element, which therefore is
            // not in x's timestamp class
            assert(!p(q.last()));
            assert(out.filter(p) == sorted_insert(q.drop_last(), x).filter(p));
            assert(q.filter(p) == q.drop_last().filter(p));
        } else {
            if p(q.last()) {
                assert(out.filter(p) == sorted_insert(q.drop_last(), x).filter(p).push(q.last()));
                assert(q.filter(p) == q.drop_last().filter(p).push(q.last()));
            } else {
                assert(out.filter(p) == sorted_insert(q.drop_last(), x).filter(p));
                assert(q.filter(p) == q.drop_last().filter(p));
            }
        }
    } else {
        assert(sorted_insert(q, x) == q.push(x));
        assert(q.push(x).drop_last() =~= q);
        assert(q.push(x).last() == x);
        assert(q.push(x).filter(p) == if p(x) {
            q.filter(p).push(x)
        } else {
            q.filter(p)
        });
    }
}

/// The sort's tie-break, as a theorem: the events sharing any one timestamp
/// appear in the sorted sequence exactly as they stood in the input —
/// stable, insertion order.
pub proof fn lemma_sort_by_ts_stable(s: Seq<TimeRowEvent>, t: int)
    ensures
        sort_by_ts(s).filter(same_ts(t)) == s.filter(same_ts(t)),
    decreases s.len(),
{
    reveal(Seq::filter);
    if s.len() > 0 {
        lemma_sort_by_ts_stable(s.drop_last(), t);
        lemma_sorted_insert_filter(sort_by_ts(s.drop_last()), s.last(), t);
    }
}

proof fn lemma_sort_singleton(s: Seq<TimeRowEvent>)
    requires
        s.len() == 1,
    ensures
        sort_by_ts(s) == seq![s[0]],
{
    assert(s.drop_last() =~= Seq::<TimeRowEvent>::empty());
    assert(sort_by_ts(s.drop_last()) == Seq::<TimeRowEvent>::empty());
    assert(sort_by_ts(s) == sorted_insert(Seq::<TimeRowEvent>::empty(), s[0]));
    assert(sorted_insert(Seq::<TimeRowEvent>::empty(), s[0]) == seq![s[0]]);
}

/// The characterization the executable insertion uses: when position `k`
/// splits the sorted prefix into elements at most `x` and elements strictly
/// greater, inserting there is exactly [`sorted_insert`].
proof fn lemma_sorted_insert_at(s: Seq<TimeRowEvent>, x: TimeRowEvent, k: int)
    requires
        0 <= k <= s.len(),
        forall|idx: int| k <= idx < s.len() ==> ts_of(x) < ts_of(#[trigger] s[idx]),
        k == 0 || ts_of(s[k - 1]) <= ts_of(x),
    ensures
        sorted_insert(s, x) == s.take(k).push(x) + s.skip(k),
    decreases s.len(),
{
    if s.len() == 0 {
        assert(sorted_insert(s, x) =~= s.take(k).push(x) + s.skip(k));
    } else if k == s.len() {
        assert(!(ts_of(x) < ts_of(s.last())));
        assert(s.push(x) =~= s.take(k).push(x) + s.skip(k));
    } else {
        assert(ts_of(x) < ts_of(s[s.len() - 1]));
        if k > 0 {
            assert(s.drop_last()[k - 1] == s[k - 1]);
        }
        assert forall|idx: int| k <= idx < s.drop_last().len() implies ts_of(x) < ts_of(
            #[trigger] s.drop_last()[idx],
        ) by {
            assert(s.drop_last()[idx] == s[idx]);
        }
        lemma_sorted_insert_at(s.drop_last(), x, k);
        assert(sorted_insert(s.drop_last(), x).push(s.last()) =~= s.take(k).push(x) + s.skip(k))
            by {
            assert(s.drop_last().take(k) =~= s.take(k));
            assert(s.drop_last().skip(k).push(s.last()) =~= s.skip(k));
        }
    }
}

/// In-place stable insertion sort by timestamp.
pub fn sort_events(v: &mut Vec<TimeRowEvent>)
    ensures
        final(v)@ == sort_by_ts(old(v)@),
{
    let n = v.len();
    if n <= 1 {
        proof {
            if n == 1 {
                lemma_sort_singleton(old(v)@);
                assert(v@ =~= seq![old(v)@[0]]);
            }
        }
        return ;
    }
    let mut i: usize = 1;
    proof {
        lemma_sort_singleton(old(v)@.take(1));
        assert(old(v)@.take(1)[0] == old(v)@[0]);
        assert(v@ =~= sort_by_ts(old(v)@.take(1)) + old(v)@.skip(1));
    }
    while i < n
        invariant
            1 <= i <= n,
            n == v@.len(),
            n == old(v)@.len(),
            v@ == sort_by_ts(old(v)@.take(i as int)) + old(v)@.skip(i as int),
        decreases n - i,
    {
        let ghost pre = sort_by_ts(old(v)@.take(i as int));
        proof {
            lemma_sort_by_ts_sorted(old(v)@.take(i as int));
            assert(pre.len() == i);
            assert(v@[i as int] == old(v)@.skip(i as int)[0]);
            assert(old(v)@.skip(i as int)[0] == old(v)@[i as int]);
        }
        let e = v.remove(i);
        assert(e == old(v)@[i as int]);
        let e_total = e.timestamp.total();
        let mut k: usize = i;
        while k > 0 && v[k - 1].timestamp.total() > e_total
            invariant
                0 <= k <= i,
                i < n,
                n == v@.len() + 1,
                v@ == pre + old(v)@.skip(i as int + 1),
                pre.len() == i,
                e_total == ts_of(e),
                forall|idx: int| k <= idx < i ==> ts_of(e) < ts_of(#[trigger] pre[idx]),
            decreases k,
        {
            proof {
                assert(v@[k - 1] == pre[k - 1]);
            }
            k = k - 1;
        }
        proof {
            if k > 0 {
                assert(v@[k - 1] == pre[k - 1]);
            }
            lemma_sorted_insert_at(pre, e, k as int);
        }
        v.insert(k, e);
        proof {
            assert(v@ =~= pre.take(k as int).push(e) + pre.skip(k as int) + old(v)@.skip(
                i as int + 1,
            ));
            assert(sorted_insert(pre, e) =~= pre.take(k as int).push(e) + pre.skip(k as int));
            assert(old(v)@.take(i as int + 1).drop_last() =~= old(v)@.take(i as int));
            assert(old(v)@.take(i as int + 1).last() == old(v)@[i as int]);
            assert(sort_by_ts(old(v)@.take(i as int + 1)) == sorted_insert(pre, e));
            assert(v@ =~= sort_by_ts(old(v)@.take(i as int + 1)) + old(v)@.skip(i as int + 1));
        }
        i = i + 1;
    }
    proof {
        assert(old(v)@.take(n as int) =~= old(v)@);
        assert(old(v)@.skip(n as int) =~= Seq::<TimeRowEvent>::empty());
        assert(v@ =~= sort_by_ts(old(v)@));
    }
}

// ---------------------------------------------------------------------------
// Grouping.
// ---------------------------------------------------------------------------

/// The predicate selecting one employee's events.
pub open spec fn by_employee(emp: Seq<char>) -> spec_fn(TimeRowEvent) -> bool {
    |e: TimeRowEvent| e.employee@ == emp
}

/// One employee's ordered timeline: that employee's events, in input order,
/// sorted stably by timestamp.
pub open spec fn timeline_of(evs: Seq<TimeRowEvent>, emp: Seq<char>) -> Seq<TimeRowEvent> {
    sort_by_ts(evs.filter(by_employee(emp)))
}

/// Index of the group holding an employee's events, if one exists yet.
fn find_group(r: &Vec<(String, Vec<TimeRowEvent>)>, emp: &String) -> (idx: Option<usize>)
    ensures
        match idx {
            Some(g) => g < r@.len() && r@[g as int].0@ == emp@,
            None => forall|gg: int| 0 <= gg < r@.len() ==> (#[trigger] r@[gg]).0@ != emp@,
        },
{
    let m = r.len();
    let mut g: usize = 0;
    while g < m
        invariant
            0 <= g <= m,
            m == r@.len(),
            forall|gg: int| 0 <= gg < g ==> (#[trigger] r@[gg]).0@ != emp@,
        decreases m - g,
    {
        if r[g].0 == *emp {
            return Some(g);
        }
        g = g + 1;
    }
    None
}

/// Splits the event list into per-employee groups, first-seen employee
/// order, each group holding exactly that employee's events in input order.
/// An employee without a group has no events in the list at all.
pub fn group_by_employee(events: &Vec<TimeRowEvent>) -> (r: Vec<(String, Vec<TimeRowEvent>)>)
    ensures
        forall|g1: int, g2: int|
            0 <= g1 < g2 < r@.len() ==> (#[trigger] r@[g1]).0@ != (#[trigger] r@[g2]).0@,
        forall|g: int|
            0 <= g < r@.len() ==> (#[trigger] r@[g]).1@ == events@.filter(
                by_employee(r@[g].0@),
            ),
        forall|emp: Seq<char>|
            (forall|g: int| 0 <= g < r@.len() ==> (#[trigger] r@[g]).0@ != emp)
                ==> #[trigger] events@.filter(by_employee(emp)) == Seq::<TimeRowEvent>::empty(),
{
    let n = events.len();
    let mut r: Vec<(String, Vec<TimeRowEvent>)> = Vec::new();
    let mut i: usize = 0;
    proof {
        assert(events@.take(0) =~= Seq::<TimeRowEvent>::empty());
        assert forall|emp: Seq<char>| #[trigger] events@.take(0).filter(by_employee(emp))
            == Seq::<TimeRowEvent>::empty() by {
            lemma_no_match_filter_empty(events@.take(0), emp);
        }
    }
    while i < n
        invariant
            0 <= i <= n,
            n == events@.len(),
            forall|g1: int, g2: int|
                0 <= g1 < g2 < r@.len() ==> (#[trigger] r@[g1]).0@ != (#[trigger] r@[g2]).0@,
            forall|g: int|
                0 <= g < r@.len() ==> (#[trigger] r@[g]).1@ == events@.take(i as int).filter(
                    by_employee(r@[g].0@),
                ),
            forall|emp: Seq<char>|
                (forall|g: int| 0 <= g < r@.len() ==> (#[trigger] r@[g]).0@ != emp)
                    ==> #[trigger] events@.take(i as int).filter(by_employee(emp))
                    == Seq::<TimeRowEvent>::empty(),
        decreases n - i,
    {
        let e = &events[i];
        let ghost r0 = r@;
        proof {
            assert(events@.take(i as int + 1).drop_last() =~= events@.take(i as int));
            assert(events@.take(i as int + 1).last() == events@[i as int]);
        }
        match find_group(&r, &e.employee) {
            Some(g) => {
                let (key, mut grp) = r.remove(g);
                grp.push(e.duplicate());
                r.insert(g, (key, grp));
                proof {
                    let gi = g as int;
                    assert(r@ =~= r0.update(gi, r@[gi]));
                    assert(r@[gi].0 == r0[gi].0);
                    assert(r@[gi].1@ == r0[gi].1@.push(events@[i as int]));
                    assert forall|gg: int|
                        0 <= gg < r@.len() implies (#[trigger] r@[gg]).1@ == events@.take(
                        i as int + 1,
                    ).filter(by_employee(r@[gg].0@)) by {
                        lemma_filter_take_succ(events@, i as int, r@[gg].0@);
                        if gg != gi {
                            assert(r@[gg] == r0[gg]);
                            assert(r0[gg].0@ != r0[gi].0@);
                        }
                    }
                    assert forall|g1: int, g2: int|
                        0 <= g1 < g2 < r@.len() implies (#[trigger] r@[g1]).0@ != (
                        #[trigger] r@[g2]).0@ by {
                        assert(r@[g1].0 == r0[g1].0 && r@[g2].0 == r0[g2].0);
                    }
                    assert forall|emp: Seq<char>|
                        (forall|g2: int| 0 <= g2 < r@.len() ==> (#[trigger] r@[g2]).0@ != emp)
                            implies #[trigger] events@.take(i as int + 1).filter(by_employee(emp))
                            == Seq::<TimeRowEvent>::empty() by {
                        assert(r@[gi].0@ != emp);
                        assert forall|g2: int| 0 <= g2 < r0.len() implies (#[trigger] r0[g2]).0@
                            != emp by {
                            assert(r@[g2].0 == r0[g2].0);
                        }
                        assert(events@.take(i as int).filter(by_employee(emp))
                            == Seq::<TimeRowEvent>::empty());
                        lemma_filter_take_succ(events@, i as int, emp);
                        assert(events@[i as int].employee@ == r@[gi].0@);
                    }
                }
            },
            None => {
                let mut nv: Vec<TimeRowEvent> = Vec::new();
                nv.push(e.duplicate());
                r.push((e.employee.clone(), nv));
                proof {
                    let gi = r@.len() - 1;
                    assert(r@ =~= r0.push(r@[gi]));
                    assert(r@[gi].0@ == e.employee@);
                    assert(r@[gi].1@ =~= seq![events@[i as int]]);
                    // no group held this employee, so the processed prefix
                    // filters to nothing for the new key
                    assert(events@.take(i as int).filter(by_employee(e.employee@))
                        == Seq::<TimeRowEvent>::empty());
                    assert forall|gg: int|
                        0 <= gg < r@.len() implies (#[trigger] r@[gg]).1@ == events@.take(
                        i as int + 1,
                    ).filter(by_employee(r@[gg].0@)) by {
                        lemma_filter_take_succ(events@, i as int, r@[gg].0@);
                        if gg == gi {
                            assert(events@.take(i as int).filter(by_employee(e.employee@)).push(
                                events@[i as int],
                            ) =~= seq![events@[i as int]]);
                        } else {
                            assert(r@[gg] == r0[gg]);
                            assert(r0[gg].0@ != e.employee@);
                        }
                    }
                    assert forall|g1: int, g2: int|
                        0 <= g1 < g2 < r@.len() implies (#[trigger] r@[g1]).0@ != (
                        #[trigger] r@[g2]).0@ by {
                        if g2 < gi {
                            assert(r@[g1] == r0[g1] && r@[g2] == r0[g2]);
                        } else {
                            assert(r@[g1] == r0[g1]);
                            assert(r0[g1].0@ != e.employee@);
                        }
                    }
                    assert forall|emp: Seq<char>|
                        (forall|g2: int| 0 <= g2 < r@.len() ==> (#[trigger] r@[g2]).0@ != emp)
                            implies #[trigger] events@.take(i as int + 1).filter(by_employee(emp))
                            == Seq::<TimeRowEvent>::empty() by {
                        assert(r@[gi].0@ != emp);
                        assert forall|g2: int| 0 <= g2 < r0.len() implies (#[trigger] r0[g2]).0@
                            != emp by {
                            assert(r@[g2] == r0[g2]);
                        }
                        assert(events@.take(i as int).filter(by_employee(emp))
                            == Seq::<TimeRowEvent>::empty());
                        lemma_filter_take_succ(events@, i as int, emp);
                        assert(events@[i as int].employee@ != emp);
                    }
                }
            },
        }
        i = i + 1;
    }
    proof {
        assert(events@.take(n as int) =~= events@);
    }
    r
}

/// Filtering one more event appends it exactly when it matches.
proof fn lemma_filter_take_succ(evs: Seq<TimeRowEvent>, i: int, emp: Seq<char>)
    requires
        0 <= i < evs.len(),
    ensures
        evs.take(i + 1).filter(by_employee(emp)) == if evs[i].employee@ == emp {
            evs.take(i).filter(by_employee(emp)).push(evs[i])
        } else {
            evs.take(i).filter(by_employee(emp))
        },
{
    let p = by_employee(emp);
    let pre = evs.take(i);
    let one = seq![evs[i]];
    assert(evs.take(i + 1) =~= pre + one);
    Seq::filter_distributes_over_add(pre, one, p);
    reveal(Seq::filter);
    assert(one.drop_last() =~= Seq::<TimeRowEvent>::empty());
    assert(one.last() == evs[i]);
    assert(Seq::<TimeRowEvent>::empty().filter(p) == Seq::<TimeRowEvent>::empty());
    if p(evs[i]) {
        assert(one.filter(p) == Seq::<TimeRowEvent>::empty().push(evs[i]));
        assert(pre.filter(p) + one.filter(p) =~= pre.filter(p).push(evs[i]));
    } else {
        assert(one.filter(p) == Seq::<TimeRowEvent>::empty());
        assert(pre.filter(p) + one.filter(p) =~= pre.filter(p));
    }
}

/// A sequence with no matching element filters to the empty sequence.
proof fn lemma_no_match_filter_empty(evs: Seq<TimeRowEvent>, emp: Seq<char>)
    requires
        forall|j: int| 0 <= j < evs.len() ==> (#[trigger] evs[j]).employee@ != emp,
    ensures
        evs.filter(by_employee(emp)) == Seq::<TimeRowEvent>::empty(),
    decreases evs.len(),
{
    reveal(Seq::filter);
    if evs.len() > 0 {
        assert forall|j: int| 0 <= j < evs.drop_last().len() implies (
        #[trigger] evs.drop_last()[j]).employee@ != emp by {
            assert(evs.drop_last()[j] == evs[j]);
        }
        lemma_no_match_filter_empty(evs.drop_last(), emp);
        assert(evs.last().employee@ != emp);
    }
}

/// Every element of a filtered sequence occurs in the source sequence.
pub proof fn lemma_filter_element_of(
    evs: Seq<TimeRowEvent>,
    pred: spec_fn(TimeRowEvent) -> bool,
    i: int,
)
    requires
        0 <= i < evs.filter(pred).len(),
    ensures
        evs.contains(evs.filter(pred)[i]),
    decreases evs.len(),
{
    reveal(Seq::filter);
    let out = evs.filter(pred);
    if evs.len() > 0 {
        let inner = evs.drop_last().filter(pred);
        if pred(evs.last()) && i == out.len() - 1 {
            assert(out[i] == evs[evs.len() - 1]);
        } else {
            assert(out[i] == inner[i]);
            lemma_filter_element_of(evs.drop_last(), pred, i);
            let j = choose|j: int|
                0 <= j < evs.drop_last().len() && evs.drop_last()[j] == inner[i];
            assert(evs[j] == out[i]);
        }
    }
}

} // verus!
