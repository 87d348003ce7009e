//! The worksheet: the nested mapping calendar day -> employee -> action ->
//! accumulated minutes that the derivation produces.
//!
//! Each level is an association vector with pairwise-distinct keys, viewed in
//! specifications as a `Map`.  Entries are created lazily on first
//! contribution: no entry exists for a (day, employee, action) triple that
//! never received time.

use vstd::prelude::*;

verus! {

/// Minutes per action label, for one employee on one day.
pub struct ActionSheet {
    pub rows: Vec<(String, i64)>,
}

/// Per-employee action sheets, for one day.
pub struct DaySheet {
    pub rows: Vec<(String, ActionSheet)>,
}

/// The full worksheet: per-day sheets keyed by day number.
pub struct WorkSheet {
    pub rows: Vec<(u32, DaySheet)>,
}

pub open spec fn amap(rows: Seq<(String, i64)>) -> Map<Seq<char>, int>
    decreases rows.len(),
{
    if rows.len() == 0 {
        Map::empty()
    } else {
        amap(rows.drop_last()).insert(rows.last().0@, rows.last().1 as int)
    }
}

pub open spec fn dmap(rows: Seq<(String, ActionSheet)>) -> Map<Seq<char>, Map<Seq<char>, int>>
    decreases rows.len(),
{
    if rows.len() == 0 {
        Map::empty()
    } else {
        dmap(rows.drop_last()).insert(rows.last().0@, rows.last().1@)
    }
}

pub open spec fn wmap(rows: Seq<(u32, DaySheet)>) -> Map<int, Map<Seq<char>, Map<Seq<char>, int>>>
    decreases rows.len(),
{
    if rows.len() == 0 {
        Map::empty()
    } else {
        wmap(rows.drop_last()).insert(rows.last().0 as int, rows.last().1@)
    }
}

impl View for ActionSheet {
    type V = Map<Seq<char>, int>;

    open spec fn view(&self) -> Map<Seq<char>, int> {
        amap(self.rows@)
    }
}

impl View for DaySheet {
    type V = Map<Seq<char>, Map<Seq<char>, int>>;

    open spec fn view(&self) -> Map<Seq<char>, Map<Seq<char>, int>> {
        dmap(self.rows@)
    }
}

impl View for WorkSheet {
    type V = Map<int, Map<Seq<char>, Map<Seq<char>, int>>>;

    open spec fn view(&self) -> Map<int, Map<Seq<char>, Map<Seq<char>, int>>> {
        wmap(self.rows@)
    }
}

pub open spec fn distinct_keys_a(rows: Seq<(String, i64)>) -> bool {
    forall|i: int, j: int|
        0 <= i < j < rows.len() ==> (#[trigger] rows[i]).0@ != (#[trigger] rows[j]).0@
}

pub open spec fn distinct_keys_d(rows: Seq<(String, ActionSheet)>) -> bool {
    forall|i: int, j: int|
        0 <= i < j < rows.len() ==> (#[trigger] rows[i]).0@ != (#[trigger] rows[j]).0@
}

pub open spec fn distinct_keys_w(rows: Seq<(u32, DaySheet)>) -> bool {
    forall|i: int, j: int|
        0 <= i < j < rows.len() ==> (#[trigger] rows[i]).0 != (#[trigger] rows[j]).0
}

impl ActionSheet {
    pub open spec fn wf(&self) -> bool {
        distinct_keys_a(self.rows@)
    }
}

impl DaySheet {
    pub open spec fn wf(&self) -> bool {
        distinct_keys_d(self.rows@)
            && forall|i: int| 0 <= i < self.rows@.len() ==> (#[trigger] self.rows@[i]).1.wf()
    }
}

impl WorkSheet {
    pub open spec fn wf(&self) -> bool {
        distinct_keys_w(self.rows@)
            && forall|i: int| 0 <= i < self.rows@.len() ==> (#[trigger] self.rows@[i]).1.wf()
    }
}

// ---------------------------------------------------------------------------
// Reading and updating the nested mapping, in specification terms.
// ---------------------------------------------------------------------------

/// Minutes recorded under a key, counting an absent entry as zero.
pub open spec fn leaf_get(m: Map<Seq<char>, int>, k: Seq<char>) -> int {
    if m.dom().contains(k) {
        m[k]
    } else {
        0
    }
}

/// The action map of an employee, counting an absent employee as empty.
pub open spec fn inner_get(m: Map<Seq<char>, Map<Seq<char>, int>>, k: Seq<char>) -> Map<
    Seq<char>,
    int,
> {
    if m.dom().contains(k) {
        m[k]
    } else {
        Map::empty()
    }
}

/// The day map of a day number, counting an absent day as empty.
pub open spec fn day_get(
    w: Map<int, Map<Seq<char>, Map<Seq<char>, int>>>,
    d: int,
) -> Map<Seq<char>, Map<Seq<char>, int>> {
    if w.dom().contains(d) {
        w[d]
    } else {
        Map::empty()
    }
}

/// Adds `delta` minutes under an action label, creating the entry at zero
/// first when it does not exist yet.
pub open spec fn bump1(m: Map<Seq<char>, int>, k: Seq<char>, delta: int) -> Map<Seq<char>, int> {
    m.insert(k, leaf_get(m, k) + delta)
}

pub open spec fn bump2(
    m: Map<Seq<char>, Map<Seq<char>, int>>,
    emp: Seq<char>,
    action: Seq<char>,
    delta: int,
) -> Map<Seq<char>, Map<Seq<char>, int>> {
    m.insert(emp, bump1(inner_get(m, emp), action, delta))
}

/// One bucket update of the whole worksheet.
pub open spec fn bump3(
    w: Map<int, Map<Seq<char>, Map<Seq<char>, int>>>,
    day: int,
    emp: Seq<char>,
    action: Seq<char>,
    delta: int,
) -> Map<int, Map<Seq<char>, Map<Seq<char>, int>>> {
    w.insert(day, bump2(day_get(w, day), emp, action, delta))
}

/// The minutes stored for a triple, when every level exists.
pub open spec fn spec_lookup(
    w: Map<int, Map<Seq<char>, Map<Seq<char>, int>>>,
    d: int,
    e: Seq<char>,
    a: Seq<char>,
) -> Option<int> {
    if w.dom().contains(d) && w[d].dom().contains(e) && w[d][e].dom().contains(a) {
        Some(w[d][e][a])
    } else {
        None
    }
}

// ---------------------------------------------------------------------------
// Association-vector lemmas, one set per level.
// ---------------------------------------------------------------------------

proof fn lemma_amap_dom(rows: Seq<(String, i64)>, k: Seq<char>)
    ensures
        amap(rows).dom().contains(k) <==> exists|i: int|
            0 <= i < rows.len() && (#[trigger] rows[i]).0@ == k,
    decreases rows.len(),
{
    if rows.len() > 0 {
        lemma_amap_dom(rows.drop_last(), k);
        if rows.last().0@ == k {
            assert(rows[rows.len() - 1].0@ == k);
        } else {
            if exists|i: int| 0 <= i < rows.len() && (#[trigger] rows[i]).0@ == k {
                let i = choose|i: int| 0 <= i < rows.len() && (#[trigger] rows[i]).0@ == k;
                assert(rows.drop_last()[i].0@ == k);
            }
            if amap(rows).dom().contains(k) {
                let i = choose|i: int|
                    0 <= i < rows.drop_last().len() && (#[trigger] rows.drop_last()[i]).0@ == k;
                assert(rows[i].0@ == k);
            }
        }
    }
}

proof fn lemma_amap_get(rows: Seq<(String, i64)>, i: int)
    requires
        distinct_keys_a(rows),
        0 <= i < rows.len(),
    ensures
        amap(rows).dom().contains(rows[i].0@),
        amap(rows)[rows[i].0@] == rows[i].1 as int,
    decreases rows.len(),
{
    if i < rows.len() - 1 {
        assert(distinct_keys_a(rows.drop_last())) by {
            assert forall|p: int, q: int|
                0 <= p < q < rows.drop_last().len() implies (#[trigger] rows.drop_last()[p]).0@
                != (#[trigger] rows.drop_last()[q]).0@ by {
                assert(rows.drop_last()[p] == rows[p]);
                assert(rows.drop_last()[q] == rows[q]);
            }
        }
        lemma_amap_get(rows.drop_last(), i);
        assert(rows.drop_last()[i] == rows[i]);
        assert(rows[i].0@ != rows[rows.len() - 1].0@);
    }
}

proof fn lemma_amap_update(rows: Seq<(String, i64)>, i: int, p: (String, i64))
    requires
        distinct_keys_a(rows),
        0 <= i < rows.len(),
        p.0@ == rows[i].0@,
    ensures
        amap(rows.update(i, p)) == amap(rows).insert(p.0@, p.1 as int),
    decreases rows.len(),
{
    let u = rows.update(i, p);
    if i == rows.len() - 1 {
        assert(u.drop_last() =~= rows.drop_last());
        assert(u.last() == p);
        assert(amap(rows).insert(p.0@, p.1 as int) =~= amap(rows.drop_last()).insert(
            p.0@,
            p.1 as int,
        ));
    } else {
        assert(distinct_keys_a(rows.drop_last())) by {
            assert forall|a: int, b: int|
                0 <= a < b < rows.drop_last().len() implies (#[trigger] rows.drop_last()[a]).0@
                != (#[trigger] rows.drop_last()[b]).0@ by {
                assert(rows.drop_last()[a] == rows[a]);
                assert(rows.drop_last()[b] == rows[b]);
            }
        }
        assert(rows.drop_last()[i] == rows[i]);
        lemma_amap_update(rows.drop_last(), i, p);
        assert(u.drop_last() =~= rows.drop_last().update(i, p));
        assert(u.last() == rows.last());
        assert(p.0@ != rows.last().0@) by {
            assert(rows[i].0@ != rows[rows.len() - 1].0@);
        }
        assert(amap(rows.drop_last()).insert(p.0@, p.1 as int).insert(
            rows.last().0@,
            rows.last().1 as int,
        ) =~= amap(rows.drop_last()).insert(rows.last().0@, rows.last().1 as int).insert(
            p.0@,
            p.1 as int,
        ));
    }
}

proof fn lemma_amap_push(rows: Seq<(String, i64)>, p: (String, i64))
    ensures
        amap(rows.push(p)) == amap(rows).insert(p.0@, p.1 as int),
{
    assert(rows.push(p).drop_last() =~= rows);
    assert(rows.push(p).last() == p);
}

proof fn lemma_dmap_dom(rows: Seq<(String, ActionSheet)>, k: Seq<char>)
    ensures
        dmap(rows).dom().contains(k) <==> exists|i: int|
            0 <= i < rows.len() && (#[trigger] rows[i]).0@ == k,
    decreases rows.len(),
{
    if rows.len() > 0 {
        lemma_dmap_dom(rows.drop_last(), k);
        if rows.last().0@ == k {
            assert(rows[rows.len() - 1].0@ == k);
        } else {
            if exists|i: int| 0 <= i < rows.len() && (#[trigger] rows[i]).0@ == k {
                let i = choose|i: int| 0 <= i < rows.len() && (#[trigger] rows[i]).0@ == k;
                assert(rows.drop_last()[i].0@ == k);
            }
            if dmap(rows).dom().contains(k) {
                let i = choose|i: int|
                    0 <= i < rows.drop_last().len() && (#[trigger] rows.drop_last()[i]).0@ == k;
                assert(rows[i].0@ == k);
            }
        }
    }
}

proof fn lemma_dmap_get(rows: Seq<(String, ActionSheet)>, i: int)
    requires
        distinct_keys_d(rows),
        0 <= i < rows.len(),
    ensures
        dmap(rows).dom().contains(rows[i].0@),
        dmap(rows)[rows[i].0@] == rows[i].1@,
    decreases rows.len(),
{
    if i < rows.len() - 1 {
        assert(distinct_keys_d(rows.drop_last())) by {
            assert forall|p: int, q: int|
                0 <= p < q < rows.drop_last().len() implies (#[trigger] rows.drop_last()[p]).0@
                != (#[trigger] rows.drop_last()[q]).0@ by {
                assert(rows.drop_last()[p] == rows[p]);
                assert(rows.drop_last()[q] == rows[q]);
            }
        }
        lemma_dmap_get(rows.drop_last(), i);
        assert(rows.drop_last()[i] == rows[i]);
        assert(rows[i].0@ != rows[rows.len() - 1].0@);
    }
}

proof fn lemma_dmap_update(rows: Seq<(String, ActionSheet)>, i: int, p: (String, ActionSheet))
    requires
        distinct_keys_d(rows),
        0 <= i < rows.len(),
        p.0@ == rows[i].0@,
    ensures
        dmap(rows.update(i, p)) == dmap(rows).insert(p.0@, p.1@),
    decreases rows.len(),
{
    let u = rows.update(i, p);
    if i == rows.len() - 1 {
        assert(u.drop_last() =~= rows.drop_last());
        assert(u.last() == p);
        assert(dmap(rows).insert(p.0@, p.1@) =~= dmap(rows.drop_last()).insert(p.0@, p.1@));
    } else {
        assert(distinct_keys_d(rows.drop_last())) by {
            assert forall|a: int, b: int|
                0 <= a < b < rows.drop_last().len() implies (#[trigger] rows.drop_last()[a]).0@
                != (#[trigger] rows.drop_last()[b]).0@ by {
                assert(rows.drop_last()[a] == rows[a]);
                assert(rows.drop_last()[b] == rows[b]);
            }
        }
        assert(rows.drop_last()[i] == rows[i]);
        lemma_dmap_update(rows.drop_last(), i, p);
        assert(u.drop_last() =~= rows.drop_last().update(i, p));
        assert(u.last() == rows.last());
        assert(p.0@ != rows.last().0@) by {
            assert(rows[i].0@ != rows[rows.len() - 1].0@);
        }
        assert(dmap(rows.drop_last()).insert(p.0@, p.1@).insert(rows.last().0@, rows.last().1@)
            =~= dmap(rows.drop_last()).insert(rows.last().0@, rows.last().1@).insert(p.0@, p.1@));
    }
}

proof fn lemma_dmap_push(rows: Seq<(String, ActionSheet)>, p: (String, ActionSheet))
    ensures
        dmap(rows.push(p)) == dmap(rows).insert(p.0@, p.1@),
{
    assert(rows.push(p).drop_last() =~= rows);
    assert(rows.push(p).last() == p);
}

proof fn lemma_wmap_dom(rows: Seq<(u32, DaySheet)>, k: int)
    ensures
        wmap(rows).dom().contains(k) <==> exists|i: int|
            0 <= i < rows.len() && (#[trigger] rows[i]).0 == k,
    decreases rows.len(),
{
    if rows.len() > 0 {
        lemma_wmap_dom(rows.drop_last(), k);
        if rows.last().0 == k {
            assert(rows[rows.len() - 1].0 == k);
        } else {
            if exists|i: int| 0 <= i < rows.len() && (#[trigger] rows[i]).0 == k {
                let i = choose|i: int| 0 <= i < rows.len() && (#[trigger] rows[i]).0 == k;
                assert(rows.drop_last()[i].0 == k);
            }
            if wmap(rows).dom().contains(k) {
                let i = choose|i: int|
                    0 <= i < rows.drop_last().len() && (#[trigger] rows.drop_last()[i]).0 == k;
                assert(rows[i].0 == k);
            }
        }
    }
}

proof fn lemma_wmap_get(rows: Seq<(u32, DaySheet)>, i: int)
    requires
        distinct_keys_w(rows),
        0 <= i < rows.len(),
    ensures
        wmap(rows).dom().contains(rows[i].0 as int),
        wmap(rows)[rows[i].0 as int] == rows[i].1@,
    decreases rows.len(),
{
    if i < rows.len() - 1 {
        assert(distinct_keys_w(rows.drop_last())) by {
            assert forall|p: int, q: int|
                0 <= p < q < rows.drop_last().len() implies (#[trigger] rows.drop_last()[p]).0
                != (#[trigger] rows.drop_last()[q]).0 by {
                assert(rows.drop_last()[p] == rows[p]);
                assert(rows.drop_last()[q] == rows[q]);
            }
        }
        lemma_wmap_get(rows.drop_last(), i);
        assert(rows.drop_last()[i] == rows[i]);
        assert(rows[i].0 != rows[rows.len() - 1].0);
    }
}

proof fn lemma_wmap_update(rows: Seq<(u32, DaySheet)>, i: int, p: (u32, DaySheet))
    requires
        distinct_keys_w(rows),
        0 <= i < rows.len(),
        p.0 == rows[i].0,
    ensures
        wmap(rows.update(i, p)) == wmap(rows).insert(p.0 as int, p.1@),
    decreases rows.len(),
{
    let u = rows.update(i, p);
    if i == rows.len() - 1 {
        assert(u.drop_last() =~= rows.drop_last());
        assert(u.last() == p);
        assert(wmap(rows).insert(p.0 as int, p.1@) =~= wmap(rows.drop_last()).insert(
            p.0 as int,
            p.1@,
        ));
    } else {
        assert(distinct_keys_w(rows.drop_last())) by {
            assert forall|a: int, b: int|
                0 <= a < b < rows.drop_last().len() implies (#[trigger] rows.drop_last()[a]).0
                != (#[trigger] rows.drop_last()[b]).0 by {
                assert(rows.drop_last()[a] == rows[a]);
                assert(rows.drop_last()[b] == rows[b]);
            }
        }
        assert(rows.drop_last()[i] == rows[i]);
        lemma_wmap_update(rows.drop_last(), i, p);
        assert(u.drop_last() =~= rows.drop_last().update(i, p));
        assert(u.last() == rows.last());
        assert(p.0 != rows.last().0) by {
            assert(rows[i].0 != rows[rows.len() - 1].0);
        }
        assert(wmap(rows.drop_last()).insert(p.0 as int, p.1@).insert(
            rows.last().0 as int,
            rows.last().1@,
        ) =~= wmap(rows.drop_last()).insert(rows.last().0 as int, rows.last().1@).insert(
            p.0 as int,
            p.1@,
        ));
    }
}

proof fn lemma_wmap_push(rows: Seq<(u32, DaySheet)>, p: (u32, DaySheet))
    ensures
        wmap(rows.push(p)) == wmap(rows).insert(p.0 as int, p.1@),
{
    assert(rows.push(p).drop_last() =~= rows);
    assert(rows.push(p).last() == p);
}

// ---------------------------------------------------------------------------
// Executable operations.
// ---------------------------------------------------------------------------

impl ActionSheet {
    pub fn new() -> (r: ActionSheet)
        ensures
            r@ == Map::<Seq<char>, int>::empty(),
            r.wf(),
    {
        ActionSheet { rows: Vec::new() }
    }

    /// The minutes recorded for an action label, if any.
    pub fn get(&self, key: &String) -> (r: Option<i64>)
        requires
            self.wf(),
        ensures
            match r {
                Some(v) => self@.dom().contains(key@) && v as int == self@[key@],
                None => !self@.dom().contains(key@),
            },
    {
        let n = self.rows.len();
        let mut j: usize = 0;
        while j < n
            invariant
                0 <= j <= n,
                n == self.rows@.len(),
                self.wf(),
                forall|jj: int| 0 <= jj < j ==> (#[trigger] self.rows@[jj]).0@ != key@,
            decreases n - j,
        {
            if self.rows[j].0 == *key {
                proof {
                    lemma_amap_get(self.rows@, j as int);
                }
                return Some(self.rows[j].1);
            }
            j = j + 1;
        }
        proof {
            lemma_amap_dom(self.rows@, key@);
        }
        None
    }

    /// Adds `delta` under `key`, creating the entry at zero when absent.
    pub fn add(&mut self, key: &String, delta: i64)
        requires
            old(self).wf(),
            i64::MIN <= leaf_get(old(self)@, key@) + delta <= i64::MAX,
        ensures
            final(self).wf(),
            final(self)@ == bump1(old(self)@, key@, delta as int),
            final(self).rows@.len() <= old(self).rows@.len() + 1,
    {
        let n = self.rows.len();
        let mut j: usize = 0;
        while j < n
            invariant
                0 <= j <= n,
                n == self.rows@.len(),
                self.wf(),
                self == old(self),
                i64::MIN <= leaf_get(old(self)@, key@) + delta <= i64::MAX,
                forall|jj: int| 0 <= jj < j ==> (#[trigger] self.rows@[jj]).0@ != key@,
            decreases n - j,
        {
            if self.rows[j].0 == *key {
                proof {
                    lemma_amap_get(self.rows@, j as int);
                }
                let (k, v) = self.rows.remove(j);
                self.rows.insert(j, (k, v + delta));
                proof {
                    assert(self.rows@ =~= old(self).rows@.update(j as int, self.rows@[j as int]));
                    lemma_amap_update(old(self).rows@, j as int, self.rows@[j as int]);
                    assert forall|a: int, b: int|
                        0 <= a < b < self.rows@.len() implies (#[trigger] self.rows@[a]).0@
                        != (#[trigger] self.rows@[b]).0@ by {
                        assert(old(self).rows@[a].0@ != old(self).rows@[b].0@);
                    }
                }
                return ;
            }
            j = j + 1;
        }
        proof {
            lemma_amap_dom(self.rows@, key@);
            assert(!self@.dom().contains(key@));
        }
        self.rows.push((key.clone(), delta));
        proof {
            lemma_amap_push(old(self).rows@, self.rows@.last());
            assert forall|a: int, b: int|
                0 <= a < b < self.rows@.len() implies (#[trigger] self.rows@[a]).0@
                != (#[trigger] self.rows@[b]).0@ by {
                if b < self.rows@.len() - 1 {
                    assert(old(self).rows@[a].0@ != old(self).rows@[b].0@);
                } else {
                    assert(old(self).rows@[a].0@ != key@);
                }
            }
        }
    }
}

impl DaySheet {
    pub fn new() -> (r: DaySheet)
        ensures
            r@ == Map::<Seq<char>, Map<Seq<char>, int>>::empty(),
            r.wf(),
    {
        DaySheet { rows: Vec::new() }
    }

    /// The action sheet of an employee, if any.
    pub fn get(&self, key: &String) -> (r: Option<&ActionSheet>)
        requires
            self.wf(),
        ensures
            match r {
                Some(a) => self@.dom().contains(key@) && a@ == self@[key@] && a.wf(),
                None => !self@.dom().contains(key@),
            },
    {
        let n = self.rows.len();
        let mut j: usize = 0;
        while j < n
            invariant
                0 <= j <= n,
                n == self.rows@.len(),
                self.wf(),
                forall|jj: int| 0 <= jj < j ==> (#[trigger] self.rows@[jj]).0@ != key@,
            decreases n - j,
        {
            if self.rows[j].0 == *key {
                proof {
                    lemma_dmap_get(self.rows@, j as int);
                }
                return Some(&self.rows[j].1);
            }
            j = j + 1;
        }
        proof {
            lemma_dmap_dom(self.rows@, key@);
        }
        None
    }

    /// Adds `delta` under `(emp, action)`, creating levels lazily.
    pub fn add(&mut self, emp: &String, action: &String, delta: i64)
        requires
            old(self).wf(),
            i64::MIN <= leaf_get(inner_get(old(self)@, emp@), action@) + delta <= i64::MAX,
        ensures
            final(self).wf(),
            final(self)@ == bump2(old(self)@, emp@, action@, delta as int),
    {
        let n = self.rows.len();
        let mut j: usize = 0;
        while j < n
            invariant
                0 <= j <= n,
                n == self.rows@.len(),
                self.wf(),
                self == old(self),
                i64::MIN <= leaf_get(inner_get(old(self)@, emp@), action@) + delta <= i64::MAX,
                forall|jj: int| 0 <= jj < j ==> (#[trigger] self.rows@[jj]).0@ != emp@,
            decreases n - j,
        {
            if self.rows[j].0 == *emp {
                proof {
                    lemma_dmap_get(self.rows@, j as int);
                }
                let (k, mut inner) = self.rows.remove(j);
                inner.add(action, delta);
                self.rows.insert(j, (k, inner));
                proof {
                    assert(self.rows@ =~= old(self).rows@.update(j as int, self.rows@[j as int]));
                    lemma_dmap_update(old(self).rows@, j as int, self.rows@[j as int]);
                    assert forall|a: int, b: int|
                        0 <= a < b < self.rows@.len() implies (#[trigger] self.rows@[a]).0@
                        != (#[trigger] self.rows@[b]).0@ by {
                        assert(old(self).rows@[a].0@ != old(self).rows@[b].0@);
                    }
                    assert forall|i: int| 0 <= i < self.rows@.len() implies (
                    #[trigger] self.rows@[i]).1.wf() by {
                        if i != j {
                            assert(self.rows@[i] == old(self).rows@[i]);
                        }
                    }
                }
                return ;
            }
            j = j + 1;
        }
        proof {
            lemma_dmap_dom(self.rows@, emp@);
            assert(!self@.dom().contains(emp@));
        }
        let mut fresh = ActionSheet::new();
        fresh.add(action, delta);
        self.rows.push((emp.clone(), fresh));
        proof {
            lemma_dmap_push(old(self).rows@, self.rows@.last());
            assert(bump1(Map::<Seq<char>, int>::empty(), action@, delta as int) =~= bump1(
                inner_get(old(self)@, emp@),
                action@,
                delta as int,
            ));
            assert forall|a: int, b: int|
                0 <= a < b < self.rows@.len() implies (#[trigger] self.rows@[a]).0@
                != (#[trigger] self.rows@[b]).0@ by {
                if b < self.rows@.len() - 1 {
                    assert(old(self).rows@[a].0@ != old(self).rows@[b].0@);
                } else {
                    assert(old(self).rows@[a].0@ != emp@);
                }
            }
            assert forall|i: int| 0 <= i < self.rows@.len() implies (
            #[trigger] self.rows@[i]).1.wf() by {
                if i < self.rows@.len() - 1 {
                    assert(self.rows@[i] == old(self).rows@[i]);
                }
            }
        }
    }
}

impl WorkSheet {
    pub fn new() -> (r: WorkSheet)
        ensures
            r@ == Map::<int, Map<Seq<char>, Map<Seq<char>, int>>>::empty(),
            r.wf(),
    {
        WorkSheet { rows: Vec::new() }
    }

    /// The per-day sheet of a day number, if any.
    pub fn get_day(&self, day: u32) -> (r: Option<&DaySheet>)
        requires
            self.wf(),
        ensures
            match r {
                Some(d) => self@.dom().contains(day as int) && d@ == self@[day as int] && d.wf(),
                None => !self@.dom().contains(day as int),
            },
    {
        let n = self.rows.len();
        let mut j: usize = 0;
        while j < n
            invariant
                0 <= j <= n,
                n == self.rows@.len(),
                self.wf(),
                forall|jj: int| 0 <= jj < j ==> (#[trigger] self.rows@[jj]).0 != day,
            decreases n - j,
        {
            if self.rows[j].0 == day {
                proof {
                    lemma_wmap_get(self.rows@, j as int);
                }
                return Some(&self.rows[j].1);
            }
            j = j + 1;
        }
        proof {
            lemma_wmap_dom(self.rows@, day as int);
        }
        None
    }

    /// The day numbers that received at least one bucket, in storage order.
    pub fn days(&self) -> (r: Vec<u32>)
        requires
            self.wf(),
        ensures
            r@.len() == self.rows@.len(),
            forall|i: int| 0 <= i < r@.len() ==> r@[i] == (#[trigger] self.rows@[i]).0,
            forall|d: u32| r@.contains(d) <==> self@.dom().contains(d as int),
    {
        let n = self.rows.len();
        let mut r: Vec<u32> = Vec::new();
        let mut j: usize = 0;
        while j < n
            invariant
                0 <= j <= n,
                n == self.rows@.len(),
                r@.len() == j,
                forall|i: int| 0 <= i < j ==> r@[i] == (#[trigger] self.rows@[i]).0,
            decreases n - j,
        {
            r.push(self.rows[j].0);
            j = j + 1;
        }
        proof {
            assert forall|d: u32| r@.contains(d) <==> self@.dom().contains(d as int) by {
                lemma_wmap_dom(self.rows@, d as int);
                if r@.contains(d) {
                    let i = choose|i: int| 0 <= i < r@.len() && r@[i] == d;
                    assert(self.rows@[i].0 == d);
                }
                if self@.dom().contains(d as int) {
                    let i = choose|i: int|
                        0 <= i < self.rows@.len() && (#[trigger] self.rows@[i]).0 == d as int;
                    assert(r@[i] == d);
                }
            }
        }
        r
    }

    /// The minutes recorded for a (day, employee, action) triple, if the
    /// triple ever received a bucket.
    pub fn get_minutes(&self, day: u32, emp: &String, action: &String) -> (r: Option<i64>)
        requires
            self.wf(),
        ensures
            match r {
                Some(v) => spec_lookup(self@, day as int, emp@, action@) == Some(v as int),
                None => spec_lookup(self@, day as int, emp@, action@) is None,
            },
    {
        match self.get_day(day) {
            Some(ds) => match ds.get(emp) {
                Some(a) => a.get(action),
                None => None,
            },
            None => None,
        }
    }

    /// Adds `delta` minutes under `(day, emp, action)`, creating levels
    /// lazily; an absent leaf counts as zero.
    pub fn add(&mut self, day: u32, emp: &String, action: &String, delta: i64)
        requires
            old(self).wf(),
            i64::MIN <= leaf_get(inner_get(day_get(old(self)@, day as int), emp@), action@) + delta
                <= i64::MAX,
        ensures
            final(self).wf(),
            final(self)@ == bump3(old(self)@, day as int, emp@, action@, delta as int),
    {
        let n = self.rows.len();
        let mut j: usize = 0;
        while j < n
            invariant
                0 <= j <= n,
                n == self.rows@.len(),
                self.wf(),
                self == old(self),
                i64::MIN <= leaf_get(
                    inner_get(day_get(old(self)@, day as int), emp@),
                    action@,
                ) + delta <= i64::MAX,
                forall|jj: int| 0 <= jj < j ==> (#[trigger] self.rows@[jj]).0 != day,
            decreases n - j,
        {
            if self.rows[j].0 == day {
                proof {
                    lemma_wmap_get(self.rows@, j as int);
                }
                let (k, mut inner) = self.rows.remove(j);
                inner.add(emp, action, delta);
                self.rows.insert(j, (k, inner));
                proof {
                    assert(self.rows@ =~= old(self).rows@.update(j as int, self.rows@[j as int]));
                    lemma_wmap_update(old(self).rows@, j as int, self.rows@[j as int]);
                    assert forall|a: int, b: int|
                        0 <= a < b < self.rows@.len() implies (#[trigger] self.rows@[a]).0
                        != (#[trigger] self.rows@[b]).0 by {
                        assert(old(self).rows@[a].0 != old(self).rows@[b].0);
                    }
                    assert forall|i: int| 0 <= i < self.rows@.len() implies (
                    #[trigger] self.rows@[i]).1.wf() by {
                        if i != j {
                            assert(self.rows@[i] == old(self).rows@[i]);
                        }
                    }
                }
                return ;
            }
            j = j + 1;
        }
        proof {
            lemma_wmap_dom(self.rows@, day as int);
            assert(!self@.dom().contains(day as int));
        }
        let mut fresh = DaySheet::new();
        fresh.add(emp, action, delta);
        self.rows.push((day, fresh));
        proof {
            lemma_wmap_push(old(self).rows@, self.rows@.last());
            assert(bump2(Map::<Seq<char>, Map<Seq<char>, int>>::empty(), emp@, action@, delta as int)
                =~= bump2(day_get(old(self)@, day as int), emp@, action@, delta as int));
            assert forall|a: int, b: int|
                0 <= a < b < self.rows@.len() implies (#[trigger] self.rows@[a]).0
                != (#[trigger] self.rows@[b]).0 by {
                if b < self.rows@.len() - 1 {
                    assert(old(self).rows@[a].0 != old(self).rows@[b].0);
                } else {
                    assert(old(self).rows@[a].0 != day);
                }
            }
            assert forall|i: int| 0 <= i < self.rows@.len() implies (
            #[trigger] self.rows@[i]).1.wf() by {
                if i < self.rows@.len() - 1 {
                    assert(self.rows@[i] == old(self).rows@[i]);
                }
            }
        }
    }
}

} // verus!
