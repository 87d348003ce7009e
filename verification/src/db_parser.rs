//! The typed event model, and the conversion of raw legacy-database rows
//! into events.
//!
//! Raw rows arrive as strings and reference-table ids; conversion resolves
//! the ids against the employee and action tables (falling back to the
//! `"Onbekend"` placeholder), and parses the compacted date and time fields,
//! falling back to the epoch for unparseable values.

use crate::time::{spec_day_of, spec_secs_of, timestamp_or_default, Timestamp};
use std::collections::HashMap;
use vstd::prelude::*;
use vstd::string::StringExecFns;
use vstd::string::StringSliceAdditionalSpecFns;

verus! {

broadcast use vstd::std_specs::hash::group_hash_axioms;

/// One raw row of the legacy time-registration table.
#[allow(non_snake_case)]
pub struct TimeEntryRaw {
    pub Date: String,
    pub Time: String,
    pub Empl: u32,
    pub Action: u32,
    pub TRD_RunNr: u32,
}

/// One raw row of the legacy action reference table.
#[allow(non_snake_case)]
pub struct ActionsRaw {
    pub ACT_ID: u32,
    pub ACT_Name: String,
}

/// One raw row of the legacy personnel reference table.
#[allow(non_snake_case)]
pub struct EmployeeRaw {
    pub EN: u32,
    pub Name: String,
}

/// Employee names keyed by personnel number.
pub type Employees = HashMap<u32, String>;

/// Action labels keyed by action id.
pub type Actions = HashMap<u32, String>;

/// One typed time-clock punch.
pub struct TimeRowEvent {
    pub id: u32,
    pub employee: String,
    pub action: String,
    pub timestamp: Timestamp,
}

impl TimeRowEvent {
    /// A value-identical copy.
    pub fn duplicate(&self) -> (r: TimeRowEvent)
        ensures
            r == *self,
    {
        TimeRowEvent {
            id: self.id,
            employee: self.employee.clone(),
            action: self.action.clone(),
            timestamp: self.timestamp,
        }
    }
}

/// The placeholder label used when a reference-table id is unknown.
pub open spec fn unknown_label() -> Seq<char> {
    "Onbekend"@
}

/// The name an id resolves to: the table's entry, or the placeholder.
pub open spec fn resolve(table: Map<u32, String>, id: u32) -> Seq<char> {
    if table.dom().contains(id) {
        table[id]@
    } else {
        unknown_label()
    }
}

/// Whether a typed event is what converting a raw row yields: same run
/// number, ids resolved through the tables, and the timestamp parsed from
/// the raw date and time fields with their epoch/midnight fallbacks.
pub open spec fn converts_to(
    row: TimeEntryRaw,
    employees: Map<u32, String>,
    actions: Map<u32, String>,
    ev: TimeRowEvent,
) -> bool {
    ev.id == row.TRD_RunNr && ev.employee@ == resolve(employees, row.Empl) && ev.action@
        == resolve(actions, row.Action) && ev.timestamp.day == spec_day_of(
        vstd::utf8::encode_utf8(row.Date@),
    ) && ev.timestamp.secs == spec_secs_of(vstd::utf8::encode_utf8(row.Time@))
        && ev.timestamp.valid()
}

/// Looks up an id, falling back to the `"Onbekend"` placeholder.
fn resolve_name(table: &HashMap<u32, String>, id: u32) -> (r: String)
    ensures
        r@ == resolve(table@, id),
{
    match table.get(&id) {
        Some(name) => name.clone(),
        None => "Onbekend".to_owned(),
    }
}

/// Converts the raw rows of the legacy time table into typed events,
/// resolving personnel and action ids through the reference tables.
pub fn parse_db(
    rows: &Vec<TimeEntryRaw>,
    employees: &Employees,
    actions: &Actions,
) -> (r: Vec<TimeRowEvent>)
    ensures
        r@.len() == rows@.len(),
        forall|i: int|
            0 <= i < rows@.len() ==> converts_to(
                rows@[i],
                employees@,
                actions@,
                #[trigger] r@[i],
            ),
{
    let n = rows.len();
    let mut r: Vec<TimeRowEvent> = Vec::new();
    let mut i: usize = 0;
    while i < n
        invariant
            0 <= i <= n,
            n == rows@.len(),
            r@.len() == i,
            forall|j: int|
                0 <= j < i ==> converts_to(rows@[j], employees@, actions@, #[trigger] r@[j]),
        decreases n - i,
    {
        let row = &rows[i];
        let employee = resolve_name(employees, row.Empl);
        let action = resolve_name(actions, row.Action);
        let timestamp = timestamp_or_default(row.Date.as_str(), row.Time.as_str());
        r.push(TimeRowEvent { id: row.TRD_RunNr, employee, action, timestamp });
        i = i + 1;
    }
    r
}

/// Builds the personnel lookup table; a repeated personnel number keeps the
/// last row's name.
pub fn get_employees(rows: &Vec<EmployeeRaw>) -> (m: Employees)
    ensures
        m@ == spec_employee_table(rows@),
{
    let n = rows.len();
    let mut m: Employees = HashMap::new();
    let mut i: usize = 0;
    proof {
        assert(rows@.take(0) =~= Seq::<EmployeeRaw>::empty());
    }
    while i < n
        invariant
            0 <= i <= n,
            n == rows@.len(),
            m@ == spec_employee_table(rows@.take(i as int)),
        decreases n - i,
    {
        let row = &rows[i];
        m.insert(row.EN, row.Name.clone());
        proof {
            assert(rows@.take(i as int + 1).drop_last() =~= rows@.take(i as int));
            assert(rows@.take(i as int + 1).last() == rows@[i as int]);
        }
        i = i + 1;
    }
    proof {
        assert(rows@.take(n as int) =~= rows@);
    }
    m
}

/// What [`get_employees`] builds, row by row.
pub open spec fn spec_employee_table(rows: Seq<EmployeeRaw>) -> Map<u32, String>
    decreases rows.len(),
{
    if rows.len() == 0 {
        Map::empty()
    } else {
        spec_employee_table(rows.drop_last()).insert(rows.last().EN, rows.last().Name)
    }
}

/// Builds the action lookup table; a repeated action id keeps the last
/// row's label.
pub fn get_actions(rows: &Vec<ActionsRaw>) -> (m: Actions)
    ensures
        m@ == spec_action_table(rows@),
{
    let n = rows.len();
    let mut m: Actions = HashMap::new();
    let mut i: usize = 0;
    proof {
        assert(rows@.take(0) =~= Seq::<ActionsRaw>::empty());
    }
    while i < n
        invariant
            0 <= i <= n,
            n == rows@.len(),
            m@ == spec_action_table(rows@.take(i as int)),
        decreases n - i,
    {
        let row = &rows[i];
        m.insert(row.ACT_ID, row.ACT_Name.clone());
        proof {
            assert(rows@.take(i as int + 1).drop_last() =~= rows@.take(i as int));
            assert(rows@.take(i as int + 1).last() == rows@[i as int]);
        }
        i = i + 1;
    }
    proof {
        assert(rows@.take(n as int) =~= rows@);
    }
    m
}

/// What [`get_actions`] builds, row by row.
pub open spec fn spec_action_table(rows: Seq<ActionsRaw>) -> Map<u32, String>
    decreases rows.len(),
{
    if rows.len() == 0 {
        Map::empty()
    } else {
        spec_action_table(rows.drop_last()).insert(rows.last().ACT_ID, rows.last().ACT_Name)
    }
}

/// Restores the leading zero that the legacy export drops from times of day
/// before ten o'clock: a five-byte time field gains a `'0'` prefix, any
/// other field is returned unchanged.
pub fn normalize_time(s: &String) -> (r: String)
    ensures
        r@ == if vstd::utf8::encode_utf8(s@).len() == 5 {
            seq!['0'] + s@
        } else {
            s@
        },
{
    if s.as_str().as_bytes().len() == 5 {
        let mut r = "0".to_owned();
        r.append(s.as_str());
        proof {
            reveal_strlit("0");
            assert("0"@ =~= seq!['0']);
        }
        r
    } else {
        s.clone()
    }
}

} // verus!
