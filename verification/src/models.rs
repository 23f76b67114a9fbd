//! Data model: members, events, groups and the values derived from them.
//!
//! Amounts are integer cents.  A settlement payment is an event like any
//! expense, but tagged with its own kind so that balance folding treats it
//! uniformly while deletion and annotation can tell the two apart.

use vstd::prelude::*;

verus! {

/// A member of a group: a stable identifier and a display name, unique
/// within the group.
pub struct User {
    pub id: usize,
    pub name: String,
}

impl User {
    /// An explicit deep copy, so verified callers know the fields carry
    /// over.
    pub fn duplicate(&self) -> (r: User)
        ensures
            r.id == self.id,
            r.name@ == self.name@,
    {
        User { id: self.id, name: self.name.clone() }
    }
}

/// What kind of event a recorded `Expense` is.
#[derive(Clone, Copy, PartialEq, Eq, Structural)]
pub enum ExpenseKind {
    /// An ordinary shared expense.
    Regular,
    /// A settlement payment, modeled as an expense with the recipient as
    /// its only participant.
    SettlementPayment,
}

/// A monetary event: one payer, a positive amount in cents, and the
/// participants the amount is split among (the payer may be one of them).
pub struct Expense {
    pub id: usize,
    pub description: String,
    pub amount: i64,
    pub payer: User,
    pub participants: Vec<User>,
    pub created_at: String,
    pub category: Option<String>,
    pub notes: Option<String>,
    pub kind: ExpenseKind,
}

/// A durable marker that a directional transfer has been paid outside the
/// suggestion engine.
pub struct SettledSettlement {
    pub from: String,
    pub to: String,
    pub amount: i64,
    pub settled_at: String,
}

/// A suggested transfer: `from` pays `to` the given amount in cents.
pub struct Settlement {
    pub from: String,
    pub to: String,
    pub amount: i64,
    pub settled: bool,
}

/// A group: members, the ordered event log, the settlement policy flag and
/// the settled-pair records.
pub struct Group {
    pub id: usize,
    pub name: String,
    pub members: Vec<User>,
    pub expenses: Vec<Expense>,
    pub simplify_debts: bool,
    pub settled_settlements: Vec<SettledSettlement>,
}

/// A registered account of the surrounding application.
pub struct AuthUser {
    pub id: usize,
    pub phone: String,
    pub name: String,
    pub token: String,
    pub current_group_id: usize,
    pub token_expires_at: Option<String>,
}

/// The whole application state: groups and accounts.
pub struct AppData {
    pub groups: Vec<Group>,
    pub users: Vec<AuthUser>,
    pub current_group_id: usize,
}

/// `name` is the display name of some member of `members`.
pub open spec fn is_member_name(members: Seq<User>, name: Seq<char>) -> bool {
    exists|i: int| 0 <= i < members.len() && (#[trigger] members[i].name@) == name
}

/// All member names are pairwise distinct.
pub open spec fn distinct_names(members: Seq<User>) -> bool {
    forall|i: int, j: int|
        0 <= i < j < members.len() ==> (#[trigger] members[i].name@) != (#[trigger] members[j].name@)
}

/// A well-formed event relative to a member list: positive amount, at
/// least one participant, and payer and participants all known members.
pub open spec fn event_wf(members: Seq<User>, e: Expense) -> bool {
    &&& e.amount > 0
    &&& e.participants@.len() >= 1
    &&& is_member_name(members, e.payer.name@)
    &&& forall|k: int|
        0 <= k < e.participants@.len() ==> is_member_name(
            members,
            (#[trigger] e.participants@[k]).name@,
        )
}

/// A well-formed group: distinct member names and only well-formed events.
/// Callers must establish this before invoking the engine.
pub open spec fn group_wf(g: Group) -> bool {
    &&& distinct_names(g.members@)
    &&& forall|i: int| 0 <= i < g.expenses@.len() ==> event_wf(g.members@, #[trigger] g.expenses@[i])
}

/// Look a member up by name.
pub fn find_member(members: &Vec<User>, name: &String) -> (r: Option<usize>)
    ensures
        match r {
            Some(i) => i < members@.len() && members@[i as int].name@ == name@,
            None => !is_member_name(members@, name@),
        },
{
    let n = members.len();
    let mut i: usize = 0;
    while i < n
        invariant
            0 <= i <= n,
            n == members@.len(),
            forall|k: int| 0 <= k < i ==> (#[trigger] members@[k].name@) != name@,
        decreases n - i,
    {
        if crate::names::str_eq(members[i].name.as_str(), name.as_str()) {
            return Some(i);
        }
        i = i + 1;
    }
    None
}

/// Runtime check of `group_wf`, for callers that receive a group from
/// outside and must reject a malformed one before using the engine.
pub fn check_group_wf(g: &Group) -> (r: bool)
    ensures
        r == group_wf(*g),
{
    let m = g.members.len();
    let mut i: usize = 0;
    while i < m
        invariant
            0 <= i <= m,
            m == g.members@.len(),
            forall|a: int, b: int|
                0 <= a < b < m && a < i ==> (#[trigger] g.members@[a].name@) != (
                #[trigger] g.members@[b].name@),
        decreases m - i,
    {
        let mut j: usize = i + 1;
        while j < m
            invariant
                0 <= i < j <= m,
                m == g.members@.len(),
                forall|b: int| i < b < j ==> (#[trigger] g.members@[b].name@) != g.members@[i as int].name@,
            decreases m - j,
        {
            if crate::names::str_eq(g.members[i].name.as_str(), g.members[j].name.as_str()) {
                return false;
            }
            j = j + 1;
        }
        i = i + 1;
    }
    let ne = g.expenses.len();
    let mut x: usize = 0;
    while x < ne
        invariant
            0 <= x <= ne,
            ne == g.expenses@.len(),
            distinct_names(g.members@),
            forall|k: int| 0 <= k < x ==> event_wf(g.members@, #[trigger] g.expenses@[k]),
        decreases ne - x,
    {
        let e = &g.expenses[x];
        if e.amount <= 0 {
            return false;
        }
        let np = e.participants.len();
        if np == 0 {
            return false;
        }
        if find_member(&g.members, &e.payer.name).is_none() {
            return false;
        }
        let mut p: usize = 0;
        while p < np
            invariant
                0 <= p <= np,
                0 <= x < ne,
                ne == g.expenses@.len(),
                *e == g.expenses@[x as int],
                np == e.participants@.len(),
                forall|k: int|
                    0 <= k < p ==> is_member_name(g.members@, (#[trigger] e.participants@[k]).name@),
            decreases np - p,
        {
            if find_member(&g.members, &e.participants[p].name).is_none() {
                return false;
            }
            p = p + 1;
        }
        x = x + 1;
    }
    true
}

} // verus!
