//! Expense and settlement-payment operations.
//!
//! These are the computational parts of recording and deleting events.
//! Recording a settlement payment builds both the event (an expense whose
//! only participant is the recipient) and the settled-pair record; deleting
//! a settlement event also revokes that record.  Timestamps are handed in
//! by the caller.

use crate::errors::AppError;
use crate::models::{
    group_wf, is_member_name, Expense, ExpenseKind, Group, SettledSettlement, User,
};
use crate::names::{str_eq, trim_str, trimmed_of};
use vstd::prelude::*;

verus! {

/// A request to record a shared expense; the amount is in cents.
pub struct CreateExpenseRequest {
    pub description: String,
    pub amount: i64,
    pub payer: String,
    pub participants: Vec<String>,
    pub category: Option<String>,
    pub notes: Option<String>,
}

/// A request to record a settlement payment; the amount is in cents.
pub struct SettleRequest {
    pub from: String,
    pub to: String,
    pub amount: i64,
}

/// The member names of a participant list, in order.
pub open spec fn names_of(parts: Seq<User>) -> Seq<Seq<char>> {
    parts.map_values(|u: User| u.name@)
}

/// The views of a list of strings.
pub open spec fn strs_view(v: Seq<String>) -> Seq<Seq<char>> {
    v.map_values(|s: String| s@)
}

/// The view of an optional string.
pub open spec fn opt_view(o: Option<String>) -> Option<Seq<char>> {
    match o {
        Some(s) => Some(s@),
        None => None,
    }
}

/// The largest event id in use.
pub open spec fn max_expense_id(events: Seq<Expense>) -> int
    decreases events.len(),
{
    if events.len() == 0 {
        0
    } else {
        let rest = max_expense_id(events.drop_last());
        if events.last().id > rest {
            events.last().id as int
        } else {
            rest
        }
    }
}

/// An expense value with exactly these fields.
pub open spec fn expense_matches(
    e: Expense,
    id: int,
    desc: Seq<char>,
    amount: int,
    payer: Seq<char>,
    parts: Seq<Seq<char>>,
    created: Seq<char>,
    cat: Option<Seq<char>>,
    notes: Option<Seq<char>>,
    kind: ExpenseKind,
) -> bool {
    &&& e.id == id
    &&& e.description@ == desc
    &&& e.amount == amount
    &&& e.payer.name@ == payer
    &&& names_of(e.participants@) == parts
    &&& e.created_at@ == created
    &&& opt_view(e.category) == cat
    &&& opt_view(e.notes) == notes
    &&& e.kind == kind
}

/// The settled-pair records left after revoking every record of the
/// directional pair `(from, to)`.
pub open spec fn revoke_model(
    recs: Seq<SettledSettlement>,
    from: Seq<char>,
    to: Seq<char>,
) -> Seq<SettledSettlement>
    decreases recs.len(),
{
    if recs.len() == 0 {
        Seq::empty()
    } else {
        let rest = revoke_model(recs.drop_first(), from, to);
        if recs.first().from@ == from && recs.first().to@ == to {
            rest
        } else {
            seq![recs.first()] + rest
        }
    }
}

impl Expense {
    /// An explicit deep copy, so verified callers know the fields carry
    /// over.
    pub fn duplicate(&self) -> (r: Expense)
        ensures
            expense_matches(
                r,
                self.id as int,
                self.description@,
                self.amount as int,
                self.payer.name@,
                names_of(self.participants@),
                self.created_at@,
                opt_view(self.category),
                opt_view(self.notes),
                self.kind,
            ),
            r.payer.id == self.payer.id,
    {
        let n = self.participants.len();
        let mut parts: Vec<User> = Vec::new();
        let mut i: usize = 0;
        while i < n
            invariant
                0 <= i <= n,
                n == self.participants@.len(),
                parts@.len() == i,
                forall|k: int|
                    0 <= k < i ==> (#[trigger] parts@[k]).name@ == self.participants@[k].name@,
            decreases n - i,
        {
            parts.push(self.participants[i].duplicate());
            i = i + 1;
        }
        let r = Expense {
            id: self.id,
            description: self.description.clone(),
            amount: self.amount,
            payer: self.payer.duplicate(),
            participants: parts,
            created_at: self.created_at.clone(),
            category: match &self.category {
                Some(c) => Some(c.clone()),
                None => None,
            },
            notes: match &self.notes {
                Some(nt) => Some(nt.clone()),
                None => None,
            },
            kind: self.kind,
        };
        proof {
            assert(names_of(r.participants@) =~= names_of(self.participants@));
        }
        r
    }
}

/// Append an event to the group's log.
pub fn add_expense(expense: Expense, group: &mut Group)
    ensures
        final(group).expenses@ == old(group).expenses@.push(expense),
        final(group).members == old(group).members,
        final(group).settled_settlements == old(group).settled_settlements,
        final(group).id == old(group).id,
        final(group).name == old(group).name,
        final(group).simplify_debts == old(group).simplify_debts,
{
    group.expenses.push(expense);
}

fn compute_max_expense_id(events: &Vec<Expense>) -> (r: usize)
    ensures
        r as int == max_expense_id(events@),
{
    let n = events.len();
    let mut m: usize = 0;
    let mut i: usize = 0;
    while i < n
        invariant
            0 <= i <= n,
            n == events@.len(),
            m as int == max_expense_id(events@.take(i as int)),
        decreases n - i,
    {
        proof {
            assert(events@.take(i + 1).drop_last() =~= events@.take(i as int));
            assert(events@.take(i + 1).last() == events@[i as int]);
        }
        if events[i].id > m {
            m = events[i].id;
        }
        i = i + 1;
    }
    proof {
        assert(events@.take(n as int) =~= events@);
    }
    m
}

/// Record a new shared expense: validate it against the group's members
/// and append it to the log.
pub fn create_expense(
    group: &mut Group,
    description: &str,
    amount: i64,
    payer: &str,
    participants: &Vec<String>,
    category: Option<String>,
    notes: Option<String>,
    created_at: String,
) -> (r: Result<Expense, AppError>)
    requires
        max_expense_id(old(group).expenses@) < usize::MAX,
    ensures
        match r {
            Ok(e) => {
                &&& trimmed_of(description@).len() > 0
                &&& amount > 0
                &&& participants@.len() > 0
                &&& is_member_name(old(group).members@, payer@)
                &&& forall|k: int|
                    0 <= k < participants@.len() ==> is_member_name(
                        old(group).members@,
                        (#[trigger] participants@[k])@,
                    )
                &&& expense_matches(
                    e,
                    max_expense_id(old(group).expenses@) + 1,
                    trimmed_of(description@),
                    amount as int,
                    payer@,
                    strs_view(participants@),
                    created_at@,
                    opt_view(category),
                    opt_view(notes),
                    ExpenseKind::Regular,
                )
                &&& final(group).expenses@.len() == old(group).expenses@.len() + 1
                &&& forall|k: int|
                    0 <= k < old(group).expenses@.len()
                        ==> #[trigger] final(group).expenses@[k] == old(group).expenses@[k]
                &&& expense_matches(
                    final(group).expenses@.last(),
                    max_expense_id(old(group).expenses@) + 1,
                    trimmed_of(description@),
                    amount as int,
                    payer@,
                    strs_view(participants@),
                    created_at@,
                    opt_view(category),
                    opt_view(notes),
                    ExpenseKind::Regular,
                )
                &&& final(group).members == old(group).members
                &&& final(group).settled_settlements == old(group).settled_settlements
                &&& final(group).id == old(group).id
                &&& final(group).name == old(group).name
                &&& final(group).simplify_debts == old(group).simplify_debts
                &&& (group_wf(*old(group)) ==> group_wf(*final(group)))
            },
            Err(e) => {
                &&& *final(group) == *old(group)
                &&& match e {
                    AppError::BadRequest(m) => (m@ == "Description cannot be empty"@ && trimmed_of(
                        description@,
                    ).len() == 0) || (m@ == "Amount must be positive"@ && trimmed_of(
                        description@,
                    ).len() > 0 && amount <= 0) || (m@ == "Must have at least one participant"@
                        && trimmed_of(description@).len() > 0 && amount > 0 && participants@.len()
                        == 0),
                    AppError::NotFound(_) => trimmed_of(description@).len() > 0 && amount > 0
                        && participants@.len() > 0 && (!is_member_name(
                        old(group).members@,
                        payer@,
                    ) || exists|k: int|
                        0 <= k < participants@.len() && !is_member_name(
                            old(group).members@,
                            (#[trigger] participants@[k])@,
                        )),
                    _ => false,
                }
            },
        },
{
    let desc = trim_str(description);
    if desc.unicode_len() == 0 {
        return Err(AppError::BadRequest("Description cannot be empty".to_owned()));
    }
    if amount <= 0 {
        return Err(AppError::BadRequest("Amount must be positive".to_owned()));
    }
    if participants.len() == 0 {
        return Err(AppError::BadRequest("Must have at least one participant".to_owned()));
    }
    let payer_string = String::from_str(payer);
    let payer_user = match crate::models::find_member(&group.members, &payer_string) {
        Some(i) => group.members[i].duplicate(),
        None => {
            let mut m = String::from_str("Payer '");
            m.append(payer);
            m.append("' not found");
            return Err(AppError::NotFound(m));
        },
    };
    let np = participants.len();
    let mut part_users: Vec<User> = Vec::new();
    let mut p: usize = 0;
    while p < np
        invariant
            0 <= p <= np,
            np == participants@.len(),
            np > 0,
            amount > 0,
            trimmed_of(description@).len() > 0,
            part_users@.len() == p,
            *group == *old(group),
            forall|k: int|
                0 <= k < p ==> (#[trigger] part_users@[k]).name@ == participants@[k]@,
            forall|k: int|
                0 <= k < p ==> is_member_name(group.members@, (#[trigger] participants@[k])@),
        decreases np - p,
    {
        match crate::models::find_member(&group.members, &participants[p]) {
            Some(i) => {
                part_users.push(group.members[i].duplicate());
            },
            None => {
                let mut m = String::from_str("Participant '");
                m.append(participants[p].as_str());
                m.append("' not found");
                return Err(AppError::NotFound(m));
            },
        }
        p = p + 1;
    }
    let max_id = compute_max_expense_id(&group.expenses);
    let expense = Expense {
        id: max_id + 1,
        description: desc,
        amount,
        payer: payer_user,
        participants: part_users,
        created_at,
        category,
        notes,
        kind: ExpenseKind::Regular,
    };
    let result = expense.duplicate();
    let ghost old_events = group.expenses@;
    proof {
        assert(names_of(expense.participants@) =~= strs_view(participants@));
        assert(opt_view(expense.category) == opt_view(result.category));
    }
    add_expense(expense, group);
    proof {
        if group_wf(*old(group)) {
            assert forall|i: int| 0 <= i < group.expenses@.len() implies crate::models::event_wf(
                group.members@,
                #[trigger] group.expenses@[i],
            ) by {
                if i < old_events.len() {
                    assert(group.expenses@[i] == old_events[i]);
                } else {
                    assert(group.expenses@[i] == group.expenses@.last());
                }
            }
        }
    }
    Ok(result)
}

/// Remove every settled-pair record of the directional pair `(from, to)`.
pub fn revoke_settlement_record(group: &mut Group, from: &str, to: &str)
    ensures
        final(group).settled_settlements@ == revoke_model(
            old(group).settled_settlements@,
            from@,
            to@,
        ),
        final(group).expenses == old(group).expenses,
        final(group).members == old(group).members,
        final(group).id == old(group).id,
        final(group).name == old(group).name,
        final(group).simplify_debts == old(group).simplify_debts,
{
    let mut pending: Vec<SettledSettlement> = Vec::new();
    core::mem::swap(&mut pending, &mut group.settled_settlements);
    let ghost orig = pending@;
    let mut kept: Vec<SettledSettlement> = Vec::new();
    while pending.len() > 0
        invariant
            kept@ + revoke_model(pending@, from@, to@) == revoke_model(orig, from@, to@),
        decreases pending@.len(),
    {
        let rec = pending.remove(0);
        let ghost before = seq![rec].add(pending@);
        proof {
            assert(before.drop_first() =~= pending@);
            assert(before.first() == rec);
        }
        let keep = !(str_eq(rec.from.as_str(), from) && str_eq(rec.to.as_str(), to));
        if keep {
            kept.push(rec);
            proof {
                assert(kept@ + revoke_model(pending@, from@, to@) =~= revoke_model(
                    orig,
                    from@,
                    to@,
                ));
            }
        } else {
            proof {
                assert(kept@ + revoke_model(pending@, from@, to@) =~= revoke_model(
                    orig,
                    from@,
                    to@,
                ));
            }
        }
    }
    proof {
        assert(revoke_model(pending@, from@, to@) =~= Seq::<SettledSettlement>::empty());
        assert(kept@ =~= revoke_model(orig, from@, to@));
    }
    group.settled_settlements = kept;
}

/// Delete an event by id; deleting a settlement payment also revokes the
/// corresponding settled-pair record.
pub fn delete_expense(group: &mut Group, id: usize) -> (r: Result<(), AppError>)
    ensures
        match r {
            Ok(_) => exists|i: int|
                {
                    &&& 0 <= i < old(group).expenses@.len()
                    &&& (#[trigger] old(group).expenses@[i]).id == id
                    &&& forall|k: int| 0 <= k < i ==> (#[trigger] old(group).expenses@[k]).id != id
                    &&& final(group).expenses@ == old(group).expenses@.remove(i)
                    &&& if old(group).expenses@[i].kind == ExpenseKind::SettlementPayment && old(
                        group,
                    ).expenses@[i].participants@.len() >= 1 {
                        final(group).settled_settlements@ == revoke_model(
                            old(group).settled_settlements@,
                            old(group).expenses@[i].payer.name@,
                            old(group).expenses@[i].participants@[0].name@,
                        )
                    } else {
                        final(group).settled_settlements == old(group).settled_settlements
                    }
                    &&& final(group).members == old(group).members
                    &&& final(group).id == old(group).id
                    &&& final(group).name == old(group).name
                    &&& final(group).simplify_debts == old(group).simplify_debts
                },
            Err(e) => {
                &&& *final(group) == *old(group)
                &&& e matches AppError::NotFound(_)
                &&& forall|k: int|
                    0 <= k < old(group).expenses@.len() ==> (#[trigger] old(
                        group,
                    ).expenses@[k]).id != id
            },
        },
{
    let n = group.expenses.len();
    let mut i: usize = 0;
    while i < n
        invariant
            0 <= i <= n,
            n == group.expenses@.len(),
            forall|k: int| 0 <= k < i ==> (#[trigger] group.expenses@[k]).id != id,
            *group == *old(group),
        decreases n - i,
    {
        if group.expenses[i].id == id {
            let is_settlement = match group.expenses[i].kind {
                ExpenseKind::SettlementPayment => true,
                ExpenseKind::Regular => false,
            };
            if is_settlement && group.expenses[i].participants.len() >= 1 {
                let payer_name = group.expenses[i].payer.name.clone();
                let recipient_name = group.expenses[i].participants[0].name.clone();
                revoke_settlement_record(group, payer_name.as_str(), recipient_name.as_str());
            }
            group.expenses.remove(i);
            return Ok(());
        }
        i = i + 1;
    }
    Err(AppError::NotFound("Expense not found".to_owned()))
}

/// Record a settlement payment: build the settlement event (the recipient
/// is its only participant), append it, and store the settled-pair record.
/// The caller supplies the timestamp.
pub fn settle(group: &mut Group, from: &str, to: &str, amount: i64, now: &str) -> (r: Result<
    Expense,
    AppError,
>)
    requires
        max_expense_id(old(group).expenses@) < usize::MAX,
    ensures
        match r {
            Ok(e) => {
                &&& amount > 0
                &&& from@ != to@
                &&& is_member_name(old(group).members@, from@)
                &&& is_member_name(old(group).members@, to@)
                &&& expense_matches(
                    e,
                    max_expense_id(old(group).expenses@) + 1,
                    from@ + " paid "@ + to@,
                    amount as int,
                    from@,
                    seq![to@],
                    now@,
                    None,
                    None,
                    ExpenseKind::SettlementPayment,
                )
                &&& final(group).expenses@.len() == old(group).expenses@.len() + 1
                &&& forall|k: int|
                    0 <= k < old(group).expenses@.len()
                        ==> #[trigger] final(group).expenses@[k] == old(group).expenses@[k]
                &&& expense_matches(
                    final(group).expenses@.last(),
                    max_expense_id(old(group).expenses@) + 1,
                    from@ + " paid "@ + to@,
                    amount as int,
                    from@,
                    seq![to@],
                    now@,
                    None,
                    None,
                    ExpenseKind::SettlementPayment,
                )
                &&& final(group).settled_settlements@.len() == old(
                    group,
                ).settled_settlements@.len() + 1
                &&& forall|k: int|
                    0 <= k < old(group).settled_settlements@.len()
                        ==> #[trigger] final(group).settled_settlements@[k] == old(
                        group,
                    ).settled_settlements@[k]
                &&& final(group).settled_settlements@.last().from@ == from@
                &&& final(group).settled_settlements@.last().to@ == to@
                &&& final(group).settled_settlements@.last().amount == amount
                &&& final(group).settled_settlements@.last().settled_at@ == now@
                &&& final(group).members == old(group).members
                &&& final(group).id == old(group).id
                &&& final(group).name == old(group).name
                &&& final(group).simplify_debts == old(group).simplify_debts
                &&& (group_wf(*old(group)) ==> group_wf(*final(group)))
            },
            Err(e) => {
                &&& *final(group) == *old(group)
                &&& e matches AppError::BadRequest(_)
                &&& (amount <= 0 || from@ == to@ || !is_member_name(old(group).members@, from@)
                    || !is_member_name(old(group).members@, to@))
            },
        },
{
    if amount <= 0 {
        return Err(AppError::BadRequest("Amount must be positive".to_owned()));
    }
    if crate::names::str_eq(from, to) {
        return Err(AppError::BadRequest("Cannot settle with yourself".to_owned()));
    }
    let from_string = String::from_str(from);
    let from_user = match crate::models::find_member(&group.members, &from_string) {
        Some(i) => group.members[i].duplicate(),
        None => {
            let mut m = String::from_str("User '");
            m.append(from);
            m.append("' not found");
            return Err(AppError::BadRequest(m));
        },
    };
    let to_string = String::from_str(to);
    let to_user = match crate::models::find_member(&group.members, &to_string) {
        Some(i) => group.members[i].duplicate(),
        None => {
            let mut m = String::from_str("User '");
            m.append(to);
            m.append("' not found");
            return Err(AppError::BadRequest(m));
        },
    };
    let max_id = compute_max_expense_id(&group.expenses);
    let mut description = String::from_str(from);
    description.append(" paid ");
    description.append(to);
    let mut participants: Vec<User> = Vec::new();
    participants.push(to_user);
    let expense = Expense {
        id: max_id + 1,
        description,
        amount,
        payer: from_user,
        participants,
        created_at: String::from_str(now),
        category: None,
        notes: None,
        kind: ExpenseKind::SettlementPayment,
    };
    let result = expense.duplicate();
    let ghost old_events = group.expenses@;
    proof {
        assert(names_of(expense.participants@) =~= seq![to@]);
        assert(expense.description@ == from@ + " paid "@ + to@);
    }
    add_expense(expense, group);
    group.settled_settlements.push(
        SettledSettlement {
            from: from_string,
            to: to_string,
            amount,
            settled_at: String::from_str(now),
        },
    );
    proof {
        if group_wf(*old(group)) {
            assert forall|i: int| 0 <= i < group.expenses@.len() implies crate::models::event_wf(
                group.members@,
                #[trigger] group.expenses@[i],
            ) by {
                if i < old_events.len() {
                    assert(group.expenses@[i] == old_events[i]);
                } else {
                    assert(group.expenses@[i] == group.expenses@.last());
                }
            }
        }
    }
    Ok(result)
}

} // verus!
