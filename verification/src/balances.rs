//! Balance calculator.
//!
//! Folds a group's event log into a net balance per member.  Each event
//! credits its payer with the full amount and debits every participant with
//! an equal share.  Shares are exact: all balances are kept in units of
//! `1 / scale` cents, where `scale` is a common multiple of every
//! participant count in the log, so the fold introduces no rounding at all
//! and the balances of a group always sum to exactly zero.

use crate::arith::{
    divides, gcd, gcd_i128, lcm, lemma_divides_le, lemma_divides_trans, lemma_lcm,
};
use crate::models::{
    distinct_names, event_wf, find_member, group_wf, is_member_name, Expense, Group, User,
};
use vstd::pervasive::VecAdditionalExecFns;
use vstd::prelude::*;

verus! {

/// Largest supported scale (common multiple of participant counts).
pub const SCALE_CAP: i128 = 0x200_0000_0000_0000;

/// Largest supported sum of all amounts in a group, in cents.
pub const TOTAL_CAP: i128 = 0x4000_0000_0000_0000;

/// Every event has at least one participant.
pub open spec fn counts_ok(events: Seq<Expense>) -> bool {
    forall|i: int| 0 <= i < events.len() ==> (#[trigger] events[i]).participants@.len() >= 1
}

/// Every amount is positive.
pub open spec fn amounts_ok(events: Seq<Expense>) -> bool {
    forall|i: int| 0 <= i < events.len() ==> (#[trigger] events[i]).amount > 0
}

/// The scale of an event log: a common multiple of all participant counts,
/// built by folding least common multiples.
pub open spec fn scale(events: Seq<Expense>) -> int
    decreases events.len(),
{
    if events.len() == 0 {
        1
    } else {
        lcm(scale(events.drop_last()), events.last().participants@.len() as int)
    }
}

/// Sum of all amounts of an event log, in cents.
pub open spec fn total(events: Seq<Expense>) -> int
    decreases events.len(),
{
    if events.len() == 0 {
        0
    } else {
        total(events.drop_last()) + events.last().amount
    }
}

/// The engine works on a log whose scale and total stay within these caps;
/// all intermediate products then fit comfortably in an `i128`.
pub open spec fn fits(events: Seq<Expense>) -> bool {
    &&& scale(events) <= SCALE_CAP
    &&& total(events) <= TOTAL_CAP
}

/// How often `name` occurs among the participants.
pub open spec fn count_in(parts: Seq<User>, name: Seq<char>) -> int
    decreases parts.len(),
{
    if parts.len() == 0 {
        0
    } else {
        count_in(parts.drop_last(), name) + if parts.last().name@ == name {
            1int
        } else {
            0int
        }
    }
}

/// One participant's share of an event, in `1 / l` cents.
pub open spec fn share_scaled(e: Expense, l: int) -> int {
    e.amount * (l / e.participants@.len() as int)
}

/// What one event adds to the balance of `name`, in `1 / l` cents: the full
/// amount if `name` is the payer, minus one share per occurrence among the
/// participants.
pub open spec fn event_delta(e: Expense, name: Seq<char>, l: int) -> int {
    (if e.payer.name@ == name {
        e.amount * l
    } else {
        0int
    }) - share_scaled(e, l) * count_in(e.participants@, name)
}

/// The net balance of `name` after folding the whole log, in `1 / l` cents.
pub open spec fn bal(events: Seq<Expense>, name: Seq<char>, l: int) -> int
    decreases events.len(),
{
    if events.len() == 0 {
        0
    } else {
        bal(events.drop_last(), name, l) + event_delta(events.last(), name, l)
    }
}

/// The scale is positive and every participant count divides it.
pub proof fn lemma_scale_props(events: Seq<Expense>)
    requires
        counts_ok(events),
    ensures
        scale(events) >= 1,
        forall|i: int|
            0 <= i < events.len() ==> divides(
                (#[trigger] events[i]).participants@.len() as int,
                scale(events),
            ),
    decreases events.len(),
{
    if events.len() > 0 {
        let dl = events.drop_last();
        let c = events.last().participants@.len() as int;
        assert(counts_ok(dl)) by {
            assert(forall|i: int| 0 <= i < dl.len() ==> dl[i] == events[i]);
        }
        lemma_scale_props(dl);
        lemma_lcm(scale(dl), c);
        assert forall|i: int| 0 <= i < events.len() implies divides(
            (#[trigger] events[i]).participants@.len() as int,
            scale(events),
        ) by {
            if i < events.len() - 1 {
                assert(events[i] == dl[i]);
                lemma_divides_trans(
                    events[i].participants@.len() as int,
                    scale(dl),
                    scale(events),
                );
            } else {
                assert(events[i] == events.last());
            }
        }
    }
}

/// Scales of prefixes divide (and are bounded by) the scale of the log.
pub proof fn lemma_scale_prefix(events: Seq<Expense>, i: int)
    requires
        counts_ok(events),
        0 <= i <= events.len(),
    ensures
        1 <= scale(events.take(i)),
        scale(events.take(i)) <= scale(events),
        divides(scale(events.take(i)), scale(events)),
    decreases events.len() - i,
{
    assert(counts_ok(events.take(i))) by {
        assert(forall|k: int| 0 <= k < i ==> events.take(i)[k] == events[k]);
    }
    lemma_scale_props(events.take(i));
    if i == events.len() {
        assert(events.take(i) =~= events);
        lemma_scale_props(events);
        assert(divides(scale(events), scale(events))) by {
            lemma_divides_le(1, scale(events));
            vstd::arithmetic::div_mod::lemma_mod_self_0(scale(events));
        }
    } else {
        lemma_scale_prefix(events, i + 1);
        let t1 = events.take(i + 1);
        assert(t1.drop_last() =~= events.take(i));
        assert(t1.last() == events[i]);
        lemma_scale_props(events.take(i));
        lemma_lcm(scale(events.take(i)), events[i].participants@.len() as int);
        lemma_divides_trans(scale(events.take(i)), scale(t1), scale(events));
    }
}

/// Totals are nonnegative, and prefixes total no more than the whole log.
pub proof fn lemma_total_prefix(events: Seq<Expense>, i: int)
    requires
        amounts_ok(events),
        0 <= i <= events.len(),
    ensures
        0 <= total(events.take(i)),
        total(events.take(i)) <= total(events),
    decreases events.len() - i,
{
    if i == events.len() {
        assert(events.take(i) =~= events);
        lemma_total_nonneg(events);
    } else {
        lemma_total_prefix(events, i + 1);
        let t1 = events.take(i + 1);
        assert(t1.drop_last() =~= events.take(i));
        assert(t1.last() == events[i]);
        lemma_total_nonneg(events.take(i));
    }
}

/// A log of positive amounts has a nonnegative total.
pub proof fn lemma_total_nonneg(events: Seq<Expense>)
    requires
        amounts_ok(events),
    ensures
        total(events) >= 0,
    decreases events.len(),
{
    if events.len() > 0 {
        let dl = events.drop_last();
        assert(amounts_ok(dl)) by {
            assert(forall|i: int| 0 <= i < dl.len() ==> dl[i] == events[i]);
        }
        lemma_total_nonneg(dl);
    }
}

/// Occurrence counts lie between zero and the number of participants.
pub proof fn lemma_count_in_bounds(parts: Seq<User>, name: Seq<char>)
    ensures
        0 <= count_in(parts, name) <= parts.len(),
    decreases parts.len(),
{
    if parts.len() > 0 {
        lemma_count_in_bounds(parts.drop_last(), name);
    }
}

/// The share is nonnegative, and one share per participant adds back up to
/// the exact scaled amount.
pub proof fn lemma_share_exact(e: Expense, l: int)
    requires
        e.participants@.len() >= 1,
        e.amount > 0,
        1 <= l,
        divides(e.participants@.len() as int, l),
    ensures
        share_scaled(e, l) >= 0,
        share_scaled(e, l) * e.participants@.len() as int == e.amount * l,
        share_scaled(e, l) <= e.amount * l,
{
    let c = e.participants@.len() as int;
    let a = e.amount as int;
    lemma_divides_le(c, l);
    let u = l / c;
    assert(l == u * c);
    assert(share_scaled(e, l) == a * u);
    assert(a * u >= 0 && (a * u) * c == a * l && a * u <= a * l) by (nonlinear_arith)
        requires
            l == u * c,
            1 <= u,
            1 <= c,
            a > 0,
    ;
}

/// What one event contributes is bounded by its scaled amount.
pub proof fn lemma_event_delta_bound(e: Expense, name: Seq<char>, l: int)
    requires
        e.participants@.len() >= 1,
        e.amount > 0,
        1 <= l,
        divides(e.participants@.len() as int, l),
    ensures
        -(e.amount * l) <= event_delta(e, name, l) <= e.amount * l,
{
    let c = e.participants@.len() as int;
    let a = e.amount as int;
    let s = share_scaled(e, l);
    let k = count_in(e.participants@, name);
    lemma_count_in_bounds(e.participants@, name);
    lemma_share_exact(e, l);
    assert(0 <= s * k <= a * l) by (nonlinear_arith)
        requires
            0 <= s,
            0 <= k <= c,
            s * c == a * l,
    ;
}

/// A balance is bounded by the scaled total of the log.
pub proof fn lemma_bal_bound(events: Seq<Expense>, name: Seq<char>, l: int)
    requires
        counts_ok(events),
        amounts_ok(events),
        1 <= l,
        forall|i: int|
            0 <= i < events.len() ==> divides(
                (#[trigger] events[i]).participants@.len() as int,
                l,
            ),
    ensures
        -(total(events) * l) <= bal(events, name, l) <= total(events) * l,
    decreases events.len(),
{
    if events.len() == 0 {
    } else {
        let dl = events.drop_last();
        let e = events.last();
        assert(forall|i: int| 0 <= i < dl.len() ==> dl[i] == events[i]);
        lemma_bal_bound(dl, name, l);
        lemma_event_delta_bound(e, name, l);
        assert((total(dl) + e.amount) * l == total(dl) * l + e.amount * l) by (nonlinear_arith);
    }
}

/// Number of members carrying the given name.
pub open spec fn count_named(members: Seq<User>, name: Seq<char>) -> int
    decreases members.len(),
{
    if members.len() == 0 {
        0
    } else {
        count_named(members.drop_last(), name) + if members.last().name@ == name {
            1int
        } else {
            0int
        }
    }
}

/// Sum of the balances of all members, in `1 / l` cents.
pub open spec fn sum_bal(members: Seq<User>, events: Seq<Expense>, l: int) -> int
    decreases members.len(),
{
    if members.len() == 0 {
        0
    } else {
        sum_bal(members.drop_last(), events, l) + bal(events, members.last().name@, l)
    }
}

/// Sum over all members of what one event contributes.
pub open spec fn sum_delta(members: Seq<User>, e: Expense, l: int) -> int
    decreases members.len(),
{
    if members.len() == 0 {
        0
    } else {
        sum_delta(members.drop_last(), e, l) + event_delta(e, members.last().name@, l)
    }
}

/// Sum over all members of how often each occurs among the participants.
pub open spec fn sum_count(members: Seq<User>, parts: Seq<User>) -> int
    decreases members.len(),
{
    if members.len() == 0 {
        0
    } else {
        sum_count(members.drop_last(), parts) + count_in(parts, members.last().name@)
    }
}

proof fn lemma_count_named_zero(members: Seq<User>, name: Seq<char>)
    requires
        forall|i: int| 0 <= i < members.len() ==> (#[trigger] members[i].name@) != name,
    ensures
        count_named(members, name) == 0,
    decreases members.len(),
{
    if members.len() > 0 {
        let dl = members.drop_last();
        assert(forall|i: int| 0 <= i < dl.len() ==> dl[i] == members[i]);
        lemma_count_named_zero(dl, name);
    }
}

/// With distinct names, a member's name occurs exactly once.
proof fn lemma_count_named_one(members: Seq<User>, name: Seq<char>)
    requires
        distinct_names(members),
        is_member_name(members, name),
    ensures
        count_named(members, name) == 1,
    decreases members.len(),
{
    let dl = members.drop_last();
    assert(forall|i: int| 0 <= i < dl.len() ==> dl[i] == members[i]);
    if members.last().name@ == name {
        assert forall|i: int| 0 <= i < dl.len() implies (#[trigger] dl[i].name@) != name by {
            assert(members[i].name@ != members[members.len() - 1].name@);
        }
        lemma_count_named_zero(dl, name);
    } else {
        assert(distinct_names(dl));
        assert(is_member_name(dl, name)) by {
            let w = choose|i: int|
                0 <= i < members.len() && (#[trigger] members[i].name@) == name;
            assert(w < members.len() - 1);
            assert(dl[w].name@ == name);
        }
        lemma_count_named_one(dl, name);
    }
}

proof fn lemma_sum_count_empty(members: Seq<User>)
    ensures
        sum_count(members, Seq::<User>::empty()) == 0,
    decreases members.len(),
{
    if members.len() > 0 {
        lemma_sum_count_empty(members.drop_last());
    }
}

proof fn lemma_sum_count_step(members: Seq<User>, parts: Seq<User>)
    requires
        parts.len() >= 1,
    ensures
        sum_count(members, parts) == sum_count(members, parts.drop_last()) + count_named(
            members,
            parts.last().name@,
        ),
    decreases members.len(),
{
    if members.len() > 0 {
        lemma_sum_count_step(members.drop_last(), parts);
    }
}

/// Participants who are all members with distinct names are counted, over
/// all members, exactly once each.
proof fn lemma_sum_count_total(members: Seq<User>, parts: Seq<User>)
    requires
        distinct_names(members),
        forall|k: int|
            0 <= k < parts.len() ==> is_member_name(members, (#[trigger] parts[k]).name@),
    ensures
        sum_count(members, parts) == parts.len(),
    decreases parts.len(),
{
    if parts.len() == 0 {
        assert(parts =~= Seq::<User>::empty());
        lemma_sum_count_empty(members);
    } else {
        let dl = parts.drop_last();
        assert(forall|k: int| 0 <= k < dl.len() ==> dl[k] == parts[k]);
        lemma_sum_count_total(members, dl);
        lemma_sum_count_step(members, parts);
        assert(is_member_name(members, parts.last().name@)) by {
            assert(parts[parts.len() - 1] == parts.last());
        }
        lemma_count_named_one(members, parts.last().name@);
    }
}

/// What one event contributes, summed over all members, factors into the
/// payer credit and the participant debits.
proof fn lemma_sum_delta_factor(members: Seq<User>, e: Expense, l: int)
    ensures
        sum_delta(members, e, l) == e.amount * l * count_named(members, e.payer.name@)
            - share_scaled(e, l) * sum_count(members, e.participants@),
    decreases members.len(),
{
    if members.len() == 0 {
        assert(e.amount * l * 0 == 0) by (nonlinear_arith);
        assert(share_scaled(e, l) * 0 == 0) by (nonlinear_arith);
    } else {
        let dl = members.drop_last();
        lemma_sum_delta_factor(dl, e, l);
        let al = e.amount * l;
        let s = share_scaled(e, l);
        let cn0 = count_named(dl, e.payer.name@);
        let cn1 = count_named(members, e.payer.name@);
        let sc0 = sum_count(dl, e.participants@);
        let sc1 = sum_count(members, e.participants@);
        let k = count_in(e.participants@, members.last().name@);
        let credit: int = if e.payer.name@ == members.last().name@ {
            al
        } else {
            0
        };
        assert(cn1 == cn0 + (if e.payer.name@ == members.last().name@ {
            1int
        } else {
            0int
        }));
        assert(sc1 == sc0 + k);
        assert(sum_delta(members, e, l) == (al * cn0 - s * sc0) + (credit - s * k));
        assert(al * cn1 == al * cn0 + (if e.payer.name@ == members.last().name@ {
            al
        } else {
            0int
        })) by (nonlinear_arith)
            requires
                cn1 == cn0 + (if e.payer.name@ == members.last().name@ {
                    1int
                } else {
                    0int
                }),
        ;
        assert(s * sc1 == s * sc0 + s * k) by (nonlinear_arith)
            requires
                sc1 == sc0 + k,
        ;
    }
}

/// One well-formed event leaves the sum of all balances unchanged.
proof fn lemma_sum_delta_zero(members: Seq<User>, e: Expense, l: int)
    requires
        distinct_names(members),
        event_wf(members, e),
        1 <= l,
        divides(e.participants@.len() as int, l),
    ensures
        sum_delta(members, e, l) == 0,
{
    lemma_sum_delta_factor(members, e, l);
    lemma_count_named_one(members, e.payer.name@);
    lemma_sum_count_total(members, e.participants@);
    lemma_share_exact(e, l);
    assert(e.amount * l * 1 == e.amount * l) by (nonlinear_arith);
}

proof fn lemma_sum_bal_empty(members: Seq<User>, events: Seq<Expense>, l: int)
    requires
        events.len() == 0,
    ensures
        sum_bal(members, events, l) == 0,
    decreases members.len(),
{
    if members.len() > 0 {
        lemma_sum_bal_empty(members.drop_last(), events, l);
    }
}

proof fn lemma_sum_bal_split(members: Seq<User>, events: Seq<Expense>, l: int)
    requires
        events.len() >= 1,
    ensures
        sum_bal(members, events, l) == sum_bal(members, events.drop_last(), l) + sum_delta(
            members,
            events.last(),
            l,
        ),
    decreases members.len(),
{
    if members.len() > 0 {
        lemma_sum_bal_split(members.drop_last(), events, l);
    }
}

proof fn lemma_zero_sum_events(members: Seq<User>, events: Seq<Expense>, l: int)
    requires
        distinct_names(members),
        forall|i: int| 0 <= i < events.len() ==> event_wf(members, #[trigger] events[i]),
        1 <= l,
        forall|i: int|
            0 <= i < events.len() ==> divides((#[trigger] events[i]).participants@.len() as int, l),
    ensures
        sum_bal(members, events, l) == 0,
    decreases events.len(),
{
    if events.len() == 0 {
        lemma_sum_bal_empty(members, events, l);
    } else {
        let dl = events.drop_last();
        assert(forall|i: int| 0 <= i < dl.len() ==> dl[i] == events[i]);
        lemma_zero_sum_events(members, dl, l);
        lemma_sum_bal_split(members, events, l);
        assert(events.last() == events[events.len() - 1]);
        lemma_sum_delta_zero(members, events.last(), l);
    }
}

/// Zero-sum law: in any well-formed group the member balances sum to
/// exactly zero, because every event credits its payer with precisely what
/// its participants are debited in shares.
pub proof fn lemma_balances_zero_sum(g: Group)
    requires
        group_wf(g),
    ensures
        sum_bal(g.members@, g.expenses@, scale(g.expenses@)) == 0,
{
    assert(counts_ok(g.expenses@));
    lemma_scale_props(g.expenses@);
    lemma_zero_sum_events(g.members@, g.expenses@, scale(g.expenses@));
}

/// The per-member balances of a group, in `1 / scale` cents.
pub struct Balances {
    pub scale: i128,
    pub entries: Vec<(String, i128)>,
}

/// What a balance query hands back.
pub struct BalanceResponse {
    pub balances: Balances,
}

/// Structural bounds on a balance table, enough to round its values safely.
pub open spec fn balances_wf(b: Balances) -> bool {
    &&& 1 <= b.scale <= SCALE_CAP
    &&& forall|i: int|
        0 <= i < b.entries@.len() ==> -(TOTAL_CAP * SCALE_CAP) <= (#[trigger] b.entries@[i]).1
            <= TOTAL_CAP * SCALE_CAP
}

/// The exact contract of the balance calculator: one entry per member, in
/// member order, holding that member's folded net balance.
pub open spec fn balances_ok(g: Group, r: Balances) -> bool {
    &&& r.scale == scale(g.expenses@)
    &&& r.entries@.len() == g.members@.len()
    &&& forall|i: int|
        0 <= i < g.members@.len() ==> (#[trigger] r.entries@[i]).0@ == g.members@[i].name@
            && r.entries@[i].1 == bal(g.expenses@, g.members@[i].name@, scale(g.expenses@))
}

/// A well-formed group has only positive amounts and populated events.
pub proof fn lemma_wf_events(g: Group)
    requires
        group_wf(g),
    ensures
        counts_ok(g.expenses@),
        amounts_ok(g.expenses@),
{
}

/// Compute the scale of an event log; `None` when it exceeds the cap.
pub fn compute_scale(events: &Vec<Expense>) -> (r: Option<i128>)
    requires
        counts_ok(events@),
    ensures
        match r {
            Some(l) => 1 <= l <= SCALE_CAP && l == scale(events@),
            None => scale(events@) > SCALE_CAP,
        },
{
    let n = events.len();
    let mut l: i128 = 1;
    let mut i: usize = 0;
    while i < n
        invariant
            0 <= i <= n,
            n == events@.len(),
            counts_ok(events@),
            1 <= l <= SCALE_CAP,
            l as int == scale(events@.take(i as int)),
        decreases n - i,
    {
        let c = events[i].participants.len();
        assert(c >= 1);
        let ci = c as i128;
        let g = gcd_i128(l, ci);
        proof {
            crate::arith::lemma_gcd(l as int, ci as int);
            lemma_divides_le(g as int, l as int);
        }
        let q = l / g;
        assert(q * ci <= SCALE_CAP * 0x1_0000_0000_0000_0000i128) by (nonlinear_arith)
            requires
                1 <= q,
                l as int == q * (g as int),
                l <= SCALE_CAP,
                1 <= g,
                1 <= ci < 0x1_0000_0000_0000_0000i128,
        ;
        let l2 = q * ci;
        proof {
            assert(l2 as int == lcm(l as int, ci as int));
            assert(events@.take(i + 1).drop_last() =~= events@.take(i as int));
            assert(events@.take(i + 1).last() == events@[i as int]);
            assert(scale(events@.take(i + 1)) == lcm(l as int, ci as int));
            lemma_lcm(l as int, ci as int);
        }
        if l2 > SCALE_CAP {
            proof {
                lemma_scale_prefix(events@, i + 1);
            }
            return None;
        }
        l = l2;
        i = i + 1;
    }
    proof {
        assert(events@.take(n as int) =~= events@);
    }
    Some(l)
}

/// Compute the total of an event log; `None` when it exceeds the cap.
pub fn compute_total(events: &Vec<Expense>) -> (r: Option<i128>)
    requires
        amounts_ok(events@),
    ensures
        match r {
            Some(t) => 0 <= t <= TOTAL_CAP && t == total(events@),
            None => total(events@) > TOTAL_CAP,
        },
{
    let n = events.len();
    let mut t: i128 = 0;
    let mut i: usize = 0;
    while i < n
        invariant
            0 <= i <= n,
            n == events@.len(),
            amounts_ok(events@),
            0 <= t <= TOTAL_CAP,
            t as int == total(events@.take(i as int)),
        decreases n - i,
    {
        let a = events[i].amount;
        assert(a > 0);
        proof {
            assert(events@.take(i + 1).drop_last() =~= events@.take(i as int));
            assert(events@.take(i + 1).last() == events@[i as int]);
        }
        let t2 = t + a as i128;
        if t2 > TOTAL_CAP {
            proof {
                lemma_total_prefix(events@, i + 1);
            }
            return None;
        }
        t = t2;
        i = i + 1;
    }
    proof {
        assert(events@.take(n as int) =~= events@);
    }
    Some(t)
}

/// Full runtime validation: the group is well formed and its log is within
/// the engine's caps.  Callers that receive data from outside check this
/// before invoking the engine.
pub fn check_group(g: &Group) -> (r: bool)
    ensures
        r == (group_wf(*g) && fits(g.expenses@)),
{
    if !crate::models::check_group_wf(g) {
        return false;
    }
    proof {
        lemma_wf_events(*g);
    }
    if compute_scale(&g.expenses).is_none() {
        return false;
    }
    if compute_total(&g.expenses).is_none() {
        return false;
    }
    true
}

/// Facts needed while folding event `x`, all derived from well-formedness
/// and the caps.
proof fn lemma_event_exec_facts(events: Seq<Expense>, x: int, l: int)
    requires
        counts_ok(events),
        amounts_ok(events),
        1 <= l <= SCALE_CAP,
        total(events) <= TOTAL_CAP,
        l == scale(events),
        0 <= x < events.len(),
    ensures
        divides(events[x].participants@.len() as int, l),
        0 < events[x].amount <= TOTAL_CAP,
        0 <= share_scaled(events[x], l),
        share_scaled(events[x], l) * events[x].participants@.len() as int == events[x].amount * l,
        share_scaled(events[x], l) <= events[x].amount * l,
        events[x].amount * l <= TOTAL_CAP * SCALE_CAP,
        0 <= total(events.take(x)),
        total(events.take(x)) + events[x].amount == total(events.take(x + 1)),
        total(events.take(x + 1)) <= total(events),
        forall|name: Seq<char>|
            -(total(events.take(x)) * l) <= #[trigger] bal(events.take(x), name, l) <= total(
                events.take(x),
            ) * l,
        total(events.take(x)) * l <= TOTAL_CAP * SCALE_CAP,
{
    lemma_scale_props(events);
    lemma_share_exact(events[x], l);
    lemma_total_prefix(events, x);
    lemma_total_prefix(events, x + 1);
    assert(events.take(x + 1).drop_last() =~= events.take(x));
    assert(events.take(x + 1).last() == events[x]);
    assert(events[x].amount <= TOTAL_CAP);
    assert(events[x].amount * l <= TOTAL_CAP * SCALE_CAP) by (nonlinear_arith)
        requires
            0 < events[x].amount <= TOTAL_CAP,
            1 <= l <= SCALE_CAP,
    ;
    assert(counts_ok(events.take(x)) && amounts_ok(events.take(x))) by {
        assert(forall|k: int| 0 <= k < x ==> events.take(x)[k] == events[k]);
    }
    assert forall|name: Seq<char>|
        -(total(events.take(x)) * l) <= #[trigger] bal(events.take(x), name, l) <= total(
            events.take(x),
        ) * l by {
        lemma_bal_bound(events.take(x), name, l);
    }
    assert(total(events.take(x)) * l <= TOTAL_CAP * SCALE_CAP) by (nonlinear_arith)
        requires
            0 <= total(events.take(x)) <= TOTAL_CAP,
            1 <= l <= SCALE_CAP,
    ;
}

/// Compute the net balance of every member: each event credits its payer
/// with the full amount and debits every participant with an exact share.
pub fn calculate_balances(group: &Group) -> (r: Balances)
    requires
        group_wf(*group),
        fits(group.expenses@),
    ensures
        balances_ok(*group, r),
        balances_wf(r),
{
    proof {
        lemma_wf_events(*group);
    }
    let l = compute_scale(&group.expenses).unwrap();
    let m = group.members.len();
    let mut vals: Vec<i128> = Vec::new();
    let mut k: usize = 0;
    while k < m
        invariant
            0 <= k <= m,
            vals@.len() == k,
            forall|j: int| 0 <= j < k ==> vals@[j] == 0,
        decreases m - k,
    {
        vals.push(0);
        k = k + 1;
    }
    let n = group.expenses.len();
    let ghost events = group.expenses@;
    let ghost members = group.members@;
    proof {
        assert(events.take(0) =~= Seq::<Expense>::empty());
    }
    let mut x: usize = 0;
    while x < n
        invariant
            0 <= x <= n,
            n == events.len(),
            m == members.len(),
            vals@.len() == m,
            events == group.expenses@,
            members == group.members@,
            group_wf(*group),
            fits(events),
            counts_ok(events),
            amounts_ok(events),
            1 <= l <= SCALE_CAP,
            l as int == scale(events),
            forall|j: int|
                0 <= j < m ==> #[trigger] vals@[j] == bal(
                    events.take(x as int),
                    members[j].name@,
                    l as int,
                ),
        decreases n - x,
    {
        proof {
            lemma_event_exec_facts(events, x as int, l as int);
        }
        let e = &group.expenses[x];
        let ai = e.amount as i128;
        let c = e.participants.len();
        let ci = c as i128;
        let li_c = l / ci;
        proof {
            lemma_divides_le(ci as int, l as int);
        }
        let share = ai * li_c;
        proof {
            assert(share == share_scaled(events[x as int], l as int));
        }
        let pi = find_member(&group.members, &e.payer.name).unwrap();
        let ghost tp = total(events.take(x as int));
        let cur = vals[pi];
        vals.set(pi, cur + ai * l);
        proof {
            assert forall|j: int| 0 <= j < m implies #[trigger] vals@[j] == bal(
                events.take(x as int),
                members[j].name@,
                l as int,
            ) + credit(events[x as int], members[j].name@, l as int) by {
                if j != pi {
                    assert(members[j].name@ != members[pi as int].name@);
                }
            }
        }
        let np = e.participants.len();
        let mut p: usize = 0;
        while p < np
            invariant
                0 <= p <= np,
                0 <= x < n,
                n == events.len(),
                m == members.len(),
                vals@.len() == m,
                events == group.expenses@,
                members == group.members@,
                group_wf(*group),
                fits(events),
                counts_ok(events),
                amounts_ok(events),
                1 <= l <= SCALE_CAP,
                l as int == scale(events),
                *e == events[x as int],
                np == e.participants@.len(),
                share == share_scaled(events[x as int], l as int),
                forall|j: int|
                    0 <= j < m ==> #[trigger] vals@[j] == bal(
                        events.take(x as int),
                        members[j].name@,
                        l as int,
                    ) + credit(events[x as int], members[j].name@, l as int) - share_scaled(
                        events[x as int],
                        l as int,
                    ) * count_in(e.participants@.take(p as int), members[j].name@),
            decreases np - p,
        {
            proof {
                lemma_event_exec_facts(events, x as int, l as int);
            }
            let qi = find_member(&group.members, &e.participants[p].name).unwrap();
            let cur2 = vals[qi];
            proof {
                lemma_count_in_bounds(e.participants@.take(p as int), members[qi as int].name@);
                lemma_count_in_bounds(e.participants@.take(p + 1), members[qi as int].name@);
                assert(e.participants@.take(p + 1).drop_last() =~= e.participants@.take(p as int));
                assert(e.participants@.take(p + 1).last() == e.participants@[p as int]);
                let s = share_scaled(events[x as int], l as int);
                let al = events[x as int].amount * l;
                assert forall|kk: int| 0 <= kk <= np implies 0 <= s * count_in(
                    #[trigger] e.participants@.take(kk),
                    members[qi as int].name@,
                ) <= al by {
                    lemma_count_in_bounds(e.participants@.take(kk), members[qi as int].name@);
                    assert(0 <= s * count_in(e.participants@.take(kk), members[qi as int].name@)
                        <= al) by (nonlinear_arith)
                        requires
                            0 <= s,
                            s * (np as int) == al,
                            0 <= count_in(e.participants@.take(kk), members[qi as int].name@)
                                <= kk <= np,
                    ;
                }
            }
            vals.set(qi, cur2 - share);
            proof {
                assert forall|j: int| 0 <= j < m implies #[trigger] vals@[j] == bal(
                    events.take(x as int),
                    members[j].name@,
                    l as int,
                ) + credit(events[x as int], members[j].name@, l as int) - share_scaled(
                    events[x as int],
                    l as int,
                ) * count_in(e.participants@.take(p + 1), members[j].name@) by {
                    assert(e.participants@.take(p + 1).drop_last() =~= e.participants@.take(
                        p as int,
                    ));
                    assert(e.participants@.take(p + 1).last() == e.participants@[p as int]);
                    let s = share_scaled(events[x as int], l as int);
                    let k0 = count_in(e.participants@.take(p as int), members[j].name@);
                    let k1 = count_in(e.participants@.take(p + 1), members[j].name@);
                    if j == qi {
                        assert(e.participants@[p as int].name@ == members[j].name@);
                        assert(k1 == k0 + 1);
                        assert(s * k1 == s * k0 + s) by (nonlinear_arith)
                            requires
                                k1 == k0 + 1,
                        ;
                    } else {
                        assert(members[j].name@ != members[qi as int].name@);
                        assert(e.participants@[p as int].name@ != members[j].name@);
                        assert(k1 == k0);
                    }
                }
            }
            p = p + 1;
        }
        proof {
            assert(e.participants@.take(np as int) =~= e.participants@);
            assert(events.take(x + 1).drop_last() =~= events.take(x as int));
            assert(events.take(x + 1).last() == events[x as int]);
            assert forall|j: int| 0 <= j < m implies #[trigger] vals@[j] == bal(
                events.take(x + 1),
                members[j].name@,
                l as int,
            ) by {
                assert(event_delta(events[x as int], members[j].name@, l as int) == credit(
                    events[x as int],
                    members[j].name@,
                    l as int,
                ) - share_scaled(events[x as int], l as int) * count_in(
                    e.participants@,
                    members[j].name@,
                ));
            }
        }
        x = x + 1;
    }
    proof {
        assert(events.take(n as int) =~= events);
        lemma_total_prefix(events, n as int);
        assert forall|j: int| 0 <= j < m implies -(TOTAL_CAP * SCALE_CAP) <= #[trigger] vals@[j]
            <= TOTAL_CAP * SCALE_CAP by {
            lemma_scale_props(events);
            lemma_bal_bound(events, members[j].name@, l as int);
            assert(total(events) * l <= TOTAL_CAP * SCALE_CAP && -(total(events) * l) >= -(
            TOTAL_CAP * SCALE_CAP)) by (nonlinear_arith)
                requires
                    0 <= total(events) <= TOTAL_CAP,
                    1 <= l <= SCALE_CAP,
            ;
        }
    }
    let mut entries: Vec<(String, i128)> = Vec::new();
    let mut k2: usize = 0;
    while k2 < m
        invariant
            0 <= k2 <= m,
            m == group.members@.len(),
            vals@.len() == m,
            entries@.len() == k2,
            forall|j: int|
                0 <= j < k2 ==> (#[trigger] entries@[j]).0@ == group.members@[j].name@
                    && entries@[j].1 == vals@[j],
        decreases m - k2,
    {
        entries.push((group.members[k2].name.clone(), vals[k2]));
        k2 = k2 + 1;
    }
    Balances { scale: l, entries }
}

/// The credit side of one event for one name.
pub open spec fn credit(e: Expense, name: Seq<char>, l: int) -> int {
    if e.payer.name@ == name {
        e.amount * l
    } else {
        0int
    }
}

impl Balances {
    /// The scaled balance of the first entry carrying `name`.
    pub fn get_scaled(&self, name: &str) -> (r: Option<i128>)
        ensures
            match r {
                Some(v) => exists|i: int|
                    0 <= i < self.entries@.len() && (#[trigger] self.entries@[i]).0@ == name@
                        && self.entries@[i].1 == v,
                None => forall|i: int|
                    0 <= i < self.entries@.len() ==> (#[trigger] self.entries@[i]).0@ != name@,
            },
    {
        let n = self.entries.len();
        let mut i: usize = 0;
        while i < n
            invariant
                0 <= i <= n,
                n == self.entries@.len(),
                forall|k: int| 0 <= k < i ==> (#[trigger] self.entries@[k]).0@ != name@,
            decreases n - i,
        {
            if crate::names::str_eq(self.entries[i].0.as_str(), name) {
                return Some(self.entries[i].1);
            }
            i = i + 1;
        }
        None
    }

    /// The balance of `name` rounded to whole cents, halves away from zero;
    /// `None` when no entry carries that name.
    pub fn cents(&self, name: &str) -> (r: Option<i128>)
        requires
            balances_wf(*self),
        ensures
            match r {
                Some(v) => exists|i: int|
                    0 <= i < self.entries@.len() && (#[trigger] self.entries@[i]).0@ == name@
                        && v == crate::arith::round_cents(self.entries@[i].1 as int, self.scale as int),
                None => forall|i: int|
                    0 <= i < self.entries@.len() ==> (#[trigger] self.entries@[i]).0@ != name@,
            },
    {
        let found = self.get_scaled(name);
        match found {
            None => None,
            Some(v) => {
                if v >= 0 {
                    Some(crate::arith::round_div_i128(v, self.scale))
                } else {
                    Some(-crate::arith::round_div_i128(-v, self.scale))
                }
            },
        }
    }
}

/// Equal-split law: a single expense of amount `a`, paid by one of two
/// members and split between both, leaves the payer owed exactly `a / 2`
/// and the other member owing exactly `a / 2` (here in half cents: the
/// scale of such a log is 2).
pub proof fn lemma_equal_split(g: Group)
    requires
        group_wf(g),
        g.members@.len() == 2,
        g.expenses@.len() == 1,
        g.expenses@[0].participants@.len() == 2,
        g.expenses@[0].payer.name@ == g.members@[0].name@,
        count_in(g.expenses@[0].participants@, g.members@[0].name@) == 1,
        count_in(g.expenses@[0].participants@, g.members@[1].name@) == 1,
    ensures
        scale(g.expenses@) == 2,
        bal(g.expenses@, g.members@[0].name@, 2) == g.expenses@[0].amount,
        bal(g.expenses@, g.members@[1].name@, 2) == -g.expenses@[0].amount,
{
    let e = g.expenses@[0];
    let a = e.amount as int;
    assert(g.expenses@.drop_last() =~= Seq::<Expense>::empty());
    assert(g.expenses@.last() == e);
    assert(scale(Seq::<Expense>::empty()) == 1);
    assert(bal(Seq::<Expense>::empty(), g.members@[0].name@, 2) == 0);
    assert(bal(Seq::<Expense>::empty(), g.members@[1].name@, 2) == 0);
    assert(scale(g.expenses@) == lcm(1, 2));
    assert(gcd(1, 2) == 1) by {
        assert(1int % 2int == 1);
        assert(gcd(1, 2) == gcd(2, 1));
        assert(2int % 1int == 0);
        assert(gcd(2, 1) == gcd(1, 0));
        assert(gcd(1, 0) == 1);
    }
    assert(lcm(1, 2) == 2);
    assert(share_scaled(e, 2) == a * (2int / 2));
    assert(a * 1 == a) by (nonlinear_arith);
    assert(a * 2 == 2 * a) by (nonlinear_arith);
    assert(g.members@[0].name@ != g.members@[1].name@);
    assert(event_delta(e, g.members@[0].name@, 2) == a * 2 - a * 1);
    assert(event_delta(e, g.members@[1].name@, 2) == 0 - a * 1);
    assert(bal(g.expenses@, g.members@[0].name@, 2) == event_delta(e, g.members@[0].name@, 2));
    assert(bal(g.expenses@, g.members@[1].name@, 2) == event_delta(e, g.members@[1].name@, 2));
}

/// Empty-log law: with no events every member's balance is zero.
pub proof fn lemma_empty_group_balances(g: Group, name: Seq<char>)
    requires
        g.expenses@.len() == 0,
    ensures
        scale(g.expenses@) == 1,
        bal(g.expenses@, name, scale(g.expenses@)) == 0,
{
}

} // verus!
