//! Settlement annotation and policy dispatch.
//!
//! Proposed settlements are cross-referenced against the group's
//! settled-pair records: a settlement is marked settled exactly when a
//! record with the same directional `(from, to)` pair exists.  The match is
//! by pair identity alone — amounts are not compared, a behavior the
//! surrounding system relies on.  `get_settlements` picks the resolver by
//! the group's policy flag and always annotates the result.

use crate::balances::fits;
use crate::models::{group_wf, Group, SettledSettlement, Settlement};
use crate::names::str_eq;
use crate::pairwise::pairwise_output_ok;
use crate::simplify::{simplified_model, triples_view};
use vstd::pervasive::VecAdditionalExecFns;
use vstd::prelude::*;

verus! {

/// What a settlement query hands back.
pub struct SettlementsResponse {
    pub settlements: Vec<Settlement>,
}

/// A settled-pair record for the directional pair `(from, to)` exists.
pub open spec fn is_settled_pair(
    recs: Seq<SettledSettlement>,
    from: Seq<char>,
    to: Seq<char>,
) -> bool {
    exists|i: int| 0 <= i < recs.len() && (#[trigger] recs[i]).from@ == from && recs[i].to@ == to
}

/// `t` is `s` annotated against `recs`: same transfers, with `settled` set
/// exactly when the directional pair has a settled-pair record.
pub open spec fn annotated(
    s: Seq<Settlement>,
    recs: Seq<SettledSettlement>,
    t: Seq<Settlement>,
) -> bool {
    &&& t.len() == s.len()
    &&& forall|k: int|
        0 <= k < s.len() ==> {
            &&& (#[trigger] t[k]).from@ == s[k].from@
            &&& t[k].to@ == s[k].to@
            &&& t[k].amount == s[k].amount
            &&& t[k].settled == is_settled_pair(recs, s[k].from@, s[k].to@)
        }
}

/// Does any record mark this directional pair as settled?
pub fn pair_is_settled(recs: &Vec<SettledSettlement>, from: &String, to: &String) -> (r: bool)
    ensures
        r == is_settled_pair(recs@, from@, to@),
{
    let n = recs.len();
    let mut i: usize = 0;
    while i < n
        invariant
            0 <= i <= n,
            n == recs@.len(),
            forall|k: int|
                0 <= k < i ==> !((#[trigger] recs@[k]).from@ == from@ && recs@[k].to@ == to@),
        decreases n - i,
    {
        if str_eq(recs[i].from.as_str(), from.as_str()) && str_eq(
            recs[i].to.as_str(),
            to.as_str(),
        ) {
            return true;
        }
        i = i + 1;
    }
    false
}

/// Mark each settlement settled exactly when its directional pair has a
/// settled-pair record; everything else is left untouched.
pub fn annotate(settlements: &mut Vec<Settlement>, records: &Vec<SettledSettlement>)
    ensures
        annotated(old(settlements)@, records@, final(settlements)@),
{
    let ghost orig = settlements@;
    let n = settlements.len();
    let mut k: usize = 0;
    while k < n
        invariant
            0 <= k <= n,
            n == settlements@.len(),
            n == orig.len(),
            forall|p: int| k <= p < n ==> #[trigger] settlements@[p] == orig[p],
            forall|p: int|
                0 <= p < k ==> {
                    &&& (#[trigger] settlements@[p]).from@ == orig[p].from@
                    &&& settlements@[p].to@ == orig[p].to@
                    &&& settlements@[p].amount == orig[p].amount
                    &&& settlements@[p].settled == is_settled_pair(
                        records@,
                        orig[p].from@,
                        orig[p].to@,
                    )
                },
        decreases n - k,
    {
        let flag = pair_is_settled(records, &settlements[k].from, &settlements[k].to);
        let from0 = settlements[k].from.clone();
        let to0 = settlements[k].to.clone();
        let amount0 = settlements[k].amount;
        settlements.set(k, Settlement { from: from0, to: to0, amount: amount0, settled: flag });
        k = k + 1;
    }
}

/// Annotator idempotence law: annotating an already annotated list yields
/// the same transfers with the same `settled` flags, because the flag
/// depends only on the `(from, to)` pair and annotation never changes it.
pub proof fn lemma_annotate_idempotent(
    s: Seq<Settlement>,
    recs: Seq<SettledSettlement>,
    t: Seq<Settlement>,
    u: Seq<Settlement>,
)
    requires
        annotated(s, recs, t),
        annotated(t, recs, u),
    ensures
        u.len() == t.len(),
        forall|k: int|
            0 <= k < t.len() ==> {
                &&& (#[trigger] u[k]).from@ == t[k].from@
                &&& u[k].to@ == t[k].to@
                &&& u[k].amount == t[k].amount
                &&& u[k].settled == t[k].settled
            },
{
}

/// The settlements of a group under its policy flag, annotated against its
/// settled-pair records: the minimal-transaction resolver when
/// `simplify_debts` is set, the stable pairwise resolver otherwise.
pub fn get_settlements(group: &Group) -> (r: Vec<Settlement>)
    requires
        group_wf(*group),
        fits(group.expenses@),
    ensures
        exists|raw: Seq<Settlement>|
            {
                &&& if group.simplify_debts {
                    triples_view(raw) == simplified_model(*group)
                } else {
                    pairwise_output_ok(*group, raw)
                }
                &&& forall|k: int| 0 <= k < raw.len() ==> !(#[trigger] raw[k]).settled
                &&& forall|k: int|
                    0 <= k < raw.len() ==> (#[trigger] raw[k]).from@ != raw[k].to@
                        && raw[k].amount >= 2
                &&& #[trigger] annotated(raw, group.settled_settlements@, r@)
            },
        forall|k: int|
            0 <= k < r@.len() ==> (#[trigger] r@[k]).from@ != r@[k].to@ && r@[k].amount >= 2,
        forall|k: int|
            0 <= k < r@.len() ==> (#[trigger] r@[k]).settled == is_settled_pair(
                group.settled_settlements@,
                r@[k].from@,
                r@[k].to@,
            ),
{
    let mut s: Vec<Settlement> = if group.simplify_debts {
        crate::simplify::calculate_simplified_settlements(group)
    } else {
        crate::pairwise::calculate_settlements(group)
    };
    let ghost raw = s@;
    proof {
        if !group.simplify_debts {
            assert forall|k: int| 0 <= k < raw.len() implies (#[trigger] raw[k]).from@
                != raw[k].to@ && raw[k].amount >= 2 by {
                assert(crate::pairwise::pair_emits(*group, raw[k].from@, raw[k].to@));
            }
        }
    }
    annotate(&mut s, &group.settled_settlements);
    proof {
        assert(annotated(raw, group.settled_settlements@, s@));
    }
    s
}

} // verus!
