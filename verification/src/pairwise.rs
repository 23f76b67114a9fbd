//! Pairwise settlement resolver.
//!
//! For every pair of members the events induce a directed debt: each event
//! adds one share to what every participant other than the payer owes the
//! payer.  The two directions of a pair are netted, the net is rounded to
//! whole cents, and one settlement per pair is emitted when the rounded
//! net exceeds the one-cent threshold.  The output is sorted by
//! `(from, to)` and is deterministic: it is pinned down completely by the
//! soundness, completeness and sortedness clauses of
//! [`pairwise_output_ok`].
//!
//! This policy is stable: the settlement of a pair depends only on the
//! events in which one of the two is the payer and the other participates,
//! so unrelated events never perturb it (see
//! [`lemma_pairwise_stability`]).

use crate::arith::{divides, lemma_divides_le, lemma_divides_trans, lemma_round_div_bounds, lemma_round_div_le,
    round_div, round_div_i128};
use crate::balances::{
    amounts_ok, compute_scale, count_in, counts_ok, fits, lemma_count_in_bounds,
    lemma_scale_props, lemma_share_exact, lemma_total_prefix, lemma_wf_events, scale,
    share_scaled, total, SCALE_CAP, TOTAL_CAP,
};
use crate::models::{
    distinct_names, group_wf, is_member_name, Expense, Group, Settlement, User,
};
use crate::names::{lemma_lex_lt_total, lemma_lex_lt_trans, lex_lt, str_eq, str_lt};
use vstd::prelude::*;

verus! {

/// What one event adds to the directed debt of `debtor` towards `payer`:
/// one share per occurrence of the debtor among the participants, when the
/// event's payer is `payer` and the debtor is someone else.
pub open spec fn contribution(e: Expense, debtor: Seq<char>, payer: Seq<char>, l: int) -> int {
    if e.payer.name@ == payer && debtor != payer {
        share_scaled(e, l) * count_in(e.participants@, debtor)
    } else {
        0int
    }
}

/// Directed scaled debt accumulated over the log: what `debtor` owes
/// `payer`, in `1 / l` cents.
pub open spec fn pair_debt(events: Seq<Expense>, debtor: Seq<char>, payer: Seq<char>, l: int) -> int
    decreases events.len(),
{
    if events.len() == 0 {
        0
    } else {
        pair_debt(events.drop_last(), debtor, payer, l) + contribution(
            events.last(),
            debtor,
            payer,
            l,
        )
    }
}

/// The net scaled debt of the pair: positive when `a` owes `b`.
pub open spec fn net_debt(events: Seq<Expense>, a: Seq<char>, b: Seq<char>, l: int) -> int {
    pair_debt(events, a, b, l) - pair_debt(events, b, a, l)
}

/// The pair `(a, b)` gives rise to a settlement: `a` owes `b` a positive
/// net that still exceeds one cent after rounding.
pub open spec fn pair_emits(g: Group, a: Seq<char>, b: Seq<char>) -> bool {
    let l = scale(g.expenses@);
    &&& is_member_name(g.members@, a)
    &&& is_member_name(g.members@, b)
    &&& net_debt(g.expenses@, a, b, l) > 0
    &&& round_div(net_debt(g.expenses@, a, b, l), l) >= 2
}

/// Strict order on settlements by `(from, to)`.
pub open spec fn settlement_key_lt(s1: Settlement, s2: Settlement) -> bool {
    lex_lt(s1.from@, s2.from@) || (s1.from@ == s2.from@ && lex_lt(s1.to@, s2.to@))
}

/// Some settlement from `a` to `b` occurs in the output.
pub open spec fn has_pair(out: Seq<Settlement>, a: Seq<char>, b: Seq<char>) -> bool {
    exists|k: int| 0 <= k < out.len() && (#[trigger] out[k]).from@ == a && out[k].to@ == b
}

/// The full contract of the pairwise resolver: every entry is a correctly
/// rounded positive net between two distinct members (soundness), every
/// qualifying pair appears (completeness), and the output is strictly
/// sorted by `(from, to)` — which also makes it duplicate-free and hence
/// unique.
pub open spec fn pairwise_output_ok(g: Group, out: Seq<Settlement>) -> bool {
    let l = scale(g.expenses@);
    &&& forall|k: int|
        0 <= k < out.len() ==> {
            &&& pair_emits(g, (#[trigger] out[k]).from@, out[k].to@)
            &&& out[k].amount == round_div(net_debt(g.expenses@, out[k].from@, out[k].to@, l), l)
            &&& out[k].settled == false
            &&& out[k].from@ != out[k].to@
            &&& out[k].amount >= 2
        }
    &&& forall|a: Seq<char>, b: Seq<char>| #[trigger] pair_emits(g, a, b) ==> has_pair(out, a, b)
    &&& forall|k1: int, k2: int|
        0 <= k1 < k2 < out.len() ==> settlement_key_lt(out[k1], out[k2])
}

/// Nobody owes themselves anything.
pub proof fn lemma_self_debt_zero(events: Seq<Expense>, a: Seq<char>, l: int)
    ensures
        pair_debt(events, a, a, l) == 0,
        net_debt(events, a, a, l) == 0,
    decreases events.len(),
{
    if events.len() > 0 {
        lemma_self_debt_zero(events.drop_last(), a, l);
    }
}

/// One event's contribution is bounded by its scaled amount.
proof fn lemma_contribution_bound(e: Expense, debtor: Seq<char>, payer: Seq<char>, l: int)
    requires
        e.participants@.len() >= 1,
        e.amount > 0,
        1 <= l,
        divides(e.participants@.len() as int, l),
    ensures
        0 <= contribution(e, debtor, payer, l) <= e.amount * l,
{
    lemma_share_exact(e, l);
    lemma_count_in_bounds(e.participants@, debtor);
    let s = share_scaled(e, l);
    let c = e.participants@.len() as int;
    let k = count_in(e.participants@, debtor);
    assert(0 <= s * k <= e.amount * l) by (nonlinear_arith)
        requires
            0 <= s,
            0 <= k <= c,
            s * c == e.amount * l,
    ;
}

/// Directed debts are bounded by the scaled total of the log.
pub proof fn lemma_pair_debt_bound(events: Seq<Expense>, a: Seq<char>, b: Seq<char>, l: int)
    requires
        counts_ok(events),
        amounts_ok(events),
        1 <= l,
        forall|i: int|
            0 <= i < events.len() ==> divides((#[trigger] events[i]).participants@.len() as int, l),
    ensures
        0 <= pair_debt(events, a, b, l) <= total(events) * l,
    decreases events.len(),
{
    if events.len() == 0 {
    } else {
        let dl = events.drop_last();
        let e = events.last();
        assert(forall|i: int| 0 <= i < dl.len() ==> dl[i] == events[i]);
        lemma_pair_debt_bound(dl, a, b, l);
        lemma_contribution_bound(e, a, b, l);
        assert((total(dl) + e.amount) * l == total(dl) * l + e.amount * l) by (nonlinear_arith);
    }
}

/// How often `name` occurs among the participants, executable.
pub fn count_occ(parts: &Vec<User>, name: &String) -> (r: usize)
    ensures
        r == count_in(parts@, name@),
{
    let n = parts.len();
    let mut cnt: usize = 0;
    let mut p: usize = 0;
    while p < n
        invariant
            0 <= p <= n,
            n == parts@.len(),
            cnt <= p,
            cnt as int == count_in(parts@.take(p as int), name@),
        decreases n - p,
    {
        proof {
            assert(parts@.take(p + 1).drop_last() =~= parts@.take(p as int));
            assert(parts@.take(p + 1).last() == parts@[p as int]);
            lemma_count_in_bounds(parts@.take(p as int), name@);
        }
        if str_eq(parts[p].name.as_str(), name.as_str()) {
            cnt = cnt + 1;
        }
        p = p + 1;
    }
    proof {
        assert(parts@.take(n as int) =~= parts@);
    }
    cnt
}

/// The net scaled debt of `a` towards `b`, executable.
fn pair_net(group: &Group, a: &String, b: &String, l: i128) -> (r: i128)
    requires
        group_wf(*group),
        fits(group.expenses@),
        1 <= l <= SCALE_CAP,
        l as int == scale(group.expenses@),
        a@ != b@,
    ensures
        r == net_debt(group.expenses@, a@, b@, l as int),
        -(total(group.expenses@) * l) <= r <= total(group.expenses@) * l,
{
    proof {
        lemma_wf_events(*group);
        lemma_scale_props(group.expenses@);
    }
    let ghost events = group.expenses@;
    let n = group.expenses.len();
    let mut acc: i128 = 0;
    let mut x: usize = 0;
    while x < n
        invariant
            0 <= x <= n,
            n == events.len(),
            events == group.expenses@,
            group_wf(*group),
            fits(events),
            counts_ok(events),
            amounts_ok(events),
            1 <= l <= SCALE_CAP,
            l as int == scale(events),
            a@ != b@,
            forall|i: int|
                0 <= i < events.len() ==> divides(
                    (#[trigger] events[i]).participants@.len() as int,
                    l as int,
                ),
            acc as int == net_debt(events.take(x as int), a@, b@, l as int),
        decreases n - x,
    {
        proof {
            assert(counts_ok(events.take(x as int)) && amounts_ok(events.take(x as int))) by {
                assert(forall|k: int| 0 <= k < x ==> events.take(x as int)[k] == events[k]);
            }
            assert(forall|i: int|
                0 <= i < x ==> divides(
                    (#[trigger] events.take(x as int)[i]).participants@.len() as int,
                    l as int,
                ));
            lemma_pair_debt_bound(events.take(x as int), a@, b@, l as int);
            lemma_pair_debt_bound(events.take(x as int), b@, a@, l as int);
            lemma_total_prefix(events, x as int);
            lemma_total_prefix(events, x + 1);
            assert(events.take(x + 1).drop_last() =~= events.take(x as int));
            assert(events.take(x + 1).last() == events[x as int]);
            assert(total(events.take(x as int)) * (l as int) <= TOTAL_CAP * SCALE_CAP)
                by (nonlinear_arith)
                requires
                    0 <= total(events.take(x as int)) <= TOTAL_CAP,
                    1 <= l <= SCALE_CAP,
            ;
        }
        let e = &group.expenses[x];
        let ai = e.amount as i128;
        let ci = e.participants.len() as i128;
        proof {
            lemma_share_exact(events[x as int], l as int);
            lemma_divides_le(ci as int, l as int);
            assert(events[x as int].amount <= TOTAL_CAP) by {
                lemma_total_prefix(events, x + 1);
            }
            assert(events[x as int].amount * l <= TOTAL_CAP * SCALE_CAP) by (nonlinear_arith)
                requires
                    0 < events[x as int].amount <= TOTAL_CAP,
                    1 <= l <= SCALE_CAP,
            ;
        }
        let share = ai * (l / ci);
        let c_ab: i128;
        let c_ba: i128;
        if str_eq(e.payer.name.as_str(), b.as_str()) {
            let cnt = count_occ(&e.participants, a);
            proof {
                lemma_count_in_bounds(e.participants@, a@);
                assert(0 <= share * (cnt as int) <= events[x as int].amount * l)
                    by (nonlinear_arith)
                    requires
                        0 <= share,
                        0 <= cnt as int <= ci as int,
                        share * (ci as int) == events[x as int].amount * l,
                ;
            }
            c_ab = share * (cnt as i128);
            c_ba = 0;
        } else if str_eq(e.payer.name.as_str(), a.as_str()) {
            let cnt = count_occ(&e.participants, b);
            proof {
                lemma_count_in_bounds(e.participants@, b@);
                assert(0 <= share * (cnt as int) <= events[x as int].amount * l)
                    by (nonlinear_arith)
                    requires
                        0 <= share,
                        0 <= cnt as int <= ci as int,
                        share * (ci as int) == events[x as int].amount * l,
                ;
            }
            c_ab = 0;
            c_ba = share * (cnt as i128);
        } else {
            c_ab = 0;
            c_ba = 0;
        }
        proof {
            assert(c_ab as int == contribution(events[x as int], a@, b@, l as int));
            assert(c_ba as int == contribution(events[x as int], b@, a@, l as int));
        }
        acc = acc + c_ab - c_ba;
        x = x + 1;
    }
    proof {
        assert(events.take(n as int) =~= events);
        lemma_pair_debt_bound(events, a@, b@, l as int);
        lemma_pair_debt_bound(events, b@, a@, l as int);
    }
    acc
}

/// `v` occurs in the index list.
pub open spec fn contains_index(r: Seq<usize>, v: int) -> bool {
    exists|p: int| 0 <= p < r.len() && (#[trigger] r[p]) == v
}

/// Member indices ordered by member name.
fn sorted_member_indices(members: &Vec<User>) -> (r: Vec<usize>)
    requires
        distinct_names(members@),
    ensures
        r@.len() == members@.len(),
        forall|p: int| 0 <= p < r@.len() ==> (#[trigger] r@[p]) < members@.len(),
        forall|p1: int, p2: int|
            0 <= p1 < p2 < r@.len() ==> lex_lt(
                members@[r@[p1] as int].name@,
                members@[r@[p2] as int].name@,
            ),
        forall|v: int| 0 <= v < members@.len() ==> #[trigger] contains_index(r@, v),
    decreases 0int,
{
    let m = members.len();
    let mut r: Vec<usize> = Vec::new();
    let mut v: usize = 0;
    while v < m
        invariant
            0 <= v <= m,
            m == members@.len(),
            distinct_names(members@),
            r@.len() == v,
            forall|p: int| 0 <= p < r@.len() ==> (#[trigger] r@[p]) < v,
            forall|p1: int, p2: int|
                0 <= p1 < p2 < r@.len() ==> lex_lt(
                    members@[r@[p1] as int].name@,
                    members@[r@[p2] as int].name@,
                ),
            forall|w: int| 0 <= w < v ==> #[trigger] contains_index(r@, w),
        decreases m - v,
    {
        let mut pos: usize = 0;
        let rl = r.len();
        while pos < rl
            invariant
                0 <= pos <= rl,
                rl == r@.len(),
                v < m,
                m == members@.len(),
                forall|p: int| 0 <= p < r@.len() ==> (#[trigger] r@[p]) < v,
                forall|p: int|
                    0 <= p < pos ==> lex_lt(
                        members@[(#[trigger] r@[p]) as int].name@,
                        members@[v as int].name@,
                    ),
            ensures
                0 <= pos <= rl,
                pos < rl ==> !lex_lt(
                    members@[r@[pos as int] as int].name@,
                    members@[v as int].name@,
                ),
            decreases rl - pos,
        {
            if str_lt(members[r[pos]].name.as_str(), members[v].name.as_str()) {
                pos = pos + 1;
            } else {
                break;
            }
        }
        let ghost old_r = r@;
        r.insert(pos, v);
        proof {
            assert(r@ =~= old_r.take(pos as int) + seq![v] + old_r.skip(pos as int));
            assert forall|p: int| 0 <= p < r@.len() implies (#[trigger] r@[p]) < v + 1 by {
                if p < pos {
                    assert(r@[p] == old_r[p]);
                } else if p > pos {
                    assert(r@[p] == old_r[p - 1]);
                }
            }
            // the new element is ordered against everything already there
            assert forall|p: int| 0 <= p < old_r.len() && p >= pos implies lex_lt(
                members@[v as int].name@,
                members@[old_r[p] as int].name@,
            ) by {
                // old_r[pos] is not below v's name, and names are distinct
                assert(old_r[p] < v);
                assert(members@[old_r[p] as int].name@ != members@[v as int].name@);
                if p == pos {
                    lemma_lex_lt_total(members@[v as int].name@, members@[old_r[p] as int].name@);
                } else {
                    assert(!lex_lt(
                        members@[old_r[pos as int] as int].name@,
                        members@[v as int].name@,
                    ));
                    assert(members@[old_r[pos as int] as int].name@ != members@[v as int].name@);
                    lemma_lex_lt_total(
                        members@[v as int].name@,
                        members@[old_r[pos as int] as int].name@,
                    );
                    lemma_lex_lt_trans(
                        members@[v as int].name@,
                        members@[old_r[pos as int] as int].name@,
                        members@[old_r[p] as int].name@,
                    );
                }
            }
            assert forall|p1: int, p2: int| 0 <= p1 < p2 < r@.len() implies lex_lt(
                members@[(#[trigger] r@[p1]) as int].name@,
                members@[(#[trigger] r@[p2]) as int].name@,
            ) by {
                if p1 < pos && p2 < pos {
                } else if p1 < pos && p2 == pos {
                    assert(r@[p1] == old_r[p1] && r@[p2] == v);
                } else if p1 < pos && p2 > pos {
                    assert(r@[p1] == old_r[p1] && r@[p2] == old_r[p2 - 1]);
                } else if p1 == pos {
                    assert(r@[p1] == v && r@[p2] == old_r[p2 - 1]);
                } else {
                    assert(r@[p1] == old_r[p1 - 1] && r@[p2] == old_r[p2 - 1]);
                }
            }
            assert forall|w: int| 0 <= w < v + 1 implies #[trigger] contains_index(r@, w) by {
                if w == v {
                    assert(r@[pos as int] == v);
                } else {
                    assert(contains_index(old_r, w));
                    let p0 = choose|p: int| 0 <= p < old_r.len() && (#[trigger] old_r[p]) == w;
                    if p0 < pos {
                        assert(r@[p0] == w);
                    } else {
                        assert(r@[p0 + 1] == w);
                    }
                }
            }
        }
        v = v + 1;
    }
    r
}

/// The name at a sorted position.
pub open spec fn nm(members: Seq<User>, sidx: Seq<usize>, p: int) -> Seq<char> {
    members[sidx[p] as int].name@
}

/// The pair at sorted positions `(px, py)` qualifies for a settlement.
pub open spec fn emits_at(g: Group, sidx: Seq<usize>, px: int, py: int) -> bool {
    pair_emits(g, nm(g.members@, sidx, px), nm(g.members@, sidx, py))
}

/// The entry's payer is one of the first `x` names in sorted order.
pub open spec fn from_before(members: Seq<User>, sidx: Seq<usize>, s: Settlement, x: int) -> bool {
    exists|px: int| 0 <= px < x && s.from@ == #[trigger] nm(members, sidx, px)
}

/// The entry's recipient is one of the first `y` names in sorted order,
/// other than position `x`.
pub open spec fn to_before(
    members: Seq<User>,
    sidx: Seq<usize>,
    s: Settlement,
    x: int,
    y: int,
) -> bool {
    exists|py: int| 0 <= py < y && py != x && s.to@ == #[trigger] nm(members, sidx, py)
}

/// Pairwise settlements: net each pair's mutual debts, round to cents,
/// suppress nets of one cent or less, and sort by `(from, to)`.
pub fn calculate_settlements(group: &Group) -> (r: Vec<Settlement>)
    requires
        group_wf(*group),
        fits(group.expenses@),
    ensures
        pairwise_output_ok(*group, r@),
{
    proof {
        lemma_wf_events(*group);
        lemma_scale_props(group.expenses@);
    }
    let l = compute_scale(&group.expenses).unwrap();
    let sidx = sorted_member_indices(&group.members);
    let sz = sidx.len();
    let ghost members = group.members@;
    let ghost events = group.expenses@;
    let mut out: Vec<Settlement> = Vec::new();
    let mut x: usize = 0;
    while x < sz
        invariant
            0 <= x <= sz,
            sz == sidx@.len(),
            sz == members.len(),
            members == group.members@,
            events == group.expenses@,
            group_wf(*group),
            fits(events),
            1 <= l <= SCALE_CAP,
            l as int == scale(events),
            forall|p: int| 0 <= p < sz ==> (#[trigger] sidx@[p]) < sz,
            forall|p1: int, p2: int|
                0 <= p1 < p2 < sz ==> lex_lt(nm(members, sidx@, p1), nm(members, sidx@, p2)),
            forall|v: int| 0 <= v < sz ==> #[trigger] contains_index(sidx@, v),
            forall|k: int|
                0 <= k < out@.len() ==> {
                    &&& pair_emits(*group, (#[trigger] out@[k]).from@, out@[k].to@)
                    &&& out@[k].amount == round_div(
                        net_debt(events, out@[k].from@, out@[k].to@, l as int),
                        l as int,
                    )
                    &&& out@[k].settled == false
                },
            forall|k1: int, k2: int|
                0 <= k1 < k2 < out@.len() ==> settlement_key_lt(out@[k1], out@[k2]),
            forall|k: int|
                0 <= k < out@.len() ==> from_before(members, sidx@, #[trigger] out@[k], x as int),
            forall|px: int, py: int|
                0 <= px < x && 0 <= py < sz && px != py && #[trigger] emits_at(
                    *group,
                    sidx@,
                    px,
                    py,
                ) ==> has_pair(out@, nm(members, sidx@, px), nm(members, sidx@, py)),
        decreases sz - x,
    {
        let mut y: usize = 0;
        while y < sz
            invariant
                0 <= y <= sz,
                0 <= x < sz,
                sz == sidx@.len(),
                sz == members.len(),
                members == group.members@,
                events == group.expenses@,
                group_wf(*group),
                fits(events),
                1 <= l <= SCALE_CAP,
                l as int == scale(events),
                forall|p: int| 0 <= p < sz ==> (#[trigger] sidx@[p]) < sz,
                forall|p1: int, p2: int|
                    0 <= p1 < p2 < sz ==> lex_lt(nm(members, sidx@, p1), nm(members, sidx@, p2)),
                forall|v: int| 0 <= v < sz ==> #[trigger] contains_index(sidx@, v),
                forall|k: int|
                    0 <= k < out@.len() ==> {
                        &&& pair_emits(*group, (#[trigger] out@[k]).from@, out@[k].to@)
                        &&& out@[k].amount == round_div(
                            net_debt(events, out@[k].from@, out@[k].to@, l as int),
                            l as int,
                        )
                        &&& out@[k].settled == false
                    },
                forall|k1: int, k2: int|
                    0 <= k1 < k2 < out@.len() ==> settlement_key_lt(out@[k1], out@[k2]),
                forall|k: int|
                    0 <= k < out@.len() ==> (from_before(
                        members,
                        sidx@,
                        #[trigger] out@[k],
                        x as int,
                    ) || (out@[k].from@ == nm(members, sidx@, x as int) && to_before(
                        members,
                        sidx@,
                        out@[k],
                        x as int,
                        y as int,
                    ))),
                forall|px: int, py: int|
                    (0 <= px < sz && 0 <= py < sz && px != py && (px < x || (px == x && py < y))
                        && #[trigger] emits_at(*group, sidx@, px, py)) ==> has_pair(
                        out@,
                        nm(members, sidx@, px),
                        nm(members, sidx@, py),
                    ),
            decreases sz - y,
        {
            let ghost old_out = out@;
            let mut pushed: bool = false;
            if y != x {
                let a = &group.members[sidx[x]].name;
                let b = &group.members[sidx[y]].name;
                proof {
                    assert(a@ == nm(members, sidx@, x as int));
                    assert(b@ == nm(members, sidx@, y as int));
                    if x < y {
                        assert(lex_lt(nm(members, sidx@, x as int), nm(members, sidx@, y as int)));
                    } else {
                        assert(lex_lt(nm(members, sidx@, y as int), nm(members, sidx@, x as int)));
                    }
                    crate::names::lemma_lex_lt_irrefl(a@);
                }
                let net = pair_net(group, a, b, l);
                if net > 0 {
                    proof {
                        lemma_total_prefix(events, events.len() as int);
                        assert(net <= TOTAL_CAP * SCALE_CAP) by (nonlinear_arith)
                            requires
                                net as int <= total(events) * (l as int),
                                0 <= total(events) <= TOTAL_CAP,
                                1 <= l <= SCALE_CAP,
                        ;
                        lemma_round_div_le(net as int, l as int, total(events));
                        lemma_round_div_bounds(net as int, l as int);
                    }
                    let cents = round_div_i128(net, l);
                    if cents >= 2 {
                        let s = Settlement {
                            from: a.clone(),
                            to: b.clone(),
                            amount: cents as i64,
                            settled: false,
                        };
                        proof {
                            assert(is_member_name(members, a@)) by {
                                assert(members[sidx@[x as int] as int].name@ == a@);
                            }
                            assert(is_member_name(members, b@)) by {
                                assert(members[sidx@[y as int] as int].name@ == b@);
                            }
                            assert(pair_emits(*group, a@, b@));
                        }
                        out.push(s);
                        pushed = true;
                        proof {
                            // everything older is strictly below the new key
                            let newk = out@.len() - 1;
                            assert forall|k: int| 0 <= k < newk implies settlement_key_lt(
                                out@[k],
                                out@[newk],
                            ) by {
                                assert(out@[k] == old_out[k]);
                                if from_before(members, sidx@, old_out[k], x as int) {
                                    let px = choose|px: int|
                                        0 <= px < x && old_out[k].from@ == #[trigger] nm(
                                            members,
                                            sidx@,
                                            px,
                                        );
                                    assert(lex_lt(
                                        nm(members, sidx@, px),
                                        nm(members, sidx@, x as int),
                                    ));
                                } else {
                                    let py = choose|py: int|
                                        0 <= py < y && py != x && old_out[k].to@ == #[trigger] nm(
                                            members,
                                            sidx@,
                                            py,
                                        );
                                    assert(lex_lt(
                                        nm(members, sidx@, py),
                                        nm(members, sidx@, y as int),
                                    ));
                                }
                            }
                        }
                    }
                }
                proof {
                    if pushed {
                        assert forall|a2: Seq<char>, b2: Seq<char>| #[trigger] has_pair(
                            old_out,
                            a2,
                            b2,
                        ) implies has_pair(out@, a2, b2) by {
                            let k0 = choose|k: int|
                                0 <= k < old_out.len() && (#[trigger] old_out[k]).from@ == a2
                                    && old_out[k].to@ == b2;
                            assert(out@[k0].from@ == a2 && out@[k0].to@ == b2);
                        }
                    } else {
                        assert(out@ == old_out);
                    }
                    // completeness for the pair just examined
                    if emits_at(*group, sidx@, x as int, y as int) {
                        assert(pushed);
                        assert(out@[out@.len() - 1].from@ == a@);
                        assert(has_pair(out@, a@, b@));
                    }
                }
            } else {
                proof {
                    if emits_at(*group, sidx@, x as int, y as int) {
                        lemma_self_debt_zero(events, nm(members, sidx@, x as int), l as int);
                        assert(false);
                    }
                }
            }
            proof {
                // the position bound moves from y to y + 1
                assert forall|k: int| 0 <= k < out@.len() implies (from_before(
                    members,
                    sidx@,
                    #[trigger] out@[k],
                    x as int,
                ) || (out@[k].from@ == nm(members, sidx@, x as int) && to_before(
                    members,
                    sidx@,
                    out@[k],
                    x as int,
                    y + 1,
                ))) by {
                    if k < old_out.len() {
                        assert(out@[k] == old_out[k]);
                        if !from_before(members, sidx@, old_out[k], x as int) {
                            let py = choose|py: int|
                                0 <= py < y && py != x && old_out[k].to@ == #[trigger] nm(
                                    members,
                                    sidx@,
                                    py,
                                );
                            assert(out@[k].to@ == nm(members, sidx@, py));
                        }
                    } else {
                        assert(pushed && k == old_out.len());
                        assert(out@[k].to@ == nm(members, sidx@, y as int));
                    }
                }
            }
            y = y + 1;
        }
        proof {
            assert forall|k: int| 0 <= k < out@.len() implies from_before(
                members,
                sidx@,
                #[trigger] out@[k],
                x + 1,
            ) by {
                if from_before(members, sidx@, out@[k], x as int) {
                    let px = choose|px: int|
                        0 <= px < x && out@[k].from@ == #[trigger] nm(members, sidx@, px);
                    assert(out@[k].from@ == nm(members, sidx@, px));
                } else {
                    assert(out@[k].from@ == nm(members, sidx@, x as int));
                }
            }
        }
        x = x + 1;
    }
    proof {
        // completeness over names follows from completeness over positions
        assert forall|a: Seq<char>, b: Seq<char>| #[trigger] pair_emits(*group, a, b) implies
            has_pair(out@, a, b) by {
            let ia = choose|i: int| 0 <= i < members.len() && (#[trigger] members[i].name@) == a;
            let ib = choose|i: int| 0 <= i < members.len() && (#[trigger] members[i].name@) == b;
            if a == b {
                lemma_self_debt_zero(events, a, l as int);
                assert(false);
            }
            assert(contains_index(sidx@, ia));
            assert(contains_index(sidx@, ib));
            let px = choose|p: int| 0 <= p < sidx@.len() && (#[trigger] sidx@[p]) == ia;
            let py = choose|p: int| 0 <= p < sidx@.len() && (#[trigger] sidx@[p]) == ib;
            assert(nm(members, sidx@, px) == a);
            assert(nm(members, sidx@, py) == b);
            assert(px != py);
            assert(emits_at(*group, sidx@, px, py));
        }
        // each sound entry satisfies the remaining clauses
        assert forall|k: int| 0 <= k < out@.len() implies ((#[trigger] out@[k]).from@
            != out@[k].to@ && out@[k].amount >= 2) by {
            assert(pair_emits(*group, out@[k].from@, out@[k].to@));
            if out@[k].from@ == out@[k].to@ {
                lemma_self_debt_zero(events, out@[k].from@, l as int);
            }
        }
    }
    out
}

/// Shares scale proportionally between two valid scales.
proof fn lemma_contribution_proportional(
    e: Expense,
    debtor: Seq<char>,
    payer: Seq<char>,
    l1: int,
    l2: int,
)
    requires
        e.participants@.len() >= 1,
        1 <= l1,
        1 <= l2,
        divides(e.participants@.len() as int, l1),
        divides(e.participants@.len() as int, l2),
    ensures
        contribution(e, debtor, payer, l1) * l2 == contribution(e, debtor, payer, l2) * l1,
{
    let c = e.participants@.len() as int;
    let a = e.amount as int;
    lemma_divides_le(c, l1);
    lemma_divides_le(c, l2);
    let u1 = l1 / c;
    let u2 = l2 / c;
    let k = count_in(e.participants@, debtor);
    if e.payer.name@ == payer && debtor != payer {
        assert(share_scaled(e, l1) == a * u1);
        assert(share_scaled(e, l2) == a * u2);
        assert(contribution(e, debtor, payer, l1) == (a * u1) * k);
        assert(contribution(e, debtor, payer, l2) == (a * u2) * k);
        assert(((a * u1) * k) * l2 == ((a * u2) * k) * l1) by (nonlinear_arith)
            requires
                l1 == u1 * c,
                l2 == u2 * c,
        ;
    }
}

/// Directed debts scale proportionally between two valid scales.
proof fn lemma_pair_debt_proportional(
    events: Seq<Expense>,
    a: Seq<char>,
    b: Seq<char>,
    l1: int,
    l2: int,
)
    requires
        counts_ok(events),
        1 <= l1,
        1 <= l2,
        forall|i: int|
            0 <= i < events.len() ==> divides((#[trigger] events[i]).participants@.len() as int, l1),
        forall|i: int|
            0 <= i < events.len() ==> divides((#[trigger] events[i]).participants@.len() as int, l2),
    ensures
        pair_debt(events, a, b, l1) * l2 == pair_debt(events, a, b, l2) * l1,
    decreases events.len(),
{
    if events.len() == 0 {
    } else {
        let dl = events.drop_last();
        let e = events.last();
        assert(forall|i: int| 0 <= i < dl.len() ==> dl[i] == events[i]);
        lemma_pair_debt_proportional(dl, a, b, l1, l2);
        lemma_contribution_proportional(e, a, b, l1, l2);
        assert((pair_debt(dl, a, b, l1) + contribution(e, a, b, l1)) * l2 == pair_debt(
            dl,
            a,
            b,
            l1,
        ) * l2 + contribution(e, a, b, l1) * l2) by (nonlinear_arith);
        assert((pair_debt(dl, a, b, l2) + contribution(e, a, b, l2)) * l1 == pair_debt(
            dl,
            a,
            b,
            l2,
        ) * l1 + contribution(e, a, b, l2) * l1) by (nonlinear_arith);
    }
}

/// Rounding a value to whole cents does not depend on the scale it is
/// carried at.
proof fn lemma_round_scale_invariant(x1: int, l1: int, x2: int, l2: int)
    requires
        0 <= x1,
        1 <= l1,
        1 <= l2,
        x1 * l2 == x2 * l1,
    ensures
        round_div(x1, l1) == round_div(x2, l2),
{
    lemma_round_div_bounds(x1, l1);
    let q = round_div(x1, l1);
    assert(0 <= x2) by (nonlinear_arith)
        requires
            x1 * l2 == x2 * l1,
            0 <= x1,
            1 <= l1,
            1 <= l2,
    ;
    assert(2 * l2 * q <= 2 * x2 + l2 && 2 * l2 * q > 2 * x2 - l2) by (nonlinear_arith)
        requires
            2 * l1 * q <= 2 * x1 + l1,
            2 * l1 * q > 2 * x1 - l1,
            x1 * l2 == x2 * l1,
            1 <= l1,
            1 <= l2,
    ;
    let r = 2 * x2 + l2 - 2 * l2 * q;
    assert(2 * x2 + l2 == q * (2 * l2) + r) by (nonlinear_arith)
        requires
            r == 2 * x2 + l2 - 2 * l2 * q,
    ;
    vstd::arithmetic::div_mod::lemma_fundamental_div_mod_converse(2 * x2 + l2, 2 * l2, q, r);
}

/// Pairwise stability law: appending an event in which neither member of a
/// pair pays for the other leaves that pair's settlement untouched — the
/// net debt is unchanged (up to the change of scale) and the same rounded
/// amount is emitted, or none at all.  Events between other members never
/// perturb the pair.
pub proof fn lemma_pairwise_stability(g: Group, g2: Group, e: Expense, a: Seq<char>, b: Seq<char>)
    requires
        g2.members@ == g.members@,
        g2.expenses@ == g.expenses@.push(e),
        counts_ok(g.expenses@),
        e.participants@.len() >= 1,
        !(e.payer.name@ == b && count_in(e.participants@, a) > 0),
        !(e.payer.name@ == a && count_in(e.participants@, b) > 0),
    ensures
        net_debt(g2.expenses@, a, b, scale(g2.expenses@)) * scale(g.expenses@) == net_debt(
            g.expenses@,
            a,
            b,
            scale(g.expenses@),
        ) * scale(g2.expenses@),
        pair_emits(g2, a, b) <==> pair_emits(g, a, b),
        pair_emits(g, a, b) ==> round_div(
            net_debt(g2.expenses@, a, b, scale(g2.expenses@)),
            scale(g2.expenses@),
        ) == round_div(net_debt(g.expenses@, a, b, scale(g.expenses@)), scale(g.expenses@)),
{
    let s = g.expenses@;
    let s2 = g2.expenses@;
    let l1 = scale(s);
    let l2 = scale(s2);
    lemma_scale_props(s);
    assert(counts_ok(s2)) by {
        assert(forall|i: int| 0 <= i < s.len() ==> s2[i] == s[i]);
        assert(s2[s.len() as int] == e);
    }
    lemma_scale_props(s2);
    assert(s2.drop_last() =~= s);
    assert(s2.last() == e);
    // the appended event contributes nothing to this pair at any scale
    lemma_count_in_bounds(e.participants@, a);
    lemma_count_in_bounds(e.participants@, b);
    assert(contribution(e, a, b, l2) == 0) by {
        if e.payer.name@ == b && a != b {
            assert(count_in(e.participants@, a) == 0);
            assert(share_scaled(e, l2) * 0 == 0) by (nonlinear_arith);
        }
    }
    assert(contribution(e, b, a, l2) == 0) by {
        if e.payer.name@ == a && b != a {
            assert(count_in(e.participants@, b) == 0);
            assert(share_scaled(e, l2) * 0 == 0) by (nonlinear_arith);
        }
    }
    assert(net_debt(s2, a, b, l2) == net_debt(s, a, b, l2));
    // the old log's counts also divide the new scale
    assert(scale(s2) == crate::arith::lcm(l1, e.participants@.len() as int));
    crate::arith::lemma_lcm(l1, e.participants@.len() as int);
    assert forall|i: int| 0 <= i < s.len() implies divides(
        (#[trigger] s[i]).participants@.len() as int,
        l2,
    ) by {
        lemma_divides_trans(s[i].participants@.len() as int, l1, l2);
    }
    lemma_pair_debt_proportional(s, a, b, l2, l1);
    lemma_pair_debt_proportional(s, b, a, l2, l1);
    let n1 = net_debt(s, a, b, l1);
    let n2 = net_debt(s, a, b, l2);
    assert(n2 * l1 == n1 * l2) by (nonlinear_arith)
        requires
            pair_debt(s, a, b, l2) * l1 == pair_debt(s, a, b, l1) * l2,
            pair_debt(s, b, a, l2) * l1 == pair_debt(s, b, a, l1) * l2,
            n1 == pair_debt(s, a, b, l1) - pair_debt(s, b, a, l1),
            n2 == pair_debt(s, a, b, l2) - pair_debt(s, b, a, l2),
    ;
    assert((n1 > 0) == (n2 > 0)) by (nonlinear_arith)
        requires
            n2 * l1 == n1 * l2,
            1 <= l1,
            1 <= l2,
    ;
    if n1 > 0 {
        lemma_round_scale_invariant(n1, l1, n2, l2);
    }
}

/// With no events there are no pairwise settlements.
pub proof fn lemma_empty_group_pairwise(g: Group, out: Seq<Settlement>)
    requires
        g.expenses@.len() == 0,
        pairwise_output_ok(g, out),
    ensures
        out.len() == 0,
{
    if out.len() > 0 {
        assert(pair_emits(g, out[0].from@, out[0].to@));
        assert(net_debt(g.expenses@, out[0].from@, out[0].to@, scale(g.expenses@)) == 0);
    }
}

} // verus!
