//! Minimal-transaction settlement resolver.
//!
//! Members are split into debtors and creditors by their net balance, both
//! lists are sorted by amount (largest first, names breaking ties), and a
//! two-pointer sweep repeatedly transfers the smaller of the two current
//! remainders from the largest debtor to the largest creditor.  This
//! minimizes the number of suggested transfers at the price of stability:
//! one new expense can reshuffle who pays whom.
//!
//! The executable resolver is proved equal to the recursive model
//! [`greedy`] applied to the sorted entry lists, so its output is pinned
//! down completely.

use crate::arith::{lemma_round_div_bounds, lemma_round_div_le, round_div, round_div_i128};
use crate::balances::{
    bal, balances_ok, balances_wf, calculate_balances, fits, lemma_bal_bound,
    lemma_scale_props, lemma_wf_events, scale, total, Balances, SCALE_CAP, TOTAL_CAP,
};
use crate::models::{group_wf, Group, Settlement, User};
use crate::names::{lex_lt, str_lt};
use vstd::pervasive::VecAdditionalExecFns;
use vstd::prelude::*;

verus! {

/// An entry of the debtor or creditor list: a member name and a positive
/// scaled amount.
pub open spec fn ent_view(p: (String, i128)) -> (Seq<char>, int) {
    (p.0@, p.1 as int)
}

/// View of a whole entry list.
pub open spec fn ents_view(s: Seq<(String, i128)>) -> Seq<(Seq<char>, int)> {
    s.map_values(|p: (String, i128)| ent_view(p))
}

/// Sort order of the sweep: larger amounts first, ties broken by name.
pub open spec fn ent_before(a: (Seq<char>, int), b: (Seq<char>, int)) -> bool {
    a.1 > b.1 || (a.1 == b.1 && lex_lt(a.0, b.0))
}

/// The debtors of a group, in member order: members whose balance is below
/// minus one cent, carried as the positive amount they owe.
pub open spec fn debtors_of(members: Seq<User>, events: Seq<crate::models::Expense>, l: int) -> Seq<
    (Seq<char>, int),
>
    decreases members.len(),
{
    if members.len() == 0 {
        Seq::empty()
    } else {
        let rest = debtors_of(members.drop_last(), events, l);
        let b = bal(events, members.last().name@, l);
        if b < -l {
            rest.push((members.last().name@, -b))
        } else {
            rest
        }
    }
}

/// The creditors of a group, in member order: members whose balance is
/// above one cent.
pub open spec fn creditors_of(members: Seq<User>, events: Seq<crate::models::Expense>, l: int) -> Seq<
    (Seq<char>, int),
>
    decreases members.len(),
{
    if members.len() == 0 {
        Seq::empty()
    } else {
        let rest = creditors_of(members.drop_last(), events, l);
        let b = bal(events, members.last().name@, l);
        if b > l {
            rest.push((members.last().name@, b))
        } else {
            rest
        }
    }
}

/// Insert an entry behind everything that sorts before it.
pub open spec fn insert_entry(e: (Seq<char>, int), s: Seq<(Seq<char>, int)>) -> Seq<
    (Seq<char>, int),
>
    decreases s.len(),
{
    if s.len() > 0 && ent_before(s.first(), e) {
        seq![s.first()] + insert_entry(e, s.drop_first())
    } else {
        seq![e] + s
    }
}

/// Insertion sort of an entry list under [`ent_before`].
pub open spec fn sort_entries(s: Seq<(Seq<char>, int)>) -> Seq<(Seq<char>, int)>
    decreases s.len(),
{
    if s.len() == 0 {
        Seq::empty()
    } else {
        insert_entry(s.last(), sort_entries(s.drop_last()))
    }
}

/// The greedy two-pointer sweep: transfer the smaller of the two current
/// remainders, round it to whole cents, emit it when the rounded amount
/// still exceeds one cent, and drop whichever side falls below one cent.
/// Emitted triples are `(from, to, cents)`.
pub open spec fn greedy(
    ds: Seq<(Seq<char>, int)>,
    cs: Seq<(Seq<char>, int)>,
    l: int,
) -> Seq<(Seq<char>, Seq<char>, int)>
    decreases ds.len() + cs.len(),
{
    if l < 1 || ds.len() == 0 || cs.len() == 0 {
        Seq::empty()
    } else {
        let d = ds.first();
        let c = cs.first();
        let chunk = if d.1 <= c.1 {
            d.1
        } else {
            c.1
        };
        let emitted: Seq<(Seq<char>, Seq<char>, int)> = if round_div(chunk, l) >= 2 {
            seq![(d.0, c.0, round_div(chunk, l))]
        } else {
            Seq::empty()
        };
        let dr = d.1 - chunk;
        let cr = c.1 - chunk;
        let ds2 = if dr < l {
            ds.drop_first()
        } else {
            seq![(d.0, dr)] + ds.drop_first()
        };
        let cs2 = if cr < l {
            cs.drop_first()
        } else {
            seq![(c.0, cr)] + cs.drop_first()
        };
        emitted + greedy(ds2, cs2, l)
    }
}

/// The full model of the resolver: sort both lists, then sweep.
pub open spec fn simplified_model(g: Group) -> Seq<(Seq<char>, Seq<char>, int)> {
    let l = scale(g.expenses@);
    greedy(
        sort_entries(debtors_of(g.members@, g.expenses@, l)),
        sort_entries(creditors_of(g.members@, g.expenses@, l)),
        l,
    )
}

/// View of the emitted settlements as `(from, to, cents)` triples.
pub open spec fn triples_view(s: Seq<Settlement>) -> Seq<(Seq<char>, Seq<char>, int)> {
    s.map_values(|x: Settlement| (x.from@, x.to@, x.amount as int))
}

/// Where a scan stops, the spec insertion inserts.
proof fn lemma_insert_entry_at(e: (Seq<char>, int), s: Seq<(Seq<char>, int)>, pos: int)
    requires
        0 <= pos <= s.len(),
        forall|p: int| 0 <= p < pos ==> ent_before(#[trigger] s[p], e),
        pos < s.len() ==> !ent_before(s[pos as int], e),
    ensures
        insert_entry(e, s) == s.take(pos) + seq![e] + s.skip(pos),
    decreases pos,
{
    if pos == 0 {
        assert(s.take(0) =~= Seq::empty());
        assert(s.skip(0) =~= s);
        if s.len() > 0 {
            assert(!ent_before(s.first(), e));
        }
        assert(insert_entry(e, s) =~= s.take(0) + seq![e] + s.skip(0));
    } else {
        assert(ent_before(s.first(), e));
        let t = s.drop_first();
        assert(forall|p: int| 0 <= p < pos - 1 ==> #[trigger] t[p] == s[p + 1]);
        lemma_insert_entry_at(e, t, pos - 1);
        assert(insert_entry(e, s) == seq![s.first()] + (t.take(pos - 1) + seq![e] + t.skip(pos - 1)));
        assert(seq![s.first()] + (t.take(pos - 1) + seq![e] + t.skip(pos - 1)) =~= s.take(pos)
            + seq![e] + s.skip(pos));
    }
}

/// Every element of an insertion is the inserted entry or an original one,
/// and all originals survive.
proof fn lemma_insert_entry_elems(e: (Seq<char>, int), s: Seq<(Seq<char>, int)>)
    ensures
        insert_entry(e, s).len() == s.len() + 1,
        forall|k: int|
            0 <= k < insert_entry(e, s).len() ==> (#[trigger] insert_entry(e, s)[k] == e || exists|
                p: int,
            | 0 <= p < s.len() && s[p] == insert_entry(e, s)[k]),
    decreases s.len(),
{
    if s.len() > 0 && ent_before(s.first(), e) {
        lemma_insert_entry_elems(e, s.drop_first());
        let r = insert_entry(e, s);
        let t = insert_entry(e, s.drop_first());
        assert forall|k: int| 0 <= k < r.len() implies (#[trigger] r[k] == e || exists|p: int|
            0 <= p < s.len() && s[p] == r[k]) by {
            if k == 0 {
                assert(s[0] == r[0]);
            } else {
                assert(r[k] == t[k - 1]);
                if t[k - 1] != e {
                    let p = choose|p: int|
                        0 <= p < s.drop_first().len() && #[trigger] s.drop_first()[p] == t[k - 1];
                    assert(s[p + 1] == r[k]);
                }
            }
        }
    }
}

/// Sorting keeps exactly the original entries (as elements).
proof fn lemma_sort_entries_elems(s: Seq<(Seq<char>, int)>)
    ensures
        sort_entries(s).len() == s.len(),
        forall|k: int|
            0 <= k < sort_entries(s).len() ==> exists|p: int|
                0 <= p < s.len() && #[trigger] sort_entries(s)[k] == s[p],
    decreases s.len(),
{
    if s.len() > 0 {
        let dl = s.drop_last();
        lemma_sort_entries_elems(dl);
        lemma_insert_entry_elems(s.last(), sort_entries(dl));
        let r = sort_entries(s);
        assert forall|k: int| 0 <= k < r.len() implies exists|p: int|
            0 <= p < s.len() && #[trigger] r[k] == s[p] by {
            if r[k] == s.last() {
                assert(r[k] == s[s.len() - 1]);
            } else {
                let q = choose|q: int|
                    0 <= q < sort_entries(dl).len() && #[trigger] sort_entries(dl)[q] == r[k];
                let p = choose|p: int| 0 <= p < dl.len() && #[trigger] sort_entries(dl)[q] == dl[p];
                assert(r[k] == s[p]);
            }
        }
    }
}

/// Every debtor entry records a member's negated balance, below minus one
/// cent; every creditor entry a balance above one cent; and both are
/// bounded by the scaled total.
proof fn lemma_entry_lists_props(
    members: Seq<User>,
    events: Seq<crate::models::Expense>,
    l: int,
    t: int,
)
    requires
        1 <= l,
        forall|name: Seq<char>| -(t * l) <= #[trigger] bal(events, name, l) <= t * l,
    ensures
        forall|k: int|
            0 <= k < debtors_of(members, events, l).len() ==> {
                &&& (#[trigger] debtors_of(members, events, l)[k]).1 == -bal(
                    events,
                    debtors_of(members, events, l)[k].0,
                    l,
                )
                &&& debtors_of(members, events, l)[k].1 > l
                &&& debtors_of(members, events, l)[k].1 <= t * l
            },
        forall|k: int|
            0 <= k < creditors_of(members, events, l).len() ==> {
                &&& (#[trigger] creditors_of(members, events, l)[k]).1 == bal(
                    events,
                    creditors_of(members, events, l)[k].0,
                    l,
                )
                &&& creditors_of(members, events, l)[k].1 > l
                &&& creditors_of(members, events, l)[k].1 <= t * l
            },
    decreases members.len(),
{
    if members.len() > 0 {
        lemma_entry_lists_props(members.drop_last(), events, l, t);
        let b = bal(events, members.last().name@, l);
        let drest = debtors_of(members.drop_last(), events, l);
        let crest = creditors_of(members.drop_last(), events, l);
        let dall = debtors_of(members, events, l);
        let call = creditors_of(members, events, l);
        assert forall|k: int| 0 <= k < dall.len() implies {
            &&& (#[trigger] dall[k]).1 == -bal(events, dall[k].0, l)
            &&& dall[k].1 > l
            &&& dall[k].1 <= t * l
        } by {
            if b < -l {
                assert(dall == drest.push((members.last().name@, -b)));
                if k < drest.len() {
                    assert(dall[k] == drest[k]);
                } else {
                    assert(dall[k] == (members.last().name@, -b));
                }
            } else {
                assert(dall == drest);
                assert(dall[k] == drest[k]);
            }
        }
        assert forall|k: int| 0 <= k < call.len() implies {
            &&& (#[trigger] call[k]).1 == bal(events, call[k].0, l)
            &&& call[k].1 > l
            &&& call[k].1 <= t * l
        } by {
            if b > l {
                assert(call == crest.push((members.last().name@, b)));
                if k < crest.len() {
                    assert(call[k] == crest[k]);
                } else {
                    assert(call[k] == (members.last().name@, b));
                }
            } else {
                assert(call == crest);
                assert(call[k] == crest[k]);
            }
        }
    }
}

/// Everything proved elementwise of the unsorted lists holds of the sorted
/// ones.
proof fn lemma_sorted_lists_props(
    members: Seq<User>,
    events: Seq<crate::models::Expense>,
    l: int,
    t: int,
)
    requires
        1 <= l,
        forall|name: Seq<char>| -(t * l) <= #[trigger] bal(events, name, l) <= t * l,
    ensures
        forall|k: int|
            0 <= k < sort_entries(debtors_of(members, events, l)).len() ==> {
                &&& (#[trigger] sort_entries(debtors_of(members, events, l))[k]).1 == -bal(
                    events,
                    sort_entries(debtors_of(members, events, l))[k].0,
                    l,
                )
                &&& sort_entries(debtors_of(members, events, l))[k].1 > l
                &&& sort_entries(debtors_of(members, events, l))[k].1 <= t * l
            },
        forall|k: int|
            0 <= k < sort_entries(creditors_of(members, events, l)).len() ==> {
                &&& (#[trigger] sort_entries(creditors_of(members, events, l))[k]).1 == bal(
                    events,
                    sort_entries(creditors_of(members, events, l))[k].0,
                    l,
                )
                &&& sort_entries(creditors_of(members, events, l))[k].1 > l
                &&& sort_entries(creditors_of(members, events, l))[k].1 <= t * l
            },
{
    lemma_entry_lists_props(members, events, l, t);
    lemma_sort_entries_elems(debtors_of(members, events, l));
    lemma_sort_entries_elems(creditors_of(members, events, l));
}

/// Every triple the sweep emits pays a debtor's name to a creditor's name
/// with at least one whole cent.
proof fn lemma_greedy_props(ds: Seq<(Seq<char>, int)>, cs: Seq<(Seq<char>, int)>, l: int)
    requires
        1 <= l,
        forall|k: int| 0 <= k < ds.len() ==> (#[trigger] ds[k]).1 >= l,
        forall|k: int| 0 <= k < cs.len() ==> (#[trigger] cs[k]).1 >= l,
    ensures
        forall|k: int|
            0 <= k < greedy(ds, cs, l).len() ==> {
                &&& (#[trigger] greedy(ds, cs, l)[k]).2 >= 2
                &&& exists|p: int| 0 <= p < ds.len() && ds[p].0 == greedy(ds, cs, l)[k].0
                &&& exists|p: int| 0 <= p < cs.len() && cs[p].0 == greedy(ds, cs, l)[k].1
            },
    decreases ds.len() + cs.len(),
{
    if ds.len() == 0 || cs.len() == 0 {
    } else {
        let d = ds.first();
        let c = cs.first();
        let chunk = if d.1 <= c.1 {
            d.1
        } else {
            c.1
        };
        let dr = d.1 - chunk;
        let cr = c.1 - chunk;
        let ds2 = if dr < l {
            ds.drop_first()
        } else {
            seq![(d.0, dr)] + ds.drop_first()
        };
        let cs2 = if cr < l {
            cs.drop_first()
        } else {
            seq![(c.0, cr)] + cs.drop_first()
        };
        assert(forall|k: int| 0 <= k < ds.drop_first().len() ==> #[trigger] ds.drop_first()[k]
            == ds[k + 1]);
        assert(forall|k: int| 0 <= k < cs.drop_first().len() ==> #[trigger] cs.drop_first()[k]
            == cs[k + 1]);
        lemma_greedy_props(ds2, cs2, l);
        let r = greedy(ds, cs, l);
        let emitted: Seq<(Seq<char>, Seq<char>, int)> = if round_div(chunk, l) >= 2 {
            seq![(d.0, c.0, round_div(chunk, l))]
        } else {
            Seq::empty()
        };
        assert forall|k: int| 0 <= k < r.len() implies {
            &&& (#[trigger] r[k]).2 >= 2
            &&& exists|p: int| 0 <= p < ds.len() && ds[p].0 == r[k].0
            &&& exists|p: int| 0 <= p < cs.len() && cs[p].0 == r[k].1
        } by {
            if k < emitted.len() {
                assert(r[k] == emitted[0]);
                assert(ds[0].0 == r[k].0);
                assert(cs[0].0 == r[k].1);
            } else {
                assert(r[k] == greedy(ds2, cs2, l)[k - emitted.len()]);
                let g2 = greedy(ds2, cs2, l)[k - emitted.len()];
                let pd = choose|p: int| 0 <= p < ds2.len() && (#[trigger] ds2[p]).0 == g2.0;
                if dr < l {
                    assert(ds[pd + 1].0 == r[k].0);
                } else {
                    if pd == 0 {
                        assert(ds[0].0 == r[k].0);
                    } else {
                        assert(ds2[pd] == ds[pd]);
                        assert(ds[pd].0 == r[k].0);
                    }
                }
                let pc = choose|p: int| 0 <= p < cs2.len() && (#[trigger] cs2[p]).0 == g2.1;
                if cr < l {
                    assert(cs[pc + 1].0 == r[k].1);
                } else {
                    if pc == 0 {
                        assert(cs[0].0 == r[k].1);
                    } else {
                        assert(cs2[pc] == cs[pc]);
                        assert(cs[pc].0 == r[k].1);
                    }
                }
            }
        }
    }
}

/// With no events nobody is a debtor or creditor, whatever the members.
proof fn lemma_no_events_no_entries(members: Seq<User>, events: Seq<crate::models::Expense>, l: int)
    requires
        events.len() == 0,
        l >= 1,
    ensures
        debtors_of(members, events, l).len() == 0,
        creditors_of(members, events, l).len() == 0,
    decreases members.len(),
{
    if members.len() > 0 {
        lemma_no_events_no_entries(members.drop_last(), events, l);
        assert(bal(events, members.last().name@, l) == 0);
    }
}

/// Empty-log law: with no events the minimal-transaction resolver suggests
/// nothing.
pub proof fn lemma_empty_group_simplified(g: Group)
    requires
        g.expenses@.len() == 0,
    ensures
        simplified_model(g).len() == 0,
{
    let l = scale(g.expenses@);
    assert(l == 1);
    lemma_no_events_no_entries(g.members@, g.expenses@, l);
    assert(debtors_of(g.members@, g.expenses@, l) =~= Seq::<(Seq<char>, int)>::empty());
    assert(sort_entries(debtors_of(g.members@, g.expenses@, l)).len() == 0);
}

/// Insert one entry into a list kept sorted under [`ent_before`].
fn insert_entry_exec(vec: &mut Vec<(String, i128)>, name: String, val: i128)
    ensures
        ents_view(final(vec)@) == insert_entry((name@, val as int), ents_view(old(vec)@)),
        final(vec)@.len() == old(vec)@.len() + 1,
{
    let ghost oldv = ents_view(vec@);
    let ghost e = (name@, val as int);
    let n = vec.len();
    let mut pos: usize = 0;
    while pos < n
        invariant
            0 <= pos <= n,
            n == vec@.len(),
            oldv == ents_view(vec@),
            e == (name@, val as int),
            forall|p: int| 0 <= p < pos ==> ent_before(#[trigger] oldv[p], e),
        ensures
            0 <= pos <= n,
            n == vec@.len(),
            forall|p: int| 0 <= p < pos ==> ent_before(#[trigger] oldv[p], e),
            pos < n ==> !ent_before(oldv[pos as int], e),
        decreases n - pos,
    {
        let before = if vec[pos].1 > val {
            true
        } else if vec[pos].1 == val {
            crate::names::str_lt(vec[pos].0.as_str(), name.as_str())
        } else {
            false
        };
        proof {
            assert(oldv[pos as int] == ent_view(vec@[pos as int]));
        }
        if before {
            pos = pos + 1;
        } else {
            break;
        }
    }
    let ghost prev = vec@;
    vec.insert(pos, (name, val));
    proof {
        lemma_insert_entry_at(e, oldv, pos as int);
        assert(vec@ =~= prev.take(pos as int) + seq![(vec@[pos as int].0, val)] + prev.skip(
            pos as int,
        ));
        assert(vec@[pos as int].0@ == e.0);
        assert(ents_view(vec@) =~= oldv.take(pos as int) + seq![e] + oldv.skip(pos as int));
    }
}

/// Split the balance table into sorted debtor and creditor lists.
fn build_sorted_lists(group: &Group, balances: &Balances) -> (r: (
    Vec<(String, i128)>,
    Vec<(String, i128)>,
))
    requires
        group_wf(*group),
        fits(group.expenses@),
        balances_ok(*group, *balances),
        balances_wf(*balances),
    ensures
        ents_view(r.0@) == sort_entries(
            debtors_of(group.members@, group.expenses@, scale(group.expenses@)),
        ),
        ents_view(r.1@) == sort_entries(
            creditors_of(group.members@, group.expenses@, scale(group.expenses@)),
        ),
{
    let ghost members = group.members@;
    let ghost events = group.expenses@;
    let ghost l = scale(events);
    let lx = balances.scale;
    let m = balances.entries.len();
    let mut dvec: Vec<(String, i128)> = Vec::new();
    let mut cvec: Vec<(String, i128)> = Vec::new();
    proof {
        assert(members.take(0) =~= Seq::<User>::empty());
    }
    let mut k: usize = 0;
    while k < m
        invariant
            0 <= k <= m,
            m == members.len(),
            members == group.members@,
            events == group.expenses@,
            balances_ok(*group, *balances),
            balances_wf(*balances),
            lx == balances.scale,
            lx as int == l,
            l == scale(events),
            1 <= lx,
            ents_view(dvec@) == sort_entries(debtors_of(members.take(k as int), events, l)),
            ents_view(cvec@) == sort_entries(creditors_of(members.take(k as int), events, l)),
        decreases m - k,
    {
        proof {
            assert(members.take(k + 1).drop_last() =~= members.take(k as int));
            assert(members.take(k + 1).last() == members[k as int]);
            assert(balances.entries@[k as int].0@ == members[k as int].name@);
            assert(balances.entries@[k as int].1 == bal(events, members[k as int].name@, l));
        }
        let v = balances.entries[k].1;
        let ghost b = bal(events, members[k as int].name@, l);
        if v < -lx {
            let nm0 = balances.entries[k].0.clone();
            let ghost dl0 = debtors_of(members.take(k as int), events, l);
            proof {
                assert(debtors_of(members.take(k + 1), events, l) == dl0.push(
                    (members[k as int].name@, -b),
                ));
                assert(debtors_of(members.take(k + 1), events, l).drop_last() =~= dl0);
                assert(sort_entries(debtors_of(members.take(k + 1), events, l)) == insert_entry(
                    (members[k as int].name@, -b),
                    sort_entries(dl0),
                ));
                assert(creditors_of(members.take(k + 1), events, l) == creditors_of(
                    members.take(k as int),
                    events,
                    l,
                ));
            }
            insert_entry_exec(&mut dvec, nm0, -v);
        } else if v > lx {
            let nm0 = balances.entries[k].0.clone();
            let ghost cl0 = creditors_of(members.take(k as int), events, l);
            proof {
                assert(creditors_of(members.take(k + 1), events, l) == cl0.push(
                    (members[k as int].name@, b),
                ));
                assert(creditors_of(members.take(k + 1), events, l).drop_last() =~= cl0);
                assert(sort_entries(creditors_of(members.take(k + 1), events, l)) == insert_entry(
                    (members[k as int].name@, b),
                    sort_entries(cl0),
                ));
                assert(debtors_of(members.take(k + 1), events, l) == debtors_of(
                    members.take(k as int),
                    events,
                    l,
                ));
            }
            insert_entry_exec(&mut cvec, nm0, v);
        } else {
            proof {
                assert(debtors_of(members.take(k + 1), events, l) == debtors_of(
                    members.take(k as int),
                    events,
                    l,
                ));
                assert(creditors_of(members.take(k + 1), events, l) == creditors_of(
                    members.take(k as int),
                    events,
                    l,
                ));
            }
        }
        k = k + 1;
    }
    proof {
        assert(members.take(m as int) =~= members);
    }
    (dvec, cvec)
}

/// Minimal-transaction settlements: the greedy debtor/creditor sweep over
/// the sorted balance lists.
pub fn calculate_simplified_settlements(group: &Group) -> (r: Vec<Settlement>)
    requires
        group_wf(*group),
        fits(group.expenses@),
    ensures
        triples_view(r@) == simplified_model(*group),
        forall|k: int| 0 <= k < r@.len() ==> !(#[trigger] r@[k]).settled,
        forall|k: int| 0 <= k < r@.len() ==> (#[trigger] r@[k]).from@ != r@[k].to@,
        forall|k: int| 0 <= k < r@.len() ==> (#[trigger] r@[k]).amount >= 2,
{
    let ghost members = group.members@;
    let ghost events = group.expenses@;
    let balances = calculate_balances(group);
    let l = balances.scale;
    let ghost t = total(events);
    proof {
        lemma_wf_events(*group);
        lemma_scale_props(events);
        crate::balances::lemma_total_nonneg(events);
        assert forall|name: Seq<char>| -(t * (l as int)) <= #[trigger] bal(events, name, l as int)
            <= t * (l as int) by {
            lemma_bal_bound(events, name, l as int);
        }
        lemma_sorted_lists_props(members, events, l as int, t);
    }
    let (mut dvec, mut cvec) = build_sorted_lists(group, &balances);
    let ghost ds0 = ents_view(dvec@);
    let ghost cs0 = ents_view(cvec@);
    proof {
        assert forall|k: int| 0 <= k < ds0.len() implies (l as int) < (#[trigger] ds0[k]).1
            <= TOTAL_CAP * (l as int) by {
            assert(ds0[k].1 <= t * (l as int));
            assert(t * (l as int) <= TOTAL_CAP * (l as int)) by (nonlinear_arith)
                requires
                    0 <= t <= TOTAL_CAP,
                    1 <= l,
            ;
        }
        assert forall|k: int| 0 <= k < cs0.len() implies (l as int) < (#[trigger] cs0[k]).1
            <= TOTAL_CAP * (l as int) by {
            assert(cs0[k].1 <= t * (l as int));
            assert(t * (l as int) <= TOTAL_CAP * (l as int)) by (nonlinear_arith)
                requires
                    0 <= t <= TOTAL_CAP,
                    1 <= l,
            ;
        }
    }
    let dn = dvec.len();
    let cn = cvec.len();
    let mut out: Vec<Settlement> = Vec::new();
    let mut i: usize = 0;
    let mut j: usize = 0;
    proof {
        assert(ents_view(dvec@).skip(0) =~= ds0);
        assert(ents_view(cvec@).skip(0) =~= cs0);
        assert(triples_view(out@) =~= Seq::<(Seq<char>, Seq<char>, int)>::empty());
        assert(triples_view(out@) + greedy(ds0, cs0, l as int) =~= greedy(ds0, cs0, l as int));
    }
    while i < dn && j < cn
        invariant
            0 <= i <= dn,
            0 <= j <= cn,
            dn == dvec@.len(),
            cn == cvec@.len(),
            1 <= l <= SCALE_CAP,
            l as int == scale(events),
            forall|k: int|
                i <= k < dn ==> (l as int) <= (#[trigger] ents_view(dvec@)[k]).1 <= TOTAL_CAP * (
                l as int),
            forall|k: int|
                j <= k < cn ==> (l as int) <= (#[trigger] ents_view(cvec@)[k]).1 <= TOTAL_CAP * (
                l as int),
            triples_view(out@) + greedy(
                ents_view(dvec@).skip(i as int),
                ents_view(cvec@).skip(j as int),
                l as int,
            ) == greedy(ds0, cs0, l as int),
            forall|k: int| 0 <= k < out@.len() ==> !(#[trigger] out@[k]).settled,
        decreases (dn - i) + (cn - j),
    {
        let ghost gds = ents_view(dvec@).skip(i as int);
        let ghost gcs = ents_view(cvec@).skip(j as int);
        proof {
            assert(gds.len() > 0 && gcs.len() > 0);
            assert(gds.first() == ents_view(dvec@)[i as int]);
            assert(gcs.first() == ents_view(cvec@)[j as int]);
        }
        let dval = dvec[i].1;
        let cval = cvec[j].1;
        let chunk = if dval <= cval {
            dval
        } else {
            cval
        };
        let ghost emitted: Seq<(Seq<char>, Seq<char>, int)> = if round_div(
            chunk as int,
            l as int,
        ) >= 2 {
            seq![(gds.first().0, gcs.first().0, round_div(chunk as int, l as int))]
        } else {
            Seq::empty()
        };
        let ghost out_before = out@;
        proof {
            lemma_round_div_bounds(chunk as int, l as int);
            lemma_round_div_le(chunk as int, l as int, TOTAL_CAP as int);
        }
        let cents = round_div_i128(chunk, l);
        if cents >= 2 {
            let from0 = dvec[i].0.clone();
            let to0 = cvec[j].0.clone();
            out.push(
                Settlement { from: from0, to: to0, amount: cents as i64, settled: false },
            );
            proof {
                assert(triples_view(out@) =~= triples_view(out_before) + emitted);
            }
        } else {
            proof {
                assert(triples_view(out@) =~= triples_view(out_before) + emitted);
            }
        }
        let nd = dval - chunk;
        let nc = cval - chunk;
        let ghost dvec_pre = dvec@;
        let ghost cvec_pre = cvec@;
        let dn0 = dvec[i].0.clone();
        dvec.set(i, (dn0, nd));
        let cn0 = cvec[j].0.clone();
        cvec.set(j, (cn0, nc));
        let ghost ds2: Seq<(Seq<char>, int)> = if (nd as int) < (l as int) {
            gds.drop_first()
        } else {
            seq![(gds.first().0, nd as int)] + gds.drop_first()
        };
        let ghost cs2: Seq<(Seq<char>, int)> = if (nc as int) < (l as int) {
            gcs.drop_first()
        } else {
            seq![(gcs.first().0, nc as int)] + gcs.drop_first()
        };
        proof {
            assert(greedy(gds, gcs, l as int) == emitted + greedy(ds2, cs2, l as int));
            // the in-place updates touch only the heads
            assert forall|k: int| 0 <= k < dn && k != i implies #[trigger] ents_view(dvec@)[k]
                == ents_view(dvec_pre)[k] by {
                assert(dvec@[k] == dvec_pre[k]);
            }
            assert forall|k: int| 0 <= k < cn && k != j implies #[trigger] ents_view(cvec@)[k]
                == ents_view(cvec_pre)[k] by {
                assert(cvec@[k] == cvec_pre[k]);
            }
            assert(ents_view(dvec@)[i as int] == (gds.first().0, nd as int));
            assert(ents_view(cvec@)[j as int] == (gcs.first().0, nc as int));
            assert(forall|k: int|
                0 <= k < gds.len() ==> #[trigger] gds[k] == ents_view(dvec_pre)[i + k]);
            assert(forall|k: int|
                0 <= k < gcs.len() ==> #[trigger] gcs[k] == ents_view(cvec_pre)[j + k]);
        }
        if nd < l {
            i = i + 1;
        }
        if nc < l {
            j = j + 1;
        }
        proof {
            assert(ents_view(dvec@).skip(i as int) =~= ds2);
            assert(ents_view(cvec@).skip(j as int) =~= cs2);
            assert(triples_view(out@) + greedy(ds2, cs2, l as int) =~= (triples_view(out_before)
                + emitted) + greedy(ds2, cs2, l as int));
            assert((triples_view(out_before) + emitted) + greedy(ds2, cs2, l as int)
                =~= triples_view(out_before) + (emitted + greedy(ds2, cs2, l as int)));
            assert(triples_view(out_before) + (emitted + greedy(ds2, cs2, l as int))
                == triples_view(out_before) + greedy(gds, gcs, l as int));
        }
    }
    proof {
        if i == dn {
            assert(ents_view(dvec@).skip(i as int) =~= Seq::<(Seq<char>, int)>::empty());
        } else {
            assert(ents_view(cvec@).skip(j as int) =~= Seq::<(Seq<char>, int)>::empty());
        }
        assert(greedy(
            ents_view(dvec@).skip(i as int),
            ents_view(cvec@).skip(j as int),
            l as int,
        ) =~= Seq::<(Seq<char>, Seq<char>, int)>::empty());
        assert(triples_view(out@) =~= greedy(ds0, cs0, l as int));
        assert(triples_view(out@) == simplified_model(*group));
        // positivity and distinctness of the emitted endpoints
        assert forall|k: int| 0 <= k < ds0.len() implies (#[trigger] ds0[k]).1 >= l as int by {}
        assert forall|k: int| 0 <= k < cs0.len() implies (#[trigger] cs0[k]).1 >= l as int by {}
        lemma_greedy_props(ds0, cs0, l as int);
        assert forall|k: int| 0 <= k < out@.len() implies ((#[trigger] out@[k]).from@
            != out@[k].to@ && out@[k].amount >= 2) by {
            let tr = triples_view(out@)[k];
            assert(tr == (out@[k].from@, out@[k].to@, out@[k].amount as int));
            assert(tr.2 >= 2);
            let pd = choose|p: int| 0 <= p < ds0.len() && (#[trigger] ds0[p]).0 == tr.0;
            let pc = choose|p: int| 0 <= p < cs0.len() && (#[trigger] cs0[p]).0 == tr.1;
            assert(ds0[pd].1 == -bal(events, ds0[pd].0, l as int));
            assert(cs0[pc].1 == bal(events, cs0[pc].0, l as int));
            if out@[k].from@ == out@[k].to@ {
                assert(bal(events, tr.0, l as int) == bal(events, tr.1, l as int));
                assert(false);
            }
        }
    }
    out
}

/// The smaller of two integers.
pub open spec fn min_int(a: int, b: int) -> int {
    if a <= b {
        a
    } else {
        b
    }
}

/// Sum of the amounts of an entry list.
pub open spec fn sum_ents(s: Seq<(Seq<char>, int)>) -> int
    decreases s.len(),
{
    if s.len() == 0 {
        0
    } else {
        s.first().1 + sum_ents(s.drop_first())
    }
}

/// Sum of the emitted amounts, in cents.
pub open spec fn sum_triples(ts: Seq<(Seq<char>, Seq<char>, int)>) -> int
    decreases ts.len(),
{
    if ts.len() == 0 {
        0
    } else {
        ts.first().2 + sum_triples(ts.drop_first())
    }
}

/// Sum of the positive balances of all members, in `1 / l` cents.
pub open spec fn sum_pos(members: Seq<User>, events: Seq<crate::models::Expense>, l: int) -> int
    decreases members.len(),
{
    if members.len() == 0 {
        0
    } else {
        let b = bal(events, members.last().name@, l);
        sum_pos(members.drop_last(), events, l) + if b > 0 {
            b
        } else {
            0int
        }
    }
}

/// Sum of the negated negative balances of all members.
pub open spec fn sum_neg(members: Seq<User>, events: Seq<crate::models::Expense>, l: int) -> int
    decreases members.len(),
{
    if members.len() == 0 {
        0
    } else {
        let b = bal(events, members.last().name@, l);
        sum_neg(members.drop_last(), events, l) + if b < 0 {
            -b
        } else {
            0int
        }
    }
}

proof fn lemma_sum_ents_last(s: Seq<(Seq<char>, int)>)
    requires
        s.len() >= 1,
    ensures
        sum_ents(s) == sum_ents(s.drop_last()) + s.last().1,
    decreases s.len(),
{
    if s.len() == 1 {
        assert(s.drop_first() =~= Seq::<(Seq<char>, int)>::empty());
        assert(s.drop_last() =~= Seq::<(Seq<char>, int)>::empty());
    } else {
        lemma_sum_ents_last(s.drop_first());
        assert(s.drop_first().drop_last() =~= s.drop_last().drop_first());
        assert(s.drop_first().last() == s.last());
        assert(s.drop_last().first() == s.first());
    }
}

proof fn lemma_insert_entry_sum(e: (Seq<char>, int), s: Seq<(Seq<char>, int)>)
    ensures
        sum_ents(insert_entry(e, s)) == e.1 + sum_ents(s),
    decreases s.len(),
{
    if s.len() > 0 && ent_before(s.first(), e) {
        lemma_insert_entry_sum(e, s.drop_first());
        let r = insert_entry(e, s);
        assert(r.first() == s.first());
        assert(r.drop_first() =~= insert_entry(e, s.drop_first()));
    } else {
        let r = insert_entry(e, s);
        assert(r.first() == e);
        assert(r.drop_first() =~= s);
    }
}

proof fn lemma_sort_entries_sum(s: Seq<(Seq<char>, int)>)
    ensures
        sum_ents(sort_entries(s)) == sum_ents(s),
    decreases s.len(),
{
    if s.len() > 0 {
        lemma_sort_entries_sum(s.drop_last());
        lemma_insert_entry_sum(s.last(), sort_entries(s.drop_last()));
        lemma_sum_ents_last(s);
    }
}

/// The creditor list carries all of the positive balance mass up to one
/// cent per member, the debtor list all of the negative mass.
proof fn lemma_entry_sums(members: Seq<User>, events: Seq<crate::models::Expense>, l: int)
    requires
        1 <= l,
    ensures
        sum_ents(creditors_of(members, events, l)) <= sum_pos(members, events, l),
        sum_pos(members, events, l) <= sum_ents(creditors_of(members, events, l)) + members.len()
            * l,
        sum_ents(debtors_of(members, events, l)) <= sum_neg(members, events, l),
        sum_neg(members, events, l) <= sum_ents(debtors_of(members, events, l)) + members.len()
            * l,
        debtors_of(members, events, l).len() + creditors_of(members, events, l).len()
            <= members.len(),
    decreases members.len(),
{
    if members.len() == 0 {
    } else {
        let dl = members.drop_last();
        lemma_entry_sums(dl, events, l);
        let b = bal(events, members.last().name@, l);
        if b > l {
            lemma_sum_ents_last(creditors_of(members, events, l));
            assert(creditors_of(members, events, l).drop_last() =~= creditors_of(dl, events, l));
        }
        if b < -l {
            lemma_sum_ents_last(debtors_of(members, events, l));
            assert(debtors_of(members, events, l).drop_last() =~= debtors_of(dl, events, l));
        }
        assert((dl.len() + 1) * l == dl.len() * l + l) by (nonlinear_arith);
    }
}

/// Positive and negative mass differ by exactly the sum of all balances.
proof fn lemma_pos_minus_neg(members: Seq<User>, events: Seq<crate::models::Expense>, l: int)
    ensures
        sum_pos(members, events, l) - sum_neg(members, events, l) == crate::balances::sum_bal(
            members,
            events,
            l,
        ),
    decreases members.len(),
{
    if members.len() > 0 {
        lemma_pos_minus_neg(members.drop_last(), events, l);
    }
}

/// The sweep conserves money up to rounding: what it emits differs from
/// the smaller of the two masses by at most two cents per list entry.
proof fn lemma_greedy_conservation(ds: Seq<(Seq<char>, int)>, cs: Seq<(Seq<char>, int)>, l: int)
    requires
        1 <= l,
        forall|k: int| 0 <= k < ds.len() ==> (#[trigger] ds[k]).1 >= l,
        forall|k: int| 0 <= k < cs.len() ==> (#[trigger] cs[k]).1 >= l,
    ensures
        sum_triples(greedy(ds, cs, l)) * l >= min_int(sum_ents(ds), sum_ents(cs)) - 3 * (ds.len()
            + cs.len()) * l,
        sum_triples(greedy(ds, cs, l)) * l <= min_int(sum_ents(ds), sum_ents(cs)) + 3 * (ds.len()
            + cs.len()) * l,
    decreases ds.len() + cs.len(),
{
    if ds.len() == 0 || cs.len() == 0 {
        if ds.len() == 0 {
            assert(sum_ents(ds) == 0);
            lemma_sum_ents_nonneg(cs, l);
        } else {
            assert(sum_ents(cs) == 0);
            lemma_sum_ents_nonneg(ds, l);
        }
    } else {
        let d = ds.first();
        let c = cs.first();
        let chunk = if d.1 <= c.1 {
            d.1
        } else {
            c.1
        };
        let dr = d.1 - chunk;
        let cr = c.1 - chunk;
        let ds2 = if dr < l {
            ds.drop_first()
        } else {
            seq![(d.0, dr)] + ds.drop_first()
        };
        let cs2 = if cr < l {
            cs.drop_first()
        } else {
            seq![(c.0, cr)] + cs.drop_first()
        };
        let e0: int = if round_div(chunk, l) >= 2 {
            round_div(chunk, l)
        } else {
            0
        };
        // an emitted head is within one cent of the chunk; a suppressed
        // chunk rounds to at most one cent and so is itself below two cents
        lemma_round_div_bounds(chunk, l);
        if round_div(chunk, l) >= 2 {
            assert(-l <= e0 * l - chunk <= l) by (nonlinear_arith)
                requires
                    2 * l * e0 <= 2 * chunk + l,
                    2 * l * e0 > 2 * chunk - l,
                    e0 == round_div(chunk, l),
                    1 <= l,
            ;
        } else {
            assert(chunk <= 2 * l) by (nonlinear_arith)
                requires
                    2 * l * round_div(chunk, l) > 2 * chunk - l,
                    0 <= round_div(chunk, l) <= 1,
                    1 <= l,
            ;
        }
        // remaining masses
        assert(forall|k: int| 0 <= k < ds.drop_first().len() ==> #[trigger] ds.drop_first()[k]
            == ds[k + 1]);
        assert(forall|k: int| 0 <= k < cs.drop_first().len() ==> #[trigger] cs.drop_first()[k]
            == cs[k + 1]);
        if dr >= l {
            assert(ds2.drop_first() =~= ds.drop_first());
            assert(forall|k: int| 0 <= k < ds2.len() ==> (#[trigger] ds2[k]).1 >= l);
        }
        if cr >= l {
            assert(cs2.drop_first() =~= cs.drop_first());
            assert(forall|k: int| 0 <= k < cs2.len() ==> (#[trigger] cs2[k]).1 >= l);
        }
        assert(sum_ents(ds) == d.1 + sum_ents(ds.drop_first()));
        assert(sum_ents(cs) == c.1 + sum_ents(cs.drop_first()));
        let sd2 = sum_ents(ds2);
        let sc2 = sum_ents(cs2);
        assert(sd2 == if dr < l {
            sum_ents(ds) - chunk - dr
        } else {
            sum_ents(ds) - chunk
        });
        assert(sc2 == if cr < l {
            sum_ents(cs) - chunk - cr
        } else {
            sum_ents(cs) - chunk
        });
        lemma_greedy_conservation(ds2, cs2, l);
        let s2 = sum_triples(greedy(ds2, cs2, l));
        let m = min_int(sum_ents(ds), sum_ents(cs));
        let m2 = min_int(sd2, sc2);
        assert(m - chunk - l < m2 <= m - chunk);
        // the recursion shrinks: the side that supplied the chunk is dropped
        assert(ds2.len() + cs2.len() < ds.len() + cs.len());
        let g = greedy(ds, cs, l);
        assert(sum_triples(g) == e0 + s2) by {
            if round_div(chunk, l) >= 2 {
                let em = seq![(d.0, c.0, round_div(chunk, l))];
                assert(g =~= em + greedy(ds2, cs2, l));
                assert(g.first().2 == e0);
                assert(g.drop_first() =~= greedy(ds2, cs2, l));
            } else {
                assert(g =~= greedy(ds2, cs2, l));
            }
        }
        assert(sum_triples(g) * l == e0 * l + s2 * l) by (nonlinear_arith)
            requires
                sum_triples(g) == e0 + s2,
        ;
        assert(3 * (ds.len() + cs.len()) * l >= 3 * (ds2.len() + cs2.len()) * l + 3 * l)
            by (nonlinear_arith)
            requires
                ds2.len() + cs2.len() < ds.len() + cs.len(),
                1 <= l,
        ;
    }
}

proof fn lemma_sum_ents_nonneg(s: Seq<(Seq<char>, int)>, l: int)
    requires
        1 <= l,
        forall|k: int| 0 <= k < s.len() ==> (#[trigger] s[k]).1 >= l,
    ensures
        sum_ents(s) >= 0,
    decreases s.len(),
{
    if s.len() > 0 {
        assert(forall|k: int| 0 <= k < s.drop_first().len() ==> #[trigger] s.drop_first()[k]
            == s[k + 1]);
        lemma_sum_ents_nonneg(s.drop_first(), l);
    }
}

/// Minimal-transaction conservation law: the amounts the resolver emits sum
/// to the group's positive balance mass, up to rounding noise of at most
/// four cents per member (balances within a cent of zero are excluded from
/// the sweep, the threshold suppresses transfers that round to a cent or
/// less, and rounding moves each emitted transfer by at most half a cent).
pub proof fn lemma_simplified_conservation(g: Group)
    requires
        group_wf(g),
    ensures
        sum_triples(simplified_model(g)) * scale(g.expenses@) >= sum_pos(
            g.members@,
            g.expenses@,
            scale(g.expenses@),
        ) - 4 * g.members@.len() * scale(g.expenses@),
        sum_triples(simplified_model(g)) * scale(g.expenses@) <= sum_pos(
            g.members@,
            g.expenses@,
            scale(g.expenses@),
        ) + 4 * g.members@.len() * scale(g.expenses@),
{
    let members = g.members@;
    let events = g.expenses@;
    lemma_wf_events(g);
    lemma_scale_props(events);
    let l = scale(events);
    crate::balances::lemma_total_nonneg(events);
    let t = total(events);
    assert forall|name: Seq<char>| -(t * l) <= #[trigger] bal(events, name, l) <= t * l by {
        lemma_bal_bound(events, name, l);
    }
    lemma_sorted_lists_props(members, events, l, t);
    let ds0 = sort_entries(debtors_of(members, events, l));
    let cs0 = sort_entries(creditors_of(members, events, l));
    assert(forall|k: int| 0 <= k < ds0.len() ==> (#[trigger] ds0[k]).1 >= l);
    assert(forall|k: int| 0 <= k < cs0.len() ==> (#[trigger] cs0[k]).1 >= l);
    lemma_greedy_conservation(ds0, cs0, l);
    lemma_sort_entries_sum(debtors_of(members, events, l));
    lemma_sort_entries_sum(creditors_of(members, events, l));
    lemma_sort_entries_elems(debtors_of(members, events, l));
    lemma_sort_entries_elems(creditors_of(members, events, l));
    lemma_entry_sums(members, events, l);
    lemma_pos_minus_neg(members, events, l);
    crate::balances::lemma_balances_zero_sum(g);
    let p = sum_pos(members, events, l);
    let dmass = sum_ents(ds0);
    let cmass = sum_ents(cs0);
    let m = min_int(dmass, cmass);
    let dn = debtors_of(members, events, l).len() as int;
    let cn = creditors_of(members, events, l).len() as int;
    assert(sum_neg(members, events, l) == p);
    assert(cmass <= p && p <= cmass + members.len() * l);
    assert(dmass <= p && p <= dmass + members.len() * l);
    assert(m <= p && p <= m + members.len() * l);
    assert(3 * (dn + cn) * l + members.len() * l <= 4 * members.len() * l) by (nonlinear_arith)
        requires
            dn + cn <= members.len(),
            1 <= l,
            0 <= dn,
            0 <= cn,
    ;
    assert(3 * (ds0.len() + cs0.len()) * l == 3 * (dn + cn) * l);
}

} // verus!
