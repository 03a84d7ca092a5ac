//! Settlements of balances in whole, even minor units that net to zero:
//! there no near-tie within the tolerance can arise, so every debt and
//! credit is settled exactly.
use vstd::prelude::*;
use vstd::arithmetic::div_mod::{lemma_fundamental_div_mod, lemma_fundamental_div_mod_converse};
use crate::balance::{SCALE, abs};
use crate::settlement::{
    Entry, Payment, TOLERANCE, greedy, in_minor_units, insert_by_name, leftover, minor_payment,
    on_side, queue, settlement, to_minor_units,
};
use crate::settlement_properties::{
    lemma_queue_contents, lemma_settlement_conserves, paid, received, unique_names,
};

verus! {

/// Every balance is a whole, even number of minor units (in fixed point).
pub open spec fn even_units(s: Seq<Entry>) -> bool {
    forall|i: int| 0 <= i < s.len() ==> #[trigger] s[i].1 % (2 * SCALE) == 0
}

/// The sum of the balances of `s`.
pub open spec fn balance_sum(s: Seq<Entry>) -> int
    decreases s.len(),
{
    if s.len() == 0 {
        0
    } else {
        balance_sum(s.drop_last()) + s.last().1
    }
}

/// The sum of the balances of `s`, read from the front.
pub open spec fn front_sum(s: Seq<Entry>) -> int
    decreases s.len(),
{
    if s.len() == 0 {
        0
    } else {
        s[0].1 + front_sum(s.drop_first())
    }
}

/// The sum of the balances of `s` on one side.
pub open spec fn side_sum(s: Seq<Entry>, debt: bool) -> int
    decreases s.len(),
{
    if s.len() == 0 {
        0
    } else {
        side_sum(s.drop_last(), debt) + if on_side(s.last(), debt) {
            s.last().1
        } else {
            0
        }
    }
}

proof fn lemma_even(a: int, b: int)
    requires
        a % (2 * SCALE) == 0,
        b % (2 * SCALE) == 0,
    ensures
        (a + b) % (2 * SCALE) == 0,
        (a - b) % (2 * SCALE) == 0,
        abs(a + b) <= TOLERANCE ==> a + b == 0,
        -(TOLERANCE as int) <= a <= TOLERANCE ==> a == 0,
{
    let m = 2 * SCALE;
    lemma_fundamental_div_mod(a, m as int);
    lemma_fundamental_div_mod(b, m as int);
    let qa = a / (m as int);
    let qb = b / (m as int);
    assert(a + b == (qa + qb) * m) by (nonlinear_arith)
        requires a == m * qa + 0, b == m * qb + 0;
    assert(a - b == (qa - qb) * m) by (nonlinear_arith)
        requires a == m * qa + 0, b == m * qb + 0;
    lemma_fundamental_div_mod_converse(a + b, m as int, qa + qb, 0);
    lemma_fundamental_div_mod_converse(a - b, m as int, qa - qb, 0);
    assert(abs(a + b) <= TOLERANCE ==> a + b == 0) by (nonlinear_arith)
        requires a + b == (qa + qb) * m, m == 2000000, TOLERANCE == 1000000;
    assert(-(TOLERANCE as int) <= a <= TOLERANCE ==> a == 0) by (nonlinear_arith)
        requires a == m * qa + 0, m == 2000000, TOLERANCE == 1000000;
}

/// A multiple of two minor units rounds to itself.
proof fn lemma_minor_exact(v: int)
    requires
        v % (2 * SCALE) == 0,
    ensures
        to_minor_units(v) * SCALE == v,
{
    let m = 2 * SCALE;
    lemma_fundamental_div_mod(v, m as int);
    let q = v / (m as int);
    if v >= 0 {
        assert(v + SCALE / 2 == (2 * q) * SCALE + SCALE / 2) by (nonlinear_arith)
            requires v == m * q + 0, m == 2 * SCALE;
        lemma_fundamental_div_mod_converse(v + SCALE / 2, SCALE as int, 2 * q, SCALE / 2);
        assert((2 * q) * SCALE == v) by (nonlinear_arith)
            requires v == m * q + 0, m == 2 * SCALE;
    } else {
        assert(-v + SCALE / 2 == (-2 * q) * SCALE + SCALE / 2) by (nonlinear_arith)
            requires v == m * q + 0, m == 2 * SCALE;
        lemma_fundamental_div_mod_converse(-v + SCALE / 2, SCALE as int, -2 * q, SCALE / 2);
        assert(-(-2 * q) * SCALE == v) by (nonlinear_arith)
            requires v == m * q + 0, m == 2 * SCALE;
    }
}

/// Every payment of the greedy matching of even balances is even.
proof fn lemma_greedy_even(ds: Seq<Entry>, cs: Seq<Entry>)
    requires
        even_units(ds),
        even_units(cs),
    ensures
        forall|k: int| 0 <= k < greedy(ds, cs).len() ==> #[trigger] greedy(ds, cs)[k].2 % (2 * SCALE) == 0,
    decreases ds.len() + cs.len(),
{
    if ds.len() > 0 && cs.len() > 0 {
        let debt = -ds[0].1;
        let credit = cs[0].1;
        lemma_even(ds[0].1, credit);
        lemma_even(0, ds[0].1);
        let (nd, nc) = if abs(debt - credit) <= TOLERANCE {
            (ds.drop_first(), cs.drop_first())
        } else if debt < credit {
            (ds.drop_first(), cs.update(0, (cs[0].0, credit - debt)))
        } else {
            (ds.update(0, (ds[0].0, -(debt - credit))), cs.drop_first())
        };
        assert(even_units(nd)) by {
            assert forall|i: int| 0 <= i < nd.len() implies #[trigger] nd[i].1 % (2 * SCALE) == 0 by {
                if nd.len() < ds.len() {
                    assert(nd[i] == ds[i + 1]);
                } else if i > 0 {
                    assert(nd[i] == ds[i]);
                }
            }
        }
        assert(even_units(nc)) by {
            assert forall|i: int| 0 <= i < nc.len() implies #[trigger] nc[i].1 % (2 * SCALE) == 0 by {
                if nc.len() < cs.len() {
                    assert(nc[i] == cs[i + 1]);
                } else if i > 0 {
                    assert(nc[i] == cs[i]);
                }
            }
        }
        lemma_greedy_even(nd, nc);
        let g = greedy(ds, cs);
        assert forall|k: int| 0 <= k < g.len() implies #[trigger] g[k].2 % (2 * SCALE) == 0 by {
            if k > 0 {
                assert(g[k] == greedy(nd, nc)[k - 1]);
            }
        }
    }
}

proof fn lemma_one_side_sum(s: Seq<Entry>, debt: bool)
    requires
        forall|i: int| 0 <= i < s.len() ==> on_side(#[trigger] s[i], debt),
    ensures
        debt ==> front_sum(s) <= 0,
        !debt ==> front_sum(s) >= 0,
        s.len() > 0 && debt ==> front_sum(s) < 0,
        s.len() > 0 && !debt ==> front_sum(s) > 0,
    decreases s.len(),
{
    if s.len() > 0 {
        let u = s.drop_first();
        assert forall|i: int| 0 <= i < u.len() implies on_side(#[trigger] u[i], debt) by {
            assert(u[i] == s[i + 1]);
        }
        lemma_one_side_sum(u, debt);
        assert(on_side(s[0], debt));
    }
}

/// Even balances of opposite sides that net to zero leave nothing over.
proof fn lemma_greedy_settles_all(ds: Seq<Entry>, cs: Seq<Entry>)
    requires
        even_units(ds),
        even_units(cs),
        forall|i: int| 0 <= i < ds.len() ==> on_side(#[trigger] ds[i], true),
        forall|i: int| 0 <= i < cs.len() ==> on_side(#[trigger] cs[i], false),
        front_sum(ds) + front_sum(cs) == 0,
    ensures
        leftover(ds, cs).0.len() == 0,
        leftover(ds, cs).1.len() == 0,
    decreases ds.len() + cs.len(),
{
    if ds.len() == 0 || cs.len() == 0 {
        lemma_one_side_sum(ds, true);
        lemma_one_side_sum(cs, false);
    } else {
        let debt = -ds[0].1;
        let credit = cs[0].1;
        lemma_even(ds[0].1, credit);
        lemma_even(0, ds[0].1);
        lemma_even(0, credit);
        let (nd, nc) = if abs(debt - credit) <= TOLERANCE {
            (ds.drop_first(), cs.drop_first())
        } else if debt < credit {
            (ds.drop_first(), cs.update(0, (cs[0].0, credit - debt)))
        } else {
            (ds.update(0, (ds[0].0, -(debt - credit))), cs.drop_first())
        };
        assert(nd.len() == 0 || nd.drop_first() == ds.drop_first() || nd == ds.drop_first());
        assert(ds.update(0, (ds[0].0, -(debt - credit))).drop_first() =~= ds.drop_first());
        assert(cs.update(0, (cs[0].0, credit - debt)).drop_first() =~= cs.drop_first());
        assert(even_units(nd)) by {
            assert forall|i: int| 0 <= i < nd.len() implies #[trigger] nd[i].1 % (2 * SCALE) == 0 by {
                if nd.len() < ds.len() {
                    assert(nd[i] == ds[i + 1]);
                } else if i > 0 {
                    assert(nd[i] == ds[i]);
                }
            }
        }
        assert(even_units(nc)) by {
            assert forall|i: int| 0 <= i < nc.len() implies #[trigger] nc[i].1 % (2 * SCALE) == 0 by {
                if nc.len() < cs.len() {
                    assert(nc[i] == cs[i + 1]);
                } else if i > 0 {
                    assert(nc[i] == cs[i]);
                }
            }
        }
        assert forall|i: int| 0 <= i < nd.len() implies on_side(#[trigger] nd[i], true) by {
            if nd.len() < ds.len() {
                assert(nd[i] == ds[i + 1]);
            } else if i > 0 {
                assert(nd[i] == ds[i]);
            }
        }
        assert forall|i: int| 0 <= i < nc.len() implies on_side(#[trigger] nc[i], false) by {
            if nc.len() < cs.len() {
                assert(nc[i] == cs[i + 1]);
            } else if i > 0 {
                assert(nc[i] == cs[i]);
            }
        }
        lemma_greedy_settles_all(nd, nc);
    }
}

proof fn lemma_insert_sum(t: Seq<Entry>, x: Entry)
    ensures
        front_sum(insert_by_name(t, x)) == front_sum(t) + x.1,
    decreases t.len(),
{
    if t.len() == 0 {
        assert(insert_by_name(t, x).drop_first() =~= t);
    } else if crate::settlement::name_lt(x.0, t[0].0) {
        assert((seq![x] + t).drop_first() =~= t);
    } else {
        lemma_insert_sum(t.drop_first(), x);
        assert((seq![t[0]] + insert_by_name(t.drop_first(), x)).drop_first() =~= insert_by_name(
            t.drop_first(),
            x,
        ));
    }
}

proof fn lemma_queue_sum(bal: Seq<Entry>, debt: bool)
    ensures
        front_sum(queue(bal, debt)) == side_sum(bal, debt),
    decreases bal.len(),
{
    if bal.len() > 0 {
        lemma_queue_sum(bal.drop_last(), debt);
        if on_side(bal.last(), debt) {
            lemma_insert_sum(queue(bal.drop_last(), debt), bal.last());
        }
    }
}

proof fn lemma_sides_make_sum(bal: Seq<Entry>)
    requires
        even_units(bal),
    ensures
        balance_sum(bal) == side_sum(bal, true) + side_sum(bal, false),
    decreases bal.len(),
{
    if bal.len() > 0 {
        let prev = bal.drop_last();
        assert(even_units(prev)) by {
            assert forall|i: int| 0 <= i < prev.len() implies #[trigger] prev[i].1 % (2 * SCALE) == 0 by {
                assert(prev[i] == bal[i]);
            }
        }
        lemma_sides_make_sum(prev);
        let v = bal.last().1;
        assert(v % (2 * SCALE) == 0) by {
            assert(bal[bal.len() - 1].1 % (2 * SCALE) == 0);
        }
        lemma_even(v, 0);
    }
}

proof fn lemma_paid_even(ps: Seq<Payment>, n: Seq<char>)
    requires
        forall|k: int| 0 <= k < ps.len() ==> #[trigger] ps[k].2 % (2 * SCALE) == 0,
    ensures
        paid(ps, n) % (2 * SCALE) == 0,
        received(ps, n) % (2 * SCALE) == 0,
        paid(in_minor_units(ps), n) * SCALE == paid(ps, n),
        received(in_minor_units(ps), n) * SCALE == received(ps, n),
    decreases ps.len(),
{
    if ps.len() == 0 {
        assert(0int % (2 * SCALE) == 0);
    } else {
        let u = ps.drop_first();
        assert forall|k: int| 0 <= k < u.len() implies #[trigger] u[k].2 % (2 * SCALE) == 0 by {
            assert(u[k] == ps[k + 1]);
        }
        lemma_paid_even(u, n);
        assert(in_minor_units(ps).drop_first() =~= in_minor_units(u));
        assert(in_minor_units(ps)[0] == minor_payment(ps[0]));
        lemma_minor_exact(ps[0].2);
        lemma_even(ps[0].2, paid(u, n));
        lemma_even(ps[0].2, received(u, n));
        lemma_even(0, paid(u, n));
        lemma_even(0, received(u, n));
        let a = ps[0].2;
        let ma = to_minor_units(a);
        assert((ma + paid(in_minor_units(u), n)) * SCALE == ma * SCALE + paid(in_minor_units(u), n)
            * SCALE) by (nonlinear_arith);
        assert((ma + received(in_minor_units(u), n)) * SCALE == ma * SCALE + received(
            in_minor_units(u),
            n,
        ) * SCALE) by (nonlinear_arith);
        assert((0 + paid(in_minor_units(u), n)) * SCALE == paid(in_minor_units(u), n) * SCALE);
        assert((0 + received(in_minor_units(u), n)) * SCALE == received(in_minor_units(u), n) * SCALE);
    }
}

/// Exact conservation: when every balance is a whole, even number of minor
/// units and the balances sum to zero, nobody is left over, and the emitted
/// payments of each debtor add up to exactly its debt, those of each
/// creditor to exactly its credit.
pub proof fn lemma_settlement_exact(bal: Seq<Entry>, x: Entry)
    requires
        unique_names(bal),
        even_units(bal),
        balance_sum(bal) == 0,
        bal.contains(x),
    ensures
        leftover(queue(bal, true), queue(bal, false)).0.len() == 0,
        leftover(queue(bal, true), queue(bal, false)).1.len() == 0,
        x.1 < 0 ==> paid(in_minor_units(settlement(bal)), x.0) * SCALE == -x.1,
        x.1 > 0 ==> received(in_minor_units(settlement(bal)), x.0) * SCALE == x.1,
{
    let dq = queue(bal, true);
    let cq = queue(bal, false);
    lemma_queue_contents(bal, true);
    lemma_queue_contents(bal, false);
    assert forall|i: int| 0 <= i < dq.len() implies #[trigger] dq[i].1 % (2 * SCALE) == 0 && on_side(
        dq[i],
        true,
    ) by {
        assert(dq.contains(dq[i]));
        let k = choose|k: int| 0 <= k < bal.len() && bal[k] == dq[i];
        assert(bal[k].1 % (2 * SCALE) == 0);
    }
    assert forall|i: int| 0 <= i < cq.len() implies #[trigger] cq[i].1 % (2 * SCALE) == 0 && on_side(
        cq[i],
        false,
    ) by {
        assert(cq.contains(cq[i]));
        let k = choose|k: int| 0 <= k < bal.len() && bal[k] == cq[i];
        assert(bal[k].1 % (2 * SCALE) == 0);
    }
    lemma_queue_sum(bal, true);
    lemma_queue_sum(bal, false);
    lemma_sides_make_sum(bal);
    lemma_greedy_settles_all(dq, cq);
    lemma_greedy_even(dq, cq);
    let g = settlement(bal);
    lemma_paid_even(g, x.0);
    let k = choose|k: int| 0 <= k < bal.len() && bal[k] == x;
    assert(x.1 % (2 * SCALE) == 0) by {
        assert(bal[k].1 % (2 * SCALE) == 0);
    }
    lemma_settlement_conserves(bal, x);
    lemma_even(0, x.1);
    if x.1 < 0 {
        lemma_even(paid(g, x.0), x.1);
    }
    if x.1 > 0 {
        lemma_even(received(g, x.0), -x.1);
        lemma_even(0, -x.1);
    }
}

} // verus!
