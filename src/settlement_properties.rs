//! What holds of every settlement the planner produces.
use vstd::prelude::*;
use crate::balance::{abs, Update, first_mentions, ledger_updates, mentions};
use crate::settlement::ledger_balances;
use crate::types::SavedExpense;
use crate::settlement::{
    Entry, Payment, TOLERANCE, greedy, insert_by_name, leftover, on_side, queue, settlement,
    name_lt, lemma_name_order,
};

verus! {

/// No two entries of `s` share a name: `s` is a mapping from names.
pub open spec fn unique_names(s: Seq<Entry>) -> bool {
    forall|i: int, j: int| #![trigger s[i], s[j]] 0 <= i < j < s.len() ==> s[i].0 != s[j].0
}

pub open spec fn has_name(s: Seq<Entry>, n: Seq<char>) -> bool {
    exists|i: int| 0 <= i < s.len() && s[i].0 == n
}

/// What `d` pays in total over the payments `ps`.
pub open spec fn paid(ps: Seq<Payment>, d: Seq<char>) -> int
    decreases ps.len(),
{
    if ps.len() == 0 {
        0
    } else {
        (if ps[0].0 == d { ps[0].2 } else { 0 }) + paid(ps.drop_first(), d)
    }
}

/// What `c` receives in total over the payments `ps`.
pub open spec fn received(ps: Seq<Payment>, c: Seq<char>) -> int
    decreases ps.len(),
{
    if ps.len() == 0 {
        0
    } else {
        (if ps[0].1 == c { ps[0].2 } else { 0 }) + received(ps.drop_first(), c)
    }
}

proof fn lemma_insert_contents(t: Seq<Entry>, x: Entry)
    ensures
        insert_by_name(t, x).len() == t.len() + 1,
        forall|y: Entry| #[trigger] insert_by_name(t, x).contains(y) <==> (t.contains(y) || y == x),
        !has_name(t, x.0) && unique_names(t) ==> unique_names(insert_by_name(t, x)),
    decreases t.len(),
{
    let r = insert_by_name(t, x);
    if t.len() == 0 {
        assert forall|y: Entry| #[trigger] r.contains(y) <==> (t.contains(y) || y == x) by {
            if r.contains(y) {
                assert(r[0] == y);
            }
            if y == x {
                assert(r[0] == y);
            }
        }
    } else if name_lt(x.0, t[0].0) {
        assert forall|y: Entry| #[trigger] r.contains(y) <==> (t.contains(y) || y == x) by {
            if r.contains(y) {
                let i = choose|i: int| 0 <= i < r.len() && r[i] == y;
                if i > 0 {
                    assert(t[i - 1] == y);
                }
            }
            if t.contains(y) {
                let i = choose|i: int| 0 <= i < t.len() && t[i] == y;
                assert(r[i + 1] == y);
            }
            if y == x {
                assert(r[0] == y);
            }
        }
        if !has_name(t, x.0) && unique_names(t) {
            assert forall|i: int, j: int| #![trigger r[i], r[j]] 0 <= i < j < r.len() implies r[i].0
                != r[j].0 by {
                if i == 0 {
                    assert(r[j] == t[j - 1]);
                } else {
                    assert(r[i] == t[i - 1] && r[j] == t[j - 1]);
                }
            }
        }
    } else {
        let u = t.drop_first();
        lemma_insert_contents(u, x);
        let ru = insert_by_name(u, x);
        assert(r == seq![t[0]] + ru);
        assert forall|y: Entry| #[trigger] r.contains(y) <==> (t.contains(y) || y == x) by {
            if r.contains(y) {
                let i = choose|i: int| 0 <= i < r.len() && r[i] == y;
                if i > 0 {
                    assert(ru[i - 1] == y);
                    assert(ru.contains(y));
                    if u.contains(y) {
                        let k = choose|k: int| 0 <= k < u.len() && u[k] == y;
                        assert(t[k + 1] == y);
                    }
                } else {
                    assert(t[0] == y);
                }
            }
            if t.contains(y) {
                let i = choose|i: int| 0 <= i < t.len() && t[i] == y;
                if i == 0 {
                    assert(r[0] == y);
                } else {
                    assert(u[i - 1] == y);
                    assert(ru.contains(y));
                    let k = choose|k: int| 0 <= k < ru.len() && ru[k] == y;
                    assert(r[k + 1] == y);
                }
            }
            if y == x {
                assert(ru.contains(y));
                let k = choose|k: int| 0 <= k < ru.len() && ru[k] == y;
                assert(r[k + 1] == y);
            }
        }
        if !has_name(t, x.0) && unique_names(t) {
            assert(!has_name(u, x.0)) by {
                if has_name(u, x.0) {
                    let k = choose|k: int| 0 <= k < u.len() && u[k].0 == x.0;
                    assert(t[k + 1].0 == x.0);
                }
            }
            assert(unique_names(u)) by {
                assert forall|i: int, j: int| #![trigger u[i], u[j]] 0 <= i < j < u.len() implies u[i].0
                    != u[j].0 by {
                    assert(u[i] == t[i + 1] && u[j] == t[j + 1]);
                }
            }
            assert forall|i: int, j: int| #![trigger r[i], r[j]] 0 <= i < j < r.len() implies r[i].0
                != r[j].0 by {
                if i == 0 {
                    assert(ru.contains(r[j]));
                    assert(r[j] == ru[j - 1]);
                    assert(t.contains(r[j]) || r[j] == x);
                    if t.contains(r[j]) {
                        let k = choose|k: int| 0 <= k < t.len() && t[k] == r[j];
                        if k == 0 {
                            assert(u.contains(r[j]) || r[j] == x);
                            if u.contains(r[j]) {
                                let m = choose|m: int| 0 <= m < u.len() && u[m] == r[j];
                                assert(t[m + 1] == r[j]);
                            }
                        } else {
                            assert(t[0].0 != t[k].0);
                        }
                    }
                    if r[j] == x {
                        assert(t[0].0 != x.0);
                    }
                } else {
                    assert(r[i] == ru[i - 1] && r[j] == ru[j - 1]);
                }
            }
        }
    }
}

/// Every entry of a queue is an entry of the balances on that side, and every
/// entry on that side is in the queue; names stay unique.
pub proof fn lemma_queue_contents(bal: Seq<Entry>, debt: bool)
    requires
        unique_names(bal),
    ensures
        forall|y: Entry| #[trigger] queue(bal, debt).contains(y) <==> (bal.contains(y) && on_side(y, debt)),
        unique_names(queue(bal, debt)),
    decreases bal.len(),
{
    if bal.len() > 0 {
        let prev = bal.drop_last();
        assert(unique_names(prev)) by {
            assert forall|i: int, j: int| #![trigger prev[i], prev[j]] 0 <= i < j < prev.len()
                implies prev[i].0 != prev[j].0 by {
                assert(prev[i] == bal[i] && prev[j] == bal[j]);
            }
        }
        lemma_queue_contents(prev, debt);
        let q = queue(prev, debt);
        let x = bal.last();
        assert forall|y: Entry| bal.contains(y) <==> (prev.contains(y) || y == x) by {
            if bal.contains(y) {
                let i = choose|i: int| 0 <= i < bal.len() && bal[i] == y;
                if i < prev.len() {
                    assert(prev[i] == y);
                }
            }
            if prev.contains(y) {
                let i = choose|i: int| 0 <= i < prev.len() && prev[i] == y;
                assert(bal[i] == y);
            }
        }
        if on_side(x, debt) {
            lemma_insert_contents(q, x);
            assert(!has_name(q, x.0)) by {
                if has_name(q, x.0) {
                    let k = choose|k: int| 0 <= k < q.len() && q[k].0 == x.0;
                    assert(q.contains(q[k]));
                    let m = choose|m: int| 0 <= m < prev.len() && prev[m] == q[k];
                    assert(bal[m].0 != bal[bal.len() - 1].0);
                }
            }
        }
    }
}

/// The debtors of greedy payments are among `ds`, the creditors among `cs`.
proof fn lemma_greedy_names(ds: Seq<Entry>, cs: Seq<Entry>)
    ensures
        forall|k: int|
            0 <= k < greedy(ds, cs).len() ==> has_name(ds, #[trigger] greedy(ds, cs)[k].0) && has_name(
                cs,
                greedy(ds, cs)[k].1,
            ),
    decreases ds.len() + cs.len(),
{
    if ds.len() > 0 && cs.len() > 0 {
        let debt = -ds[0].1;
        let credit = cs[0].1;
        let (nd, nc) = if abs(debt - credit) <= TOLERANCE {
            (ds.drop_first(), cs.drop_first())
        } else if debt < credit {
            (ds.drop_first(), cs.update(0, (cs[0].0, credit - debt)))
        } else {
            (ds.update(0, (ds[0].0, -(debt - credit))), cs.drop_first())
        };
        lemma_greedy_names(nd, nc);
        let g = greedy(ds, cs);
        let rest = greedy(nd, nc);
        assert(g == seq![g[0]] + rest);
        assert forall|k: int| 0 <= k < g.len() implies has_name(ds, #[trigger] g[k].0) && has_name(
            cs,
            g[k].1,
        ) by {
            if k == 0 {
                assert(ds[0].0 == g[0].0);
                assert(cs[0].0 == g[0].1);
            } else {
                assert(g[k] == rest[k - 1]);
                let a = choose|a: int| 0 <= a < nd.len() && nd[a].0 == rest[k - 1].0;
                let b = choose|b: int| 0 <= b < nc.len() && nc[b].0 == rest[k - 1].1;
                if nd.len() == ds.len() {
                    assert(ds[a].0 == nd[a].0);
                } else {
                    assert(ds[a + 1].0 == nd[a].0);
                }
                if nc.len() == cs.len() {
                    assert(cs[b].0 == nc[b].0);
                } else {
                    assert(cs[b + 1].0 == nc[b].0);
                }
            }
        }
    }
}


proof fn lemma_named_entry(q: Seq<Entry>, bal: Seq<Entry>, n: Seq<char>, debt: bool)
    requires
        has_name(q, n),
        forall|y: Entry| #[trigger] q.contains(y) <==> (bal.contains(y) && on_side(y, debt)),
    ensures
        exists|i: int| 0 <= i < bal.len() && bal[i].0 == n && on_side(bal[i], debt),
{
    let k = choose|k: int| 0 <= k < q.len() && q[k].0 == n;
    assert(q.contains(q[k]));
    let i = choose|i: int| 0 <= i < bal.len() && bal[i] == q[k];
    assert(bal[i].0 == n && on_side(bal[i], debt));
}

/// No payment goes from a participant to themself, and a participant whose
/// balance is within the tolerance (one minor unit) of zero takes part in no
/// payment: every debtor has a balance below minus the tolerance, every
/// creditor above it.
pub proof fn lemma_settlement_parties(bal: Seq<Entry>)
    requires
        unique_names(bal),
    ensures
        forall|k: int|
            0 <= k < settlement(bal).len() ==> (#[trigger] settlement(bal)[k]).0 != settlement(
                bal,
            )[k].1,
        forall|k: int, x: Entry|
            #![trigger settlement(bal)[k], bal.contains(x)]
            0 <= k < settlement(bal).len() && bal.contains(x) && -TOLERANCE <= x.1 <= TOLERANCE
                ==> settlement(bal)[k].0 != x.0 && settlement(bal)[k].1 != x.0,
        forall|k: int|
            0 <= k < settlement(bal).len() ==> exists|i: int|
                0 <= i < bal.len() && bal[i].0 == (#[trigger] settlement(bal)[k]).0 && bal[i].1
                    < -TOLERANCE,
        forall|k: int|
            0 <= k < settlement(bal).len() ==> exists|i: int|
                0 <= i < bal.len() && bal[i].0 == (#[trigger] settlement(bal)[k]).1 && bal[i].1
                    > TOLERANCE,
{
    let dq = queue(bal, true);
    let cq = queue(bal, false);
    lemma_queue_contents(bal, true);
    lemma_queue_contents(bal, false);
    lemma_greedy_names(dq, cq);
    let g = settlement(bal);
    assert forall|k: int| 0 <= k < g.len() implies {
        &&& g[k].0 != g[k].1
        &&& exists|i: int| 0 <= i < bal.len() && bal[i].0 == g[k].0 && bal[i].1 < -TOLERANCE
        &&& exists|i: int| 0 <= i < bal.len() && bal[i].0 == g[k].1 && bal[i].1 > TOLERANCE
        &&& forall|x: Entry| bal.contains(x) && -TOLERANCE <= x.1 <= TOLERANCE ==> g[k].0 != x.0
            && g[k].1 != x.0
    } by {
        assert(g == greedy(dq, cq));
        assert(has_name(dq, greedy(dq, cq)[k].0));
        assert(has_name(dq, g[k].0) && has_name(cq, g[k].1));
        lemma_named_entry(dq, bal, g[k].0, true);
        lemma_named_entry(cq, bal, g[k].1, false);
        let a = choose|i: int| 0 <= i < bal.len() && bal[i].0 == g[k].0 && on_side(bal[i], true);
        let b = choose|i: int| 0 <= i < bal.len() && bal[i].0 == g[k].1 && on_side(bal[i], false);
        assert(a != b);
        if g[k].0 == g[k].1 {
            if a < b {
                assert(bal[a].0 != bal[b].0);
            } else {
                assert(bal[b].0 != bal[a].0);
            }
        }
        assert forall|x: Entry| bal.contains(x) && -TOLERANCE <= x.1 <= TOLERANCE implies g[k].0
            != x.0 && g[k].1 != x.0 by {
            let m = choose|m: int| 0 <= m < bal.len() && bal[m] == x;
            if g[k].0 == x.0 {
                assert(m != a);
                if m < a {
                    assert(bal[m].0 != bal[a].0);
                } else {
                    assert(bal[a].0 != bal[m].0);
                }
            }
            if g[k].1 == x.0 {
                assert(m != b);
                if m < b {
                    assert(bal[m].0 != bal[b].0);
                } else {
                    assert(bal[b].0 != bal[m].0);
                }
            }
        }
    }
}

proof fn lemma_paid_absent(ds: Seq<Entry>, cs: Seq<Entry>, n: Seq<char>)
    ensures
        !has_name(ds, n) ==> paid(greedy(ds, cs), n) == 0,
        !has_name(cs, n) ==> received(greedy(ds, cs), n) == 0,
    decreases ds.len() + cs.len(),
{
    if ds.len() > 0 && cs.len() > 0 {
        let debt = -ds[0].1;
        let credit = cs[0].1;
        let (nd, nc) = if abs(debt - credit) <= TOLERANCE {
            (ds.drop_first(), cs.drop_first())
        } else if debt < credit {
            (ds.drop_first(), cs.update(0, (cs[0].0, credit - debt)))
        } else {
            (ds.update(0, (ds[0].0, -(debt - credit))), cs.drop_first())
        };
        lemma_paid_absent(nd, nc, n);
        let g = greedy(ds, cs);
        assert(g.drop_first() == greedy(nd, nc));
        if !has_name(ds, n) {
            assert(ds[0].0 != n);
            assert(!has_name(nd, n)) by {
                if has_name(nd, n) {
                    let a = choose|a: int| 0 <= a < nd.len() && nd[a].0 == n;
                    if nd.len() == ds.len() {
                        assert(ds[a].0 == n);
                    } else {
                        assert(ds[a + 1].0 == n);
                    }
                }
            }
        }
        if !has_name(cs, n) {
            assert(cs[0].0 != n);
            assert(!has_name(nc, n)) by {
                if has_name(nc, n) {
                    let a = choose|a: int| 0 <= a < nc.len() && nc[a].0 == n;
                    if nc.len() == cs.len() {
                        assert(cs[a].0 == n);
                    } else {
                        assert(cs[a + 1].0 == n);
                    }
                }
            }
        }
    }
}

proof fn lemma_drop_first_unique(s: Seq<Entry>)
    requires
        unique_names(s),
        s.len() > 0,
    ensures
        unique_names(s.drop_first()),
        !has_name(s.drop_first(), s[0].0),
{
    let u = s.drop_first();
    assert forall|i: int, j: int| #![trigger u[i], u[j]] 0 <= i < j < u.len() implies u[i].0 != u[j].0 by {
        assert(u[i] == s[i + 1] && u[j] == s[j + 1]);
    }
    if has_name(u, s[0].0) {
        let a = choose|a: int| 0 <= a < u.len() && u[a].0 == s[0].0;
        assert(s[0].0 != s[a + 1].0);
    }
}

proof fn lemma_update_first_unique(s: Seq<Entry>, v: int)
    requires
        unique_names(s),
        s.len() > 0,
    ensures
        unique_names(s.update(0, (s[0].0, v))),
{
    let u = s.update(0, (s[0].0, v));
    assert forall|i: int, j: int| #![trigger u[i], u[j]] 0 <= i < j < u.len() implies u[i].0 != u[j].0 by {
        assert(u[i].0 == s[i].0 && u[j].0 == s[j].0);
    }
}

/// Conservation along the greedy matching: a debtor that is not left over
/// pays its debt, a creditor that is not left over receives its credit, each
/// within the tolerance.
proof fn lemma_greedy_conserves(ds: Seq<Entry>, cs: Seq<Entry>, i: int, j: int)
    requires
        unique_names(ds),
        unique_names(cs),
    ensures
        0 <= i < ds.len() && !has_name(leftover(ds, cs).0, ds[i].0) ==> abs(
            paid(greedy(ds, cs), ds[i].0) + ds[i].1,
        ) <= TOLERANCE,
        0 <= j < cs.len() && !has_name(leftover(ds, cs).1, cs[j].0) ==> abs(
            received(greedy(ds, cs), cs[j].0) - cs[j].1,
        ) <= TOLERANCE,
    decreases ds.len() + cs.len(),
{
    if ds.len() == 0 || cs.len() == 0 {
        if 0 <= i < ds.len() {
            assert(leftover(ds, cs).0 == ds);
            assert(has_name(ds, ds[i].0));
        }
        if 0 <= j < cs.len() {
            assert(leftover(ds, cs).1 == cs);
            assert(has_name(cs, cs[j].0));
        }
    } else {
        let debt = -ds[0].1;
        let credit = cs[0].1;
        let g = greedy(ds, cs);
        let d0 = ds[0].0;
        let c0 = cs[0].0;
        if abs(debt - credit) <= TOLERANCE {
            let nd = ds.drop_first();
            let nc = cs.drop_first();
            lemma_drop_first_unique(ds);
            lemma_drop_first_unique(cs);
            lemma_greedy_conserves(nd, nc, i - 1, j - 1);
            lemma_paid_absent(nd, nc, d0);
            lemma_paid_absent(nd, nc, c0);
            assert(g.drop_first() == greedy(nd, nc));
            if 0 < i < ds.len() {
                assert(nd[i - 1] == ds[i]);
                assert(ds[0].0 != ds[i].0);
            }
            if 0 < j < cs.len() {
                assert(nc[j - 1] == cs[j]);
                assert(cs[0].0 != cs[j].0);
            }
        } else if debt < credit {
            let nd = ds.drop_first();
            let nc = cs.update(0, (c0, credit - debt));
            lemma_drop_first_unique(ds);
            lemma_update_first_unique(cs, credit - debt);
            lemma_greedy_conserves(nd, nc, i - 1, j);
            lemma_paid_absent(nd, nc, d0);
            assert(g.drop_first() == greedy(nd, nc));
            if 0 < i < ds.len() {
                assert(nd[i - 1] == ds[i]);
                assert(ds[0].0 != ds[i].0);
            }
            if 0 < j < cs.len() {
                assert(nc[j] == cs[j]);
                assert(cs[0].0 != cs[j].0);
            }
        } else {
            let nd = ds.update(0, (d0, -(debt - credit)));
            let nc = cs.drop_first();
            lemma_update_first_unique(ds, -(debt - credit));
            lemma_drop_first_unique(cs);
            lemma_greedy_conserves(nd, nc, i, j - 1);
            lemma_paid_absent(nd, nc, c0);
            assert(g.drop_first() == greedy(nd, nc));
            if 0 < i < ds.len() {
                assert(nd[i] == ds[i]);
                assert(ds[0].0 != ds[i].0);
            }
            if 0 < j < cs.len() {
                assert(nc[j - 1] == cs[j]);
                assert(cs[0].0 != cs[j].0);
            }
        }
    }
}

/// Conservation: summed over the settlement (in fixed point, before each
/// payment is rounded), what each debtor pays matches its debt and what each
/// creditor receives matches its credit, within the tolerance of one minor
/// unit, unless the participant is left over because the balances did not
/// net to zero.
pub proof fn lemma_settlement_conserves(bal: Seq<Entry>, x: Entry)
    requires
        unique_names(bal),
        bal.contains(x),
    ensures
        on_side(x, true) && !has_name(leftover(queue(bal, true), queue(bal, false)).0, x.0)
            ==> abs(paid(settlement(bal), x.0) + x.1) <= TOLERANCE,
        on_side(x, false) && !has_name(leftover(queue(bal, true), queue(bal, false)).1, x.0)
            ==> abs(received(settlement(bal), x.0) - x.1) <= TOLERANCE,
{
    let dq = queue(bal, true);
    let cq = queue(bal, false);
    lemma_queue_contents(bal, true);
    lemma_queue_contents(bal, false);
    if on_side(x, true) {
        assert(dq.contains(x));
        let i = choose|i: int| 0 <= i < dq.len() && dq[i] == x;
        lemma_greedy_conserves(dq, cq, i, -1);
    }
    if on_side(x, false) {
        assert(cq.contains(x));
        let j = choose|j: int| 0 <= j < cq.len() && cq[j] == x;
        lemma_greedy_conserves(dq, cq, -1, j);
    }
}


/// Entries strictly increasing by name.
pub open spec fn sorted_by_name(s: Seq<Entry>) -> bool {
    forall|i: int, j: int| #![trigger s[i], s[j]] 0 <= i < j < s.len() ==> name_lt(s[i].0, s[j].0)
}

proof fn lemma_insert_sorted(t: Seq<Entry>, x: Entry)
    requires
        sorted_by_name(t),
        !has_name(t, x.0),
    ensures
        sorted_by_name(insert_by_name(t, x)),
    decreases t.len(),
{
    let r = insert_by_name(t, x);
    lemma_insert_contents(t, x);
    if t.len() == 0 {
    } else if name_lt(x.0, t[0].0) {
        assert forall|i: int, j: int| #![trigger r[i], r[j]] 0 <= i < j < r.len() implies name_lt(
            r[i].0,
            r[j].0,
        ) by {
            if i == 0 {
                if j > 1 {
                    lemma_name_order(x.0, t[0].0, t[j - 1].0);
                }
            } else {
                assert(r[i] == t[i - 1] && r[j] == t[j - 1]);
            }
        }
    } else {
        let u = t.drop_first();
        assert(!has_name(u, x.0)) by {
            if has_name(u, x.0) {
                let k = choose|k: int| 0 <= k < u.len() && u[k].0 == x.0;
                assert(t[k + 1].0 == x.0);
            }
        }
        assert(sorted_by_name(u)) by {
            assert forall|i: int, j: int| #![trigger u[i], u[j]] 0 <= i < j < u.len() implies name_lt(
                u[i].0,
                u[j].0,
            ) by {
                assert(u[i] == t[i + 1] && u[j] == t[j + 1]);
            }
        }
        lemma_insert_sorted(u, x);
        lemma_insert_contents(u, x);
        let ru = insert_by_name(u, x);
        assert(r == seq![t[0]] + ru);
        assert(t[0].0 != x.0);
        lemma_name_order(x.0, t[0].0, t[0].0);
        assert(name_lt(t[0].0, x.0));
        assert forall|i: int, j: int| #![trigger r[i], r[j]] 0 <= i < j < r.len() implies name_lt(
            r[i].0,
            r[j].0,
        ) by {
            if i == 0 {
                assert(r[j] == ru[j - 1]);
                assert(ru.contains(r[j]));
                if u.contains(r[j]) {
                    let k = choose|k: int| 0 <= k < u.len() && u[k] == r[j];
                    assert(t[k + 1] == r[j]);
                }
            } else {
                assert(r[i] == ru[i - 1] && r[j] == ru[j - 1]);
            }
        }
    }
}

proof fn lemma_queue_sorted(bal: Seq<Entry>, debt: bool)
    requires
        unique_names(bal),
    ensures
        sorted_by_name(queue(bal, debt)),
    decreases bal.len(),
{
    if bal.len() > 0 {
        let prev = bal.drop_last();
        assert(unique_names(prev)) by {
            assert forall|i: int, j: int| #![trigger prev[i], prev[j]] 0 <= i < j < prev.len()
                implies prev[i].0 != prev[j].0 by {
                assert(prev[i] == bal[i] && prev[j] == bal[j]);
            }
        }
        lemma_queue_sorted(prev, debt);
        lemma_queue_contents(prev, debt);
        let q = queue(prev, debt);
        let x = bal.last();
        if on_side(x, debt) {
            assert(!has_name(q, x.0)) by {
                if has_name(q, x.0) {
                    let k = choose|k: int| 0 <= k < q.len() && q[k].0 == x.0;
                    assert(q.contains(q[k]));
                    let m = choose|m: int| 0 <= m < prev.len() && prev[m] == q[k];
                    assert(bal[m].0 != bal[bal.len() - 1].0);
                }
            }
            lemma_insert_sorted(q, x);
        }
    }
}

/// Two sequences strictly sorted by name with the same entries are equal.
proof fn lemma_sorted_unique(s: Seq<Entry>, t: Seq<Entry>)
    requires
        sorted_by_name(s),
        sorted_by_name(t),
        forall|y: Entry| s.contains(y) <==> t.contains(y),
    ensures
        s == t,
    decreases s.len(),
{
    if s.len() == 0 {
        if t.len() > 0 {
            assert(t.contains(t[0]));
        }
        assert(s =~= t);
    } else {
        assert(s.contains(s[0]));
        let b = choose|b: int| 0 <= b < t.len() && t[b] == s[0];
        assert(t.contains(t[0]));
        let a = choose|a: int| 0 <= a < s.len() && s[a] == t[0];
        if a > 0 {
            assert(name_lt(s[0].0, s[a].0));
            if b > 0 {
                assert(name_lt(t[0].0, t[b].0));
                lemma_name_order(s[0].0, t[0].0, s[0].0);
            } else {
                lemma_name_order(s[0].0, s[0].0, s[0].0);
            }
        }
        assert(s[0] == t[0]);
        let su = s.drop_first();
        let tu = t.drop_first();
        assert forall|y: Entry| su.contains(y) <==> tu.contains(y) by {
            if su.contains(y) {
                let i = choose|i: int| 0 <= i < su.len() && su[i] == y;
                assert(s[i + 1] == y);
                assert(name_lt(s[0].0, s[i + 1].0));
                lemma_name_order(y.0, y.0, y.0);
                assert(t.contains(y));
                let k = choose|k: int| 0 <= k < t.len() && t[k] == y;
                assert(k != 0);
                assert(tu[k - 1] == y);
            }
            if tu.contains(y) {
                let i = choose|i: int| 0 <= i < tu.len() && tu[i] == y;
                assert(t[i + 1] == y);
                assert(name_lt(t[0].0, t[i + 1].0));
                lemma_name_order(y.0, y.0, y.0);
                assert(s.contains(y));
                let k = choose|k: int| 0 <= k < s.len() && s[k] == y;
                assert(k != 0);
                assert(su[k - 1] == y);
            }
        }
        assert(sorted_by_name(su)) by {
            assert forall|i: int, j: int| #![trigger su[i], su[j]] 0 <= i < j < su.len() implies name_lt(
                su[i].0,
                su[j].0,
            ) by {
                assert(su[i] == s[i + 1] && su[j] == s[j + 1]);
            }
        }
        assert(sorted_by_name(tu)) by {
            assert forall|i: int, j: int| #![trigger tu[i], tu[j]] 0 <= i < j < tu.len() implies name_lt(
                tu[i].0,
                tu[j].0,
            ) by {
                assert(tu[i] == t[i + 1] && tu[j] == t[j + 1]);
            }
        }
        lemma_sorted_unique(su, tu);
        assert(s =~= seq![s[0]] + su);
        assert(t =~= seq![t[0]] + tu);
    }
}

/// Determinism: the settlement depends on the balance mapping alone, not on
/// the order in which its entries are listed, so two calls on the same
/// mapping give the same payments in the same order.
pub proof fn lemma_settlement_deterministic(a: Seq<Entry>, b: Seq<Entry>)
    requires
        unique_names(a),
        unique_names(b),
        forall|y: Entry| a.contains(y) <==> b.contains(y),
    ensures
        settlement(a) == settlement(b),
{
    lemma_queue_contents(a, true);
    lemma_queue_contents(b, true);
    lemma_queue_contents(a, false);
    lemma_queue_contents(b, false);
    lemma_queue_sorted(a, true);
    lemma_queue_sorted(b, true);
    lemma_queue_sorted(a, false);
    lemma_queue_sorted(b, false);
    assert forall|y: Entry| queue(a, true).contains(y) <==> queue(b, true).contains(y) by {}
    assert forall|y: Entry| queue(a, false).contains(y) <==> queue(b, false).contains(y) by {}
    lemma_sorted_unique(queue(a, true), queue(b, true));
    lemma_sorted_unique(queue(a, false), queue(b, false));
}


proof fn lemma_greedy_size(ds: Seq<Entry>, cs: Seq<Entry>)
    ensures
        ds.len() == 0 || cs.len() == 0 ==> greedy(ds, cs).len() == 0,
        ds.len() > 0 && cs.len() > 0 ==> greedy(ds, cs).len() <= ds.len() + cs.len() - 1,
    decreases ds.len() + cs.len(),
{
    if ds.len() > 0 && cs.len() > 0 {
        let debt = -ds[0].1;
        let credit = cs[0].1;
        if abs(debt - credit) <= TOLERANCE {
            lemma_greedy_size(ds.drop_first(), cs.drop_first());
        } else if debt < credit {
            lemma_greedy_size(ds.drop_first(), cs.update(0, (cs[0].0, credit - debt)));
        } else {
            lemma_greedy_size(ds.update(0, (ds[0].0, -(debt - credit))), cs.drop_first());
        }
    }
}

/// The settlement has at most one payment fewer than there are debtors and
/// creditors together, and none when either side is empty.
pub proof fn lemma_settlement_size(bal: Seq<Entry>)
    ensures
        queue(bal, true).len() == 0 || queue(bal, false).len() == 0 ==> settlement(bal).len() == 0,
        queue(bal, true).len() > 0 && queue(bal, false).len() > 0 ==> settlement(bal).len()
            <= queue(bal, true).len() + queue(bal, false).len() - 1,
{
    lemma_greedy_size(queue(bal, true), queue(bal, false));
}


proof fn lemma_first_mentions_distinct(ups: Seq<Update>)
    ensures
        forall|i: int| 0 <= i < first_mentions(ups).len() ==> mentions(ups, #[trigger] first_mentions(ups)[i]),
        forall|i: int, j: int|
            #![trigger first_mentions(ups)[i], first_mentions(ups)[j]]
            0 <= i < j < first_mentions(ups).len() ==> first_mentions(ups)[i] != first_mentions(ups)[j],
    decreases ups.len(),
{
    if ups.len() > 0 {
        let prev = ups.drop_last();
        lemma_first_mentions_distinct(prev);
        let fp = first_mentions(prev);
        let f = first_mentions(ups);
        assert forall|i: int| 0 <= i < f.len() implies mentions(ups, #[trigger] f[i]) by {
            if i < fp.len() {
                assert(f[i] == fp[i]);
                let k = choose|k: int| 0 <= k < prev.len() && prev[k].0 == fp[i];
                assert(ups[k].0 == fp[i]);
            } else {
                assert(ups[ups.len() - 1].0 == f[i]);
            }
        }
        assert forall|i: int, j: int|
            #![trigger f[i], f[j]]
            0 <= i < j < f.len() implies f[i] != f[j] by {
            if j < fp.len() {
                assert(f[i] == fp[i] && f[j] == fp[j]);
            } else {
                assert(f[i] == fp[i]);
                assert(mentions(prev, fp[i]));
            }
        }
    }
}

/// The balances of a ledger name each participant once, so the laws above
/// apply to the settlement of a ledger.
pub proof fn lemma_ledger_balances_unique(expenses: Seq<SavedExpense>)
    ensures
        unique_names(ledger_balances(expenses)),
{
    let ups = ledger_updates(expenses);
    lemma_first_mentions_distinct(ups);
    let r = ledger_balances(expenses);
    assert forall|i: int, j: int| #![trigger r[i], r[j]] 0 <= i < j < r.len() implies r[i].0 != r[j].0 by {
        assert(r[i].0 == first_mentions(ups)[i]);
        assert(r[j].0 == first_mentions(ups)[j]);
    }
}

} // verus!
