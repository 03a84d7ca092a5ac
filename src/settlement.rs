//! The settlement planner: it turns net balances into payments from debtors
//! to creditors, matching them greedily in order of name.
use vstd::prelude::*;
use vstd::string::*;
use vstd::arithmetic::div_mod::lemma_fundamental_div_mod;
use crate::balance::{
    SCALE, WEIGHT_LIMIT, Update, abs, compute_debts_and_credits, entries,
    first_mentions, ledger_updates, ledger_weight, net_of,
};
use crate::types::{Amount, MoneyExchange, SavedExpense};

verus! {

/// A participant's name and a balance in minor units.
pub type Entry = (Seq<char>, int);

/// Balances within one minor unit (in fixed point) of each other count as
/// equal, and within one minor unit of zero as settled.
pub const TOLERANCE: i128 = SCALE;

/// The largest magnitude of a fixed-point balance that the planner takes;
/// every balance of a ledger within `WEIGHT_LIMIT` stays below it.
pub const BALANCE_BOUND: i128 = 4 * SCALE * WEIGHT_LIMIT;

/// Every balance of `v` is within `BALANCE_BOUND`.
pub open spec fn bounded(v: Seq<(String, i128)>) -> bool {
    forall|i: int| 0 <= i < v.len() ==> abs(#[trigger] v[i].1 as int) <= BALANCE_BOUND
}

/// A fixed-point balance rounded to the nearest minor unit, halves away from zero.
pub open spec fn to_minor_units(v: int) -> int {
    if v >= 0 {
        (v + SCALE / 2) / (SCALE as int)
    } else {
        -((-v + SCALE / 2) / (SCALE as int))
    }
}

pub open spec fn amounts(v: Seq<(String, i64)>) -> Seq<Entry> {
    v.map_values(|u: (String, i64)| (u.0@, u.1 as int))
}

pub open spec fn rounded(b: Seq<Update>) -> Seq<Entry> {
    b.map_values(|u: Update| (u.0, to_minor_units(u.1)))
}

/// The balances of a ledger: each participant in order of first mention,
/// with the net of its shares, in fixed point.
pub open spec fn ledger_balances(es: Seq<SavedExpense>) -> Seq<Update> {
    let ups = ledger_updates(es);
    let fm = first_mentions(ups);
    Seq::new(fm.len(), |i: int| (fm[i], net_of(ups, fm[i])))
}

fn round_to_minor_units(v: i128) -> (r: i64)
    requires
        abs(v as int) <= 4 * SCALE * WEIGHT_LIMIT,
    ensures
        r == to_minor_units(v as int),
{
    let half: u128 = (SCALE / 2) as u128;
    let s: u128 = SCALE as u128;
    if v >= 0 {
        let x = (v as u128) + half;
        let q = x / s;
        proof {
            lemma_fundamental_div_mod(x as int, s as int);
            let m = x as int % s as int;
            assert(q <= 4 * WEIGHT_LIMIT + 1) by (nonlinear_arith)
                requires x == s * q + m, m >= 0, x <= 4 * SCALE * WEIGHT_LIMIT + half, s == SCALE,
                    half < s, q >= 0;
        }
        q as i64
    } else {
        let x = ((-v) as u128) + half;
        let q = x / s;
        proof {
            lemma_fundamental_div_mod(x as int, s as int);
            let m = x as int % s as int;
            assert(q <= 4 * WEIGHT_LIMIT + 1) by (nonlinear_arith)
                requires x == s * q + m, m >= 0, x <= 4 * SCALE * WEIGHT_LIMIT + half, s == SCALE,
                    half < s, q >= 0;
        }
        -(q as i64)
    }
}

/// The balances rounded to the nearest minor unit, in the same order, for
/// showing them as money.
pub fn round_balances(balance: &Vec<(String, i128)>) -> (r: Vec<(String, Amount)>)
    requires
        forall|i: int|
            0 <= i < balance@.len() ==> abs(#[trigger] balance@[i].1 as int) <= 4 * SCALE
                * WEIGHT_LIMIT,
    ensures
        amounts(r@) == rounded(entries(balance@)),
{
    let mut r: Vec<(String, Amount)> = Vec::new();
    let mut i: usize = 0;
    while i < balance.len()
        invariant
            0 <= i <= balance.len(),
            forall|j: int|
                0 <= j < balance@.len() ==> abs(#[trigger] balance@[j].1 as int) <= 4 * SCALE
                    * WEIGHT_LIMIT,
            amounts(r@) =~= rounded(entries(balance@)).take(i as int),
        decreases balance.len() - i,
    {
        let v = round_to_minor_units(balance[i].1);
        let ghost before = r@;
        r.push((balance[i].0.clone(), v));
        proof {
            let rb = rounded(entries(balance@));
            assert(rb[i as int] == (balance@[i as int].0@, v as int));
            assert(amounts(r@) =~= amounts(before).push((balance@[i as int].0@, v as int)));
            assert(rb.take(i + 1) =~= rb.take(i as int).push(rb[i as int]));
        }
        i += 1;
    }
    r
}

/// Names compare character by character from index `k` on; a proper prefix
/// comes first.
pub open spec fn lt_from(a: Seq<char>, b: Seq<char>, k: int) -> bool
    decreases a.len() - k,
{
    if k >= a.len() {
        k < b.len()
    } else if k >= b.len() {
        false
    } else if a[k] != b[k] {
        (a[k] as int) < (b[k] as int)
    } else {
        lt_from(a, b, k + 1)
    }
}

/// The order of names: lexicographic over characters, the order of `String`.
pub open spec fn name_lt(a: Seq<char>, b: Seq<char>) -> bool {
    lt_from(a, b, 0)
}

proof fn lemma_lt_from_irreflexive(a: Seq<char>, k: int)
    requires
        0 <= k,
    ensures
        !lt_from(a, a, k),
    decreases a.len() - k,
{
    if k < a.len() {
        lemma_lt_from_irreflexive(a, k + 1);
    }
}

proof fn lemma_lt_from_transitive(a: Seq<char>, b: Seq<char>, c: Seq<char>, k: int)
    requires
        0 <= k,
        lt_from(a, b, k),
        lt_from(b, c, k),
    ensures
        lt_from(a, c, k),
    decreases a.len() - k,
{
    if k < a.len() && k < b.len() && k < c.len() && a[k] == b[k] && b[k] == c[k] {
        lemma_lt_from_transitive(a, b, c, k + 1);
    }
}

proof fn lemma_lt_from_total(a: Seq<char>, b: Seq<char>, k: int)
    requires
        0 <= k <= a.len(),
        k <= b.len(),
        a.take(k) == b.take(k),
        !lt_from(a, b, k),
        !lt_from(b, a, k),
    ensures
        a == b,
    decreases a.len() - k,
{
    if k == a.len() || k == b.len() {
        assert(a.len() == b.len());
        assert(a =~= a.take(k));
        assert(b =~= b.take(k));
    } else {
        assert(a.take(k + 1) =~= a.take(k).push(a[k]));
        assert(b.take(k + 1) =~= b.take(k).push(b[k]));
        lemma_lt_from_total(a, b, k + 1);
    }
}

/// `name_lt` is a strict total order.
pub proof fn lemma_name_order(a: Seq<char>, b: Seq<char>, c: Seq<char>)
    ensures
        !name_lt(a, a),
        name_lt(a, b) && name_lt(b, c) ==> name_lt(a, c),
        a != b ==> name_lt(a, b) || name_lt(b, a),
{
    lemma_lt_from_irreflexive(a, 0);
    if name_lt(a, b) && name_lt(b, c) {
        lemma_lt_from_transitive(a, b, c, 0);
    }
    if !name_lt(a, b) && !name_lt(b, a) {
        assert(a.take(0) =~= b.take(0));
        lemma_lt_from_total(a, b, 0);
    }
}

/// Whether `a` comes before `b` in the order of names.
fn name_less(a: &String, b: &String) -> (r: bool)
    ensures
        r == name_lt(a@, b@),
{
    let sa = a.as_str();
    let sb = b.as_str();
    let la = sa.unicode_len();
    let lb = sb.unicode_len();
    let mut k: usize = 0;
    while k < la && k < lb
        invariant
            la == a@.len(),
            lb == b@.len(),
            sa@ == a@,
            sb@ == b@,
            0 <= k <= la,
            k <= lb,
            name_lt(a@, b@) == lt_from(a@, b@, k as int),
        decreases la - k,
    {
        let ca = sa.get_char(k);
        let cb = sb.get_char(k);
        if ca != cb {
            return (ca as u32) < (cb as u32);
        }
        k += 1;
    }
    k < lb && k >= la
}


/// A payment: debtor, creditor and amount (in fixed point in a settlement,
/// in minor units once emitted).
pub type Payment = (Seq<char>, Seq<char>, int);

/// A payment with its amount rounded to the nearest minor unit.
pub open spec fn minor_payment(p: Payment) -> Payment {
    (p.0, p.1, to_minor_units(p.2))
}

pub open spec fn in_minor_units(ps: Seq<Payment>) -> Seq<Payment> {
    ps.map_values(|p: Payment| minor_payment(p))
}

pub open spec fn payments(v: Seq<MoneyExchange>) -> Seq<Payment> {
    v.map_values(|m: MoneyExchange| (m.debtor@, m.creditor@, m.amount as int))
}

/// The balance belongs on the given side: more than one minor unit below
/// zero for a debtor, above for a creditor. Balances within one minor unit of
/// zero are settled and belong on neither side.
pub open spec fn on_side(x: Entry, debt: bool) -> bool {
    if debt {
        x.1 < -(TOLERANCE as int)
    } else {
        x.1 > TOLERANCE as int
    }
}

/// `x` placed before the first entry of `t` whose name it precedes.
pub open spec fn insert_by_name(t: Seq<Entry>, x: Entry) -> Seq<Entry>
    decreases t.len(),
{
    if t.len() == 0 {
        seq![x]
    } else if name_lt(x.0, t[0].0) {
        seq![x] + t
    } else {
        seq![t[0]] + insert_by_name(t.drop_first(), x)
    }
}

/// The debtors (`debt`) or the creditors of `bal`, in order of name.
pub open spec fn queue(bal: Seq<Entry>, debt: bool) -> Seq<Entry>
    decreases bal.len(),
{
    if bal.len() == 0 {
        seq![]
    } else if on_side(bal.last(), debt) {
        insert_by_name(queue(bal.drop_last(), debt), bal.last())
    } else {
        queue(bal.drop_last(), debt)
    }
}

/// Greedy matching: the first debtor pays the first creditor. When debt and
/// credit are within the tolerance both are settled; otherwise the smaller
/// side is settled and the other keeps the difference.
pub open spec fn greedy(ds: Seq<Entry>, cs: Seq<Entry>) -> Seq<Payment>
    decreases ds.len() + cs.len(),
{
    if ds.len() == 0 || cs.len() == 0 {
        seq![]
    } else {
        let debt = -ds[0].1;
        let credit = cs[0].1;
        if abs(debt - credit) <= TOLERANCE {
            seq![(ds[0].0, cs[0].0, credit)] + greedy(ds.drop_first(), cs.drop_first())
        } else if debt < credit {
            seq![(ds[0].0, cs[0].0, debt)] + greedy(
                ds.drop_first(),
                cs.update(0, (cs[0].0, credit - debt)),
            )
        } else {
            seq![(ds[0].0, cs[0].0, credit)] + greedy(
                ds.update(0, (ds[0].0, -(debt - credit))),
                cs.drop_first(),
            )
        }
    }
}

/// The debtors and creditors that the greedy matching leaves unsettled.
pub open spec fn leftover(ds: Seq<Entry>, cs: Seq<Entry>) -> (Seq<Entry>, Seq<Entry>)
    decreases ds.len() + cs.len(),
{
    if ds.len() == 0 || cs.len() == 0 {
        (ds, cs)
    } else {
        let debt = -ds[0].1;
        let credit = cs[0].1;
        if abs(debt - credit) <= TOLERANCE {
            leftover(ds.drop_first(), cs.drop_first())
        } else if debt < credit {
            leftover(ds.drop_first(), cs.update(0, (cs[0].0, credit - debt)))
        } else {
            leftover(ds.update(0, (ds[0].0, -(debt - credit))), cs.drop_first())
        }
    }
}

/// The payments that settle the balances `bal`.
pub open spec fn settlement(bal: Seq<Entry>) -> Seq<Payment> {
    greedy(queue(bal, true), queue(bal, false))
}

proof fn lemma_insert_at(t: Seq<Entry>, x: Entry, k: int)
    requires
        0 <= k <= t.len(),
        forall|i: int| 0 <= i < k ==> !name_lt(x.0, #[trigger] t[i].0),
        k < t.len() ==> name_lt(x.0, t[k].0),
    ensures
        insert_by_name(t, x) == t.insert(k, x),
    decreases t.len(),
{
    if k == 0 {
        assert(insert_by_name(t, x) =~= t.insert(0, x));
    } else {
        let u = t.drop_first();
        assert forall|i: int| 0 <= i < k - 1 implies !name_lt(x.0, #[trigger] u[i].0) by {
            assert(u[i] == t[i + 1]);
        }
        lemma_insert_at(u, x, k - 1);
        assert(seq![t[0]] + u.insert(k - 1, x) =~= t.insert(k, x));
    }
}

/// Inserts `x` into `t` before the first entry whose name it precedes.
fn insert_entry(t: &mut Vec<(String, i128)>, x: (String, i128))
    ensures
        entries(final(t)@) == insert_by_name(entries(old(t)@), (x.0@, x.1 as int)),
        final(t)@.len() == old(t)@.len() + 1,
        forall|i: int|
            0 <= i < final(t)@.len() ==> #[trigger] final(t)@[i] == x || old(t)@.contains(final(t)@[i]),
{
    let mut k: usize = 0;
    while k < t.len()
        invariant
            0 <= k <= t.len(),
            forall|i: int| 0 <= i < k ==> !name_lt(x.0@, #[trigger] t@[i].0@),
        ensures
            0 <= k <= t.len(),
            forall|i: int| 0 <= i < k ==> !name_lt(x.0@, #[trigger] t@[i].0@),
            k < t.len() ==> name_lt(x.0@, t@[k as int].0@),
        decreases t.len() - k,
    {
        if name_less(&x.0, &t[k].0) {
            break;
        }
        k += 1;
    }
    let ghost before = t@;
    let ghost xv = (x.0@, x.1 as int);
    proof {
        let a = entries(before);
        assert forall|i: int| 0 <= i < k implies !name_lt(xv.0, #[trigger] a[i].0) by {
            assert(a[i].0 == before[i].0@);
        }
        lemma_insert_at(a, xv, k as int);
    }
    t.insert(k, x);
    proof {
        assert(entries(t@) =~= entries(before).insert(k as int, xv));
        assert forall|i: int| 0 <= i < t@.len() implies #[trigger] t@[i] == x || before.contains(t@[i]) by {
            if i < k {
                assert(t@[i] == before[i]);
            } else if i > k {
                assert(t@[i] == before[i - 1]);
            }
        }
    }
}

/// The debtors (`debt`) or the creditors of `balances`, in order of name.
fn sorted_queue(balances: &Vec<(String, i128)>, debt: bool) -> (r: Vec<(String, i128)>)
    requires
        bounded(balances@),
    ensures
        entries(r@) == queue(entries(balances@), debt),
        forall|i: int| 0 <= i < r@.len() ==> on_side(#[trigger] entries(r@)[i], debt),
        bounded(r@),
{
    let ghost bal = entries(balances@);
    let mut r: Vec<(String, i128)> = Vec::new();
    let mut i: usize = 0;
    proof {
        assert(bal.take(0) =~= seq![]);
        assert(entries(r@) =~= seq![]);
    }
    while i < balances.len()
        invariant
            0 <= i <= balances.len(),
            bal == entries(balances@),
            entries(r@) == queue(bal.take(i as int), debt),
            forall|k: int| 0 <= k < r@.len() ==> on_side(#[trigger] entries(r@)[k], debt),
            bounded(balances@),
            bounded(r@),
        decreases balances.len() - i,
    {
        let v = balances[i].1;
        proof {
            assert(bal.take(i + 1).drop_last() =~= bal.take(i as int));
            assert(bal.take(i + 1).last() == bal[i as int]);
            assert(bal[i as int] == (balances@[i as int].0@, v as int));
        }
        let keep = if debt {
            v < -TOLERANCE
        } else {
            v > TOLERANCE
        };
        proof {
            assert(abs(balances@[i as int].1 as int) <= BALANCE_BOUND);
        }
        if keep {
            let ghost before = r@;
            insert_entry(&mut r, (balances[i].0.clone(), v));
            proof {
                assert forall|k: int| 0 <= k < r@.len() implies on_side(
                    #[trigger] entries(r@)[k],
                    debt,
                ) && abs(r@[k].1 as int) <= BALANCE_BOUND by {
                    if r@[k] != (balances@[i as int].0, v) {
                        let j = choose|j: int| 0 <= j < before.len() && before[j] == r@[k];
                        assert(entries(before)[j] == entries(r@)[k]);
                    }
                }
            }
        }
        i += 1;
    }
    proof {
        assert(bal.take(balances.len() as int) =~= bal);
    }
    r
}

/// The queue from index `i` on, its first entry holding the balance `v`.
pub open spec fn rest_from(q: Seq<Entry>, i: int, v: int) -> Seq<Entry> {
    if i < q.len() {
        seq![(q[i].0, v)] + q.subrange(i + 1, q.len() as int)
    } else {
        seq![]
    }
}

/// The payments of a settlement, and the debtors and creditors that it could
/// not settle (with what they still owe or are owed, in fixed point), which
/// happens only when the balances do not net to zero.
pub struct SettlementPlan {
    pub exchanges: Vec<MoneyExchange>,
    pub unsettled_debtors: Vec<(String, i128)>,
    pub unsettled_creditors: Vec<(String, i128)>,
}

/// The plan that `settlement` and `leftover` describe for balances `bal`.
pub open spec fn plans(r: SettlementPlan, bal: Seq<Entry>) -> bool {
    let rest = leftover(queue(bal, true), queue(bal, false));
    &&& payments(r.exchanges@) == in_minor_units(settlement(bal))
    &&& entries(r.unsettled_debtors@) == rest.0
    &&& entries(r.unsettled_creditors@) == rest.1
}

/// Copies the queue `q` from index `i` on, its first entry holding `v`.
fn rest_of_queue(q: &Vec<(String, i128)>, i: usize, v: i128) -> (r: Vec<(String, i128)>)
    ensures
        entries(r@) == rest_from(entries(q@), i as int, v as int),
{
    let mut r: Vec<(String, i128)> = Vec::new();
    if i >= q.len() {
        proof {
            assert(entries(r@) =~= seq![]);
        }
        return r;
    }
    r.push((q[i].0.clone(), v));
    let mut k = i + 1;
    let ghost qa = entries(q@);
    proof {
        assert(entries(r@) =~= seq![(qa[i as int].0, v as int)] + qa.subrange(i + 1, i + 1));
    }
    while k < q.len()
        invariant
            i < q@.len(),
            i + 1 <= k <= q@.len(),
            qa == entries(q@),
            entries(r@) == seq![(qa[i as int].0, v as int)] + qa.subrange(i + 1, k as int),
        decreases q.len() - k,
    {
        let ghost before = r@;
        r.push((q[k].0.clone(), q[k].1));
        proof {
            assert(entries(r@) =~= entries(before).push(qa[k as int]));
            assert(qa.subrange(i + 1, k + 1) =~= qa.subrange(i + 1, k as int).push(qa[k as int]));
        }
        k += 1;
    }
    r
}

/// The payments that settle `balances`, as `settle` makes them, with the
/// debtors and creditors that are left unsettled.
pub fn settle_with_leftover(balances: &Vec<(String, i128)>) -> (r: SettlementPlan)
    requires
        bounded(balances@),
    ensures
        plans(r, entries(balances@)),
{
    let debtors = sorted_queue(balances, true);
    let creditors = sorted_queue(balances, false);
    let ghost dq = entries(debtors@);
    let ghost cq = entries(creditors@);
    let mut result: Vec<MoneyExchange> = Vec::new();
    let mut i: usize = 0;
    let mut j: usize = 0;
    let mut debt: i128 = if debtors.len() > 0 {
        -debtors[0].1
    } else {
        TOLERANCE + 1
    };
    let mut credit: i128 = if creditors.len() > 0 {
        creditors[0].1
    } else {
        TOLERANCE + 1
    };
    proof {
        if dq.len() > 0 {
            assert(abs(debtors@[0].1 as int) <= BALANCE_BOUND);
        }
        if cq.len() > 0 {
            assert(abs(creditors@[0].1 as int) <= BALANCE_BOUND);
        }
        if dq.len() > 0 {
            assert(rest_from(dq, 0, -debt) =~= dq);
            assert(on_side(dq[0], true));
        } else {
            assert(rest_from(dq, 0, -debt) =~= dq);
        }
        if cq.len() > 0 {
            assert(rest_from(cq, 0, credit as int) =~= cq);
            assert(on_side(cq[0], false));
        } else {
            assert(rest_from(cq, 0, credit as int) =~= cq);
        }
        assert(payments(result@) =~= seq![]);
        assert(seq![] + in_minor_units(greedy(dq, cq)) =~= in_minor_units(greedy(dq, cq)));
    }
    while i < debtors.len() && j < creditors.len()
        invariant
            0 <= i <= debtors.len(),
            0 <= j <= creditors.len(),
            dq == entries(debtors@),
            cq == entries(creditors@),
            forall|k: int| 0 <= k < debtors@.len() ==> on_side(#[trigger] dq[k], true),
            forall|k: int| 0 <= k < creditors@.len() ==> on_side(#[trigger] cq[k], false),
            TOLERANCE < debt <= BALANCE_BOUND,
            TOLERANCE < credit <= BALANCE_BOUND,
            bounded(debtors@),
            bounded(creditors@),
            payments(result@) + in_minor_units(greedy(rest_from(dq, i as int, -debt), rest_from(cq, j as int, credit as int)))
                == in_minor_units(settlement(entries(balances@))),
            leftover(rest_from(dq, i as int, -debt), rest_from(cq, j as int, credit as int))
                == leftover(dq, cq),
            dq == queue(entries(balances@), true),
            cq == queue(entries(balances@), false),
        decreases debtors.len() - i + creditors.len() - j,
    {
        let ghost ds = rest_from(dq, i as int, -debt);
        let ghost cs = rest_from(cq, j as int, credit as int);
        let ghost before = result@;
        proof {
            assert(ds[0] == (dq[i as int].0, -debt));
            assert(cs[0] == (cq[j as int].0, credit as int));
            assert(dq[i as int].0 == debtors@[i as int].0@);
            assert(cq[j as int].0 == creditors@[j as int].0@);
        }
        let ghost pay: Payment;
        if debt - credit <= TOLERANCE && credit - debt <= TOLERANCE {
            let ex = MoneyExchange::new(
                debtors[i].0.as_str(),
                creditors[j].0.as_str(),
                round_to_minor_units(credit),
            );
            result.push(ex);
            proof {
                pay = (dq[i as int].0, cq[j as int].0, credit as int);
                assert(ds.drop_first() =~= rest_from(
                    dq,
                    i + 1,
                    if i + 1 < dq.len() { dq[i + 1].1 } else { 0 },
                ));
                assert(cs.drop_first() =~= rest_from(
                    cq,
                    j + 1,
                    if j + 1 < cq.len() { cq[j + 1].1 } else { 0 },
                ));
            }
            i += 1;
            j += 1;
            if i < debtors.len() {
                debt = -debtors[i].1;
                proof {
                    assert(on_side(dq[i as int], true));
                    assert(abs(debtors@[i as int].1 as int) <= BALANCE_BOUND);
                }
            }
            if j < creditors.len() {
                credit = creditors[j].1;
                proof {
                    assert(on_side(cq[j as int], false));
                    assert(abs(creditors@[j as int].1 as int) <= BALANCE_BOUND);
                }
            }
        } else if debt < credit {
            let ex = MoneyExchange::new(
                debtors[i].0.as_str(),
                creditors[j].0.as_str(),
                round_to_minor_units(debt),
            );
            result.push(ex);
            proof {
                pay = (dq[i as int].0, cq[j as int].0, debt as int);
                assert(ds.drop_first() =~= rest_from(
                    dq,
                    i + 1,
                    if i + 1 < dq.len() { dq[i + 1].1 } else { 0 },
                ));
                assert(cs.update(0, (cs[0].0, credit - debt)) =~= rest_from(
                    cq,
                    j as int,
                    credit - debt,
                ));
            }
            credit = credit - debt;
            i += 1;
            if i < debtors.len() {
                debt = -debtors[i].1;
                proof {
                    assert(on_side(dq[i as int], true));
                    assert(abs(debtors@[i as int].1 as int) <= BALANCE_BOUND);
                }
            }
        } else {
            let ex = MoneyExchange::new(
                debtors[i].0.as_str(),
                creditors[j].0.as_str(),
                round_to_minor_units(credit),
            );
            result.push(ex);
            proof {
                pay = (dq[i as int].0, cq[j as int].0, credit as int);
                assert(ds.update(0, (ds[0].0, -(debt - credit))) =~= rest_from(
                    dq,
                    i as int,
                    -(debt - credit),
                ));
                assert(cs.drop_first() =~= rest_from(
                    cq,
                    j + 1,
                    if j + 1 < cq.len() { cq[j + 1].1 } else { 0 },
                ));
            }
            debt = debt - credit;
            j += 1;
            if j < creditors.len() {
                credit = creditors[j].1;
                proof {
                    assert(on_side(cq[j as int], false));
                    assert(abs(creditors@[j as int].1 as int) <= BALANCE_BOUND);
                }
            }
        }
        proof {
            let g = greedy(rest_from(dq, i as int, -debt), rest_from(cq, j as int, credit as int));
            assert(payments(result@) =~= payments(before).push(minor_payment(pay)));
            assert(greedy(ds, cs) == seq![pay] + g);
            assert(in_minor_units(seq![pay] + g) =~= seq![minor_payment(pay)] + in_minor_units(g));
            assert(payments(before) + (seq![minor_payment(pay)] + in_minor_units(g)) =~= payments(
                result@,
            ) + in_minor_units(g));
        }
    }
    proof {
        assert(greedy(rest_from(dq, i as int, -debt), rest_from(cq, j as int, credit as int)) =~= seq![]);
        assert(in_minor_units(seq![]) =~= seq![]);
        assert(payments(result@) + seq![] =~= payments(result@));
        assert(leftover(rest_from(dq, i as int, -debt), rest_from(cq, j as int, credit as int)) == (
        rest_from(dq, i as int, -debt), rest_from(cq, j as int, credit as int)));
    }
    let unsettled_debtors = rest_of_queue(&debtors, i, -debt);
    let unsettled_creditors = rest_of_queue(&creditors, j, credit);
    SettlementPlan { exchanges: result, unsettled_debtors, unsettled_creditors }
}

/// The payments that settle the fixed-point `balances`: debtors (balance
/// more than one minor unit below zero) and creditors (more than one above)
/// are each taken in order of name and matched greedily (see `greedy`), and
/// each payment is rounded to the nearest minor unit as it is emitted.
/// Balances within one minor unit of zero take no part.
pub fn settle(balances: &Vec<(String, i128)>) -> (r: Vec<MoneyExchange>)
    requires
        bounded(balances@),
    ensures
        payments(r@) == in_minor_units(settlement(entries(balances@))),
{
    settle_with_leftover(balances).exchanges
}

/// The settlement of the debts recorded by `expenses`, with what it leaves
/// unsettled.
///
/// The expenses are folded into fixed-point balances, which the planner
/// matches as they are; amounts are rounded to minor units only when a
/// payment is emitted.
pub fn compute_settlement(expenses: Vec<SavedExpense>) -> (r: SettlementPlan)
    requires
        ledger_weight(expenses@) <= WEIGHT_LIMIT,
    ensures
        plans(r, ledger_balances(expenses@)),
{
    let ghost es = expenses@;
    let balance = compute_debts_and_credits(expenses);
    proof {
        assert(entries(balance@) =~= ledger_balances(es));
    }
    settle_with_leftover(&balance)
}

/// The payments that settle the debts recorded by `expenses`.
pub fn compute_exchanges(expenses: Vec<SavedExpense>) -> (r: Vec<MoneyExchange>)
    requires
        ledger_weight(expenses@) <= WEIGHT_LIMIT,
    ensures
        payments(r@) == in_minor_units(settlement(ledger_balances(expenses@))),
{
    compute_settlement(expenses).exchanges
}

} // verus!
