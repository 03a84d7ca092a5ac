//! The balance accumulator: it folds expenses into each participant's net
//! balance.
//!
//! Balances are kept in fixed point, `SCALE` units to the minor unit, so that
//! the fractional quotas of an even split are not rounded once per expense.
//! The remainder of each split is handed out one unit at a time, so every
//! expense moves exactly as much credit as debt.
use vstd::prelude::*;
use vstd::arithmetic::div_mod::{lemma_fundamental_div_mod, lemma_fundamental_div_mod_converse};
use crate::types::{ParticipantMode, SavedExpense, SavedParticipant};

verus! {

/// Fixed-point units in one minor unit of money.
pub const SCALE: i128 = 1_000_000;

/// The largest total weight (see `ledger_weight`) that the accumulator takes;
/// below it every balance fits its fixed-point representation.
pub const WEIGHT_LIMIT: i128 = 0x0800_0000_0000_0000;

/// One change to a balance: a participant's name and a signed fixed-point delta.
pub type Update = (Seq<char>, int);

pub open spec fn abs(x: int) -> int {
    if x < 0 { -x } else { x }
}

pub open spec fn custom(p: SavedParticipant) -> int {
    match p.amount {
        Some(a) => a as int,
        None => 0,
    }
}

/// The participant has a custom amount on the given side of the expense.
pub open spec fn is_fixed(p: SavedParticipant, mode: ParticipantMode) -> bool {
    p.mode == mode && p.amount is Some
}

/// A creditor without a custom amount: it shares the rest of the credit.
pub open spec fn is_sharing_creditor(p: SavedParticipant) -> bool {
    p.mode == ParticipantMode::Creditor && p.amount is None
}

pub open spec fn side_sign(mode: ParticipantMode) -> int {
    if mode == ParticipantMode::Debtor { -1 } else { 1 }
}

/// The sum of the custom amounts on one side of an expense.
pub open spec fn fixed_total(ps: Seq<SavedParticipant>, mode: ParticipantMode) -> int
    decreases ps.len(),
{
    if ps.len() == 0 {
        0
    } else {
        fixed_total(ps.drop_last(), mode) + if is_fixed(ps.last(), mode) {
            custom(ps.last())
        } else {
            0
        }
    }
}

/// The sum of the magnitudes of all custom amounts.
pub open spec fn custom_magnitude(ps: Seq<SavedParticipant>) -> int
    decreases ps.len(),
{
    if ps.len() == 0 {
        0
    } else {
        custom_magnitude(ps.drop_last()) + abs(custom(ps.last()))
    }
}

/// How much money an expense moves at most, in minor units.
pub open spec fn weight(e: SavedExpense) -> int {
    abs(e.amount as int) + custom_magnitude(e.participants@)
}

pub open spec fn ledger_weight(es: Seq<SavedExpense>) -> int
    decreases es.len(),
{
    if es.len() == 0 {
        0
    } else {
        ledger_weight(es.drop_last()) + weight(es.last())
    }
}

/// Some participant of `ps` is a debtor named `n` with a custom amount.
pub open spec fn names_fixed_debtor(ps: Seq<SavedParticipant>, n: Seq<char>) -> bool {
    exists|i: int| 0 <= i < ps.len() && is_fixed(ps[i], ParticipantMode::Debtor) && ps[i].name@ == n
}

/// The names that share the rest of the debt: every participant of `ps`
/// that is not a debtor with a custom amount in `all`, each name once, in
/// order of first appearance.
pub open spec fn debt_sharers(all: Seq<SavedParticipant>, ps: Seq<SavedParticipant>) -> Seq<
    Seq<char>,
>
    decreases ps.len(),
{
    if ps.len() == 0 {
        seq![]
    } else {
        let prev = debt_sharers(all, ps.drop_last());
        let n = ps.last().name@;
        if !names_fixed_debtor(all, n) && !prev.contains(n) {
            prev.push(n)
        } else {
            prev
        }
    }
}

/// The names of the creditors without a custom amount, in order.
pub open spec fn credit_sharers(ps: Seq<SavedParticipant>) -> Seq<Seq<char>>
    decreases ps.len(),
{
    if ps.len() == 0 {
        seq![]
    } else if is_sharing_creditor(ps.last()) {
        credit_sharers(ps.drop_last()).push(ps.last().name@)
    } else {
        credit_sharers(ps.drop_last())
    }
}

/// The share of the `j`-th of `n` sharers in `total`: the floor of the
/// quotient, plus one unit for each of the first `total % n` sharers.
pub open spec fn quota(total: int, n: int, j: int) -> int {
    total / n + if j < total % n { 1int } else { 0int }
}

pub open spec fn share_updates(names: Seq<Seq<char>>, total: int, sign: int) -> Seq<Update> {
    Seq::new(names.len(), |j: int| (names[j], sign * quota(total, names.len() as int, j)))
}

/// The custom amounts of one side, scaled, with the side's sign.
pub open spec fn fixed_updates(ps: Seq<SavedParticipant>, mode: ParticipantMode) -> Seq<Update>
    decreases ps.len(),
{
    if ps.len() == 0 {
        seq![]
    } else if is_fixed(ps.last(), mode) {
        fixed_updates(ps.drop_last(), mode).push(
            (ps.last().name@, side_sign(mode) * (custom(ps.last()) * SCALE)),
        )
    } else {
        fixed_updates(ps.drop_last(), mode)
    }
}

pub open spec fn debt_updates(e: SavedExpense) -> Seq<Update> {
    let ps = e.participants@;
    fixed_updates(ps, ParticipantMode::Debtor) + share_updates(
        debt_sharers(ps, ps),
        (e.amount - fixed_total(ps, ParticipantMode::Debtor)) * SCALE,
        -1,
    )
}

pub open spec fn credit_updates(e: SavedExpense) -> Seq<Update> {
    let ps = e.participants@;
    fixed_updates(ps, ParticipantMode::Creditor) + share_updates(
        credit_sharers(ps),
        (e.amount - fixed_total(ps, ParticipantMode::Creditor)) * SCALE,
        1,
    )
}

/// Every change that one expense makes to the balances, debts first.
pub open spec fn expense_updates(e: SavedExpense) -> Seq<Update> {
    debt_updates(e) + credit_updates(e)
}

pub open spec fn ledger_updates(es: Seq<SavedExpense>) -> Seq<Update>
    decreases es.len(),
{
    if es.len() == 0 {
        seq![]
    } else {
        ledger_updates(es.drop_last()) + expense_updates(es.last())
    }
}

/// The net of all changes to participant `k`.
pub open spec fn net_of(ups: Seq<Update>, k: Seq<char>) -> int
    decreases ups.len(),
{
    if ups.len() == 0 {
        0
    } else {
        net_of(ups.drop_last(), k) + if ups.last().0 == k {
            ups.last().1
        } else {
            0
        }
    }
}

pub open spec fn mentions(ups: Seq<Update>, k: Seq<char>) -> bool {
    exists|i: int| 0 <= i < ups.len() && ups[i].0 == k
}

pub open spec fn delta_total(ups: Seq<Update>) -> int
    decreases ups.len(),
{
    if ups.len() == 0 {
        0
    } else {
        delta_total(ups.drop_last()) + ups.last().1
    }
}

pub open spec fn abs_total(ups: Seq<Update>) -> int
    decreases ups.len(),
{
    if ups.len() == 0 {
        0
    } else {
        abs_total(ups.drop_last()) + abs(ups.last().1)
    }
}

/// The view of a list of (name, fixed-point amount) pairs.
pub open spec fn entries(v: Seq<(String, i128)>) -> Seq<Update> {
    v.map_values(|u: (String, i128)| (u.0@, u.1 as int))
}

/// The participants that `ups` mentions, each once, in order of first mention.
pub open spec fn first_mentions(ups: Seq<Update>) -> Seq<Seq<char>>
    decreases ups.len(),
{
    if ups.len() == 0 {
        seq![]
    } else if mentions(ups.drop_last(), ups.last().0) {
        first_mentions(ups.drop_last())
    } else {
        first_mentions(ups.drop_last()).push(ups.last().0)
    }
}

/// `b` holds each participant that `ups` mentions exactly once, in order of
/// first mention, with the net of its changes.
pub open spec fn describes(b: Seq<(String, i128)>, ups: Seq<Update>) -> bool {
    &&& b.len() == first_mentions(ups).len()
    &&& forall|i: int| 0 <= i < b.len() ==> #[trigger] b[i].0@ == first_mentions(ups)[i]
    &&& forall|i: int, j: int| #![trigger b[i], b[j]] 0 <= i < j < b.len() ==> b[i].0@ != b[j].0@
    &&& forall|i: int|
        0 <= i < b.len() ==> mentions(ups, #[trigger] b[i].0@) && b[i].1 == net_of(ups, b[i].0@)
    &&& forall|k: Seq<char>| mentions(ups, k) ==> exists|i: int| 0 <= i < b.len() && b[i].0@ == k
}


/// The expense's split is well defined: on each side, either someone shares
/// the rest, or the custom amounts make up the whole amount.
pub open spec fn consistent(e: SavedExpense) -> bool {
    let ps = e.participants@;
    &&& (debt_sharers(ps, ps).len() > 0 || fixed_total(ps, ParticipantMode::Debtor) == e.amount)
    &&& (credit_sharers(ps).len() > 0 || fixed_total(ps, ParticipantMode::Creditor) == e.amount)
}

proof fn lemma_custom_magnitude_prefix(ps: Seq<SavedParticipant>, i: int)
    requires
        0 <= i <= ps.len(),
    ensures
        0 <= custom_magnitude(ps.take(i)) <= custom_magnitude(ps),
        abs(fixed_total(ps.take(i), ParticipantMode::Debtor)) <= custom_magnitude(ps.take(i)),
        abs(fixed_total(ps.take(i), ParticipantMode::Creditor)) <= custom_magnitude(ps.take(i)),
    decreases ps.len(),
{
    if i == ps.len() {
        assert(ps.take(i) =~= ps);
        if ps.len() > 0 {
            lemma_custom_magnitude_prefix(ps.drop_last(), ps.len() - 1);
            assert(ps.drop_last().take(ps.len() - 1) =~= ps.drop_last());
        }
    } else {
        lemma_custom_magnitude_prefix(ps.drop_last(), i);
        assert(ps.drop_last().take(i) =~= ps.take(i));
        lemma_custom_magnitude_prefix(ps.drop_last(), ps.len() - 1);
        assert(ps.drop_last().take(ps.len() - 1) =~= ps.drop_last());
    }
}

proof fn lemma_weight_nonneg(e: SavedExpense)
    ensures
        0 <= weight(e),
{
    let ps = e.participants@;
    lemma_custom_magnitude_prefix(ps, 0);
    lemma_custom_magnitude_prefix(ps, ps.len() as int);
    assert(ps.take(ps.len() as int) =~= ps);
}

proof fn lemma_ledger_weight_prefix(es: Seq<SavedExpense>, i: int)
    requires
        0 <= i <= es.len(),
    ensures
        0 <= ledger_weight(es.take(i)) <= ledger_weight(es),
    decreases es.len(),
{
    if es.len() > 0 {
        lemma_weight_nonneg(es.last());
        if i == es.len() {
            assert(es.take(i) =~= es);
            lemma_ledger_weight_prefix(es.drop_last(), i - 1);
            assert(es.drop_last().take(i - 1) =~= es.drop_last());
        } else {
            lemma_ledger_weight_prefix(es.drop_last(), i);
            assert(es.drop_last().take(i) =~= es.take(i));
        }
    } else {
        assert(es.take(i) =~= es);
    }
}

proof fn lemma_net_unmentioned(ups: Seq<Update>, k: Seq<char>)
    requires
        !mentions(ups, k),
    ensures
        net_of(ups, k) == 0,
    decreases ups.len(),
{
    if ups.len() > 0 {
        assert(!mentions(ups.drop_last(), k)) by {
            if mentions(ups.drop_last(), k) {
                let i = choose|i: int| 0 <= i < ups.drop_last().len() && ups.drop_last()[i].0 == k;
                assert(ups[i].0 == k);
            }
        }
        lemma_net_unmentioned(ups.drop_last(), k);
        assert(ups[ups.len() - 1].0 != k);
    }
}

proof fn lemma_net_bounded(ups: Seq<Update>, k: Seq<char>)
    ensures
        abs(net_of(ups, k)) <= abs_total(ups),
        0 <= abs_total(ups),
    decreases ups.len(),
{
    if ups.len() > 0 {
        lemma_net_bounded(ups.drop_last(), k);
    }
}

proof fn lemma_totals_concat(a: Seq<Update>, b: Seq<Update>)
    ensures
        abs_total(a + b) == abs_total(a) + abs_total(b),
        delta_total(a + b) == delta_total(a) + delta_total(b),
    decreases b.len(),
{
    if b.len() == 0 {
        assert(a + b =~= a);
    } else {
        assert((a + b).drop_last() =~= a + b.drop_last());
        lemma_totals_concat(a, b.drop_last());
    }
}

proof fn lemma_abs_total_prefix(s: Seq<Update>, j: int)
    requires
        0 <= j <= s.len(),
    ensures
        abs_total(s.take(j)) <= abs_total(s),
    decreases s.len(),
{
    if j == s.len() {
        assert(s.take(j) =~= s);
    } else {
        lemma_abs_total_prefix(s.drop_last(), j);
        assert(s.drop_last().take(j) =~= s.take(j));
        lemma_net_bounded(s, seq![]);
    }
}

proof fn lemma_fixed_totals(ps: Seq<SavedParticipant>, mode: ParticipantMode)
    ensures
        0 <= abs_total(fixed_updates(ps, mode)) <= SCALE * custom_magnitude(ps),
        delta_total(fixed_updates(ps, mode)) == side_sign(mode) * (SCALE * fixed_total(ps, mode)),
    decreases ps.len(),
{
    if ps.len() > 0 {
        let prev = ps.drop_last();
        lemma_fixed_totals(prev, mode);
        let c = custom(ps.last());
        let f = fixed_total(prev, mode);
        let sg = side_sign(mode);
        let m = custom_magnitude(prev);
        assert(SCALE * (m + abs(c)) == SCALE * m + SCALE * abs(c)) by (nonlinear_arith);
        assert(SCALE * abs(c) >= 0) by (nonlinear_arith);
        if is_fixed(ps.last(), mode) {
            let u = fixed_updates(ps, mode);
            assert(u.drop_last() =~= fixed_updates(prev, mode));
            assert(u.last().1 == sg * (c * SCALE));
            assert(sg * (SCALE * (f + c)) == sg * (SCALE * f) + sg * (c * SCALE)) by (nonlinear_arith);
            assert(abs(sg * (c * SCALE)) == SCALE * abs(c)) by (nonlinear_arith)
                requires sg == 1 || sg == -1;
        }
    }
}

proof fn lemma_share_totals_prefix(names: Seq<Seq<char>>, total: int, sign: int, m: int)
    requires
        names.len() > 0,
        sign == 1 || sign == -1,
        0 <= m <= names.len(),
    ensures
        ({
            let n = names.len() as int;
            let q = total / n;
            let r = total % n;
            let part = m * q + if m < r { m } else { r };
            &&& delta_total(share_updates(names, total, sign).take(m)) == sign * part
            &&& abs_total(share_updates(names, total, sign).take(m)) == abs(part)
        }),
    decreases m,
{
    let n = names.len() as int;
    let q = total / n;
    let r = total % n;
    let s = share_updates(names, total, sign);
    if m == 0 {
        assert(s.take(0) =~= seq![]);
    } else {
        lemma_share_totals_prefix(names, total, sign, m - 1);
        assert(s.take(m).drop_last() =~= s.take(m - 1));
        assert(m * q == (m - 1) * q + q) by (nonlinear_arith);
        let prev = (m - 1) * q + if m - 1 < r { m - 1 } else { r };
        let d = q + if m - 1 < r { 1int } else { 0int };
        assert(s.take(m).last() == s[m - 1]);
        assert(s[m - 1].1 == sign * d);
        assert(q >= 0 ==> prev >= 0 && d >= 0) by {
            if q >= 0 {
                assert((m - 1) * q >= 0) by (nonlinear_arith)
                    requires m - 1 >= 0, q >= 0;
            }
        }
        assert(sign * prev + sign * d == sign * (prev + d)) by (nonlinear_arith);
        assert(abs(sign * d) == abs(d)) by (nonlinear_arith)
            requires sign == 1 || sign == -1;
        assert(q < 0 ==> prev <= 0 && d <= 0) by {
            if q < 0 {
                assert((m - 1) * q <= -(m - 1)) by (nonlinear_arith)
                    requires m - 1 >= 0, q <= -1;
            }
        }
    }
}

proof fn lemma_share_totals(names: Seq<Seq<char>>, total: int, sign: int)
    requires
        sign == 1 || sign == -1,
    ensures
        abs_total(share_updates(names, total, sign)) <= abs(total),
        names.len() > 0 ==> delta_total(share_updates(names, total, sign)) == sign * total,
        names.len() == 0 ==> delta_total(share_updates(names, total, sign)) == 0,
{
    let s = share_updates(names, total, sign);
    if names.len() == 0 {
        assert(s =~= seq![]);
    } else {
        let n = names.len() as int;
        lemma_share_totals_prefix(names, total, sign, n);
        assert(s.take(n) =~= s);
        lemma_fundamental_div_mod(total, n);
        assert(n * (total / n) == (total / n) * n) by (nonlinear_arith);
    }
}

/// One expense moves at most four times its weight, in fixed point.
proof fn lemma_expense_bounded(e: SavedExpense)
    ensures
        abs_total(expense_updates(e)) <= 4 * SCALE * weight(e),
{
    let ps = e.participants@;
    let a = e.amount as int;
    let cm = custom_magnitude(ps);
    lemma_custom_magnitude_prefix(ps, ps.len() as int);
    assert(ps.take(ps.len() as int) =~= ps);
    lemma_fixed_totals(ps, ParticipantMode::Debtor);
    lemma_fixed_totals(ps, ParticipantMode::Creditor);
    let rd = a - fixed_total(ps, ParticipantMode::Debtor);
    let rc = a - fixed_total(ps, ParticipantMode::Creditor);
    lemma_share_totals(debt_sharers(ps, ps), rd * SCALE, -1);
    lemma_share_totals(credit_sharers(ps), rc * SCALE, 1);
    assert(abs(rd * SCALE) <= SCALE * (abs(a) + cm)) by (nonlinear_arith)
        requires abs(rd) <= abs(a) + cm;
    assert(abs(rc * SCALE) <= SCALE * (abs(a) + cm)) by (nonlinear_arith)
        requires abs(rc) <= abs(a) + cm;
    lemma_totals_concat(fixed_updates(ps, ParticipantMode::Debtor), share_updates(debt_sharers(ps, ps), rd * SCALE, -1));
    lemma_totals_concat(fixed_updates(ps, ParticipantMode::Creditor), share_updates(credit_sharers(ps), rc * SCALE, 1));
    lemma_totals_concat(debt_updates(e), credit_updates(e));
    assert(4 * SCALE * (abs(a) + cm) == 2 * (SCALE * cm) + 2 * (SCALE * (abs(a) + cm)) + 2 * SCALE * abs(a)) by (nonlinear_arith);
}


pub open spec fn names(v: Seq<String>) -> Seq<Seq<char>> {
    v.map_values(|s: String| s@)
}

/// Floor division by a positive divisor, with the remainder in `[0, n)`.
fn floor_div_mod(t: i128, n: i128) -> (r: (i128, i128))
    requires
        n > 0,
        t > i128::MIN,
    ensures
        r.0 == t / n,
        r.1 == t % n,
        -abs(t as int) <= r.0 <= abs(t as int),
{
    let nn = n as u128;
    if t >= 0 {
        let u = t as u128;
        let q = u / nn;
        let m = u % nn;
        proof {
            lemma_fundamental_div_mod(u as int, nn as int);
            assert(q <= u) by (nonlinear_arith)
                requires u == nn * q + m, nn >= 1, q >= 0, m >= 0;
            assert(t as int == (q as int) * (n as int) + m as int) by (nonlinear_arith)
                requires u == nn * q + m, t == u, n == nn;
            lemma_fundamental_div_mod_converse(t as int, n as int, q as int, m as int);
        }
        (q as i128, m as i128)
    } else {
        let u = (-t) as u128;
        let q = u / nn;
        let m = u % nn;
        proof {
            lemma_fundamental_div_mod(u as int, nn as int);
            assert(q <= u) by (nonlinear_arith)
                requires u == nn * q + m, nn >= 1, q >= 0, m >= 0;
        }
        if m == 0 {
            proof {
                assert(-abs(t as int) <= -(q as int));
                assert(t as int == (-(q as int)) * (n as int) + 0) by (nonlinear_arith)
                    requires u == nn * q + m, m == 0, t == -u, n == nn;
                lemma_fundamental_div_mod_converse(t as int, n as int, -(q as int), 0);
            }
            (-(q as i128), 0)
        } else {
            proof {
                assert(q <= u - 1) by (nonlinear_arith)
                    requires u == nn * q + m, nn >= 1, q >= 0, m >= 1;
                assert(t as int == (-(q as int) - 1) * (n as int) + (n - m)) by (nonlinear_arith)
                    requires u == nn * q + m, t == -u, n == nn;
                lemma_fundamental_div_mod_converse(t as int, n as int, -(q as int) - 1, n - m);
            }
            (-(q as i128) - 1, n - (m as i128))
        }
    }
}

/// Appends the scaled custom amounts of one side of an expense to `ups`,
/// and returns their unscaled sum.
fn push_fixed_updates(
    ps: &Vec<SavedParticipant>,
    mode: ParticipantMode,
    ups: &mut Vec<(String, i128)>,
) -> (total: i128)
    requires
        custom_magnitude(ps@) <= WEIGHT_LIMIT,
    ensures
        entries(final(ups)@) == entries(old(ups)@) + fixed_updates(ps@, mode),
        total == fixed_total(ps@, mode),
{
    let ghost start = entries(ups@);
    let mut total: i128 = 0;
    let mut i: usize = 0;
    proof {
        assert(ps@.take(0) =~= seq![]);
        assert(start + fixed_updates(ps@.take(0), mode) =~= start);
    }
    while i < ps.len()
        invariant
            0 <= i <= ps.len(),
            entries(ups@) == start + fixed_updates(ps@.take(i as int), mode),
            total == fixed_total(ps@.take(i as int), mode),
            custom_magnitude(ps@) <= WEIGHT_LIMIT,
        decreases ps.len() - i,
    {
        let p = &ps[i];
        proof {
            assert(ps@.take(i + 1).drop_last() =~= ps@.take(i as int));
            assert(ps@.take(i + 1).last() == ps@[i as int]);
            lemma_custom_magnitude_prefix(ps@, i + 1);
        }
        match p.amount {
            Some(a) => {
                if p.mode == mode {
                    let scaled = (a as i128) * SCALE;
                    let delta: i128 = if mode == ParticipantMode::Debtor {
                        -scaled
                    } else {
                        scaled
                    };
                    let ghost before = ups@;
                    ups.push((p.name.clone(), delta));
                    total = total + a as i128;
                    proof {
                        let sg = side_sign(mode);
                        assert(custom(*p) == a);
                        if mode == ParticipantMode::Debtor {
                            assert(sg * (custom(*p) * SCALE) == delta) by (nonlinear_arith)
                                requires sg == -1, delta == -scaled, scaled == custom(*p) * SCALE;
                        } else {
                            assert(sg * (custom(*p) * SCALE) == delta) by (nonlinear_arith)
                                requires sg == 1, delta == scaled, scaled == custom(*p) * SCALE;
                        }
                        assert(fixed_updates(ps@.take(i + 1), mode) == fixed_updates(
                            ps@.take(i as int),
                            mode,
                        ).push((p.name@, sg * (custom(*p) * SCALE))));
                        assert(entries(ups@) =~= entries(before).push((p.name@, delta as int)));
                        assert(start + fixed_updates(ps@.take(i + 1), mode) =~= (start
                            + fixed_updates(ps@.take(i as int), mode)).push(
                            (p.name@, delta as int),
                        ));
                    }
                }
            },
            None => {},
        }
        i += 1;
    }
    proof {
        assert(ps@.take(ps.len() as int) =~= ps@);
    }
    total
}

fn contains_name(v: &Vec<String>, n: &String) -> (r: bool)
    ensures
        r == names(v@).contains(n@),
{
    let mut i: usize = 0;
    while i < v.len()
        invariant
            0 <= i <= v.len(),
            forall|j: int| 0 <= j < i ==> v@[j]@ != n@,
        decreases v.len() - i,
    {
        if v[i] == *n {
            proof {
                assert(names(v@)[i as int] == n@);
            }
            return true;
        }
        i += 1;
    }
    proof {
        if names(v@).contains(n@) {
            let j = choose|j: int| 0 <= j < names(v@).len() && names(v@)[j] == n@;
            assert(v@[j]@ == n@);
        }
    }
    false
}

fn has_fixed_debtor_named(ps: &Vec<SavedParticipant>, n: &String) -> (r: bool)
    ensures
        r == names_fixed_debtor(ps@, n@),
{
    let mut i: usize = 0;
    while i < ps.len()
        invariant
            0 <= i <= ps.len(),
            forall|j: int|
                0 <= j < i ==> !(is_fixed(#[trigger] ps@[j], ParticipantMode::Debtor) && ps@[j].name@
                    == n@),
        decreases ps.len() - i,
    {
        let p = &ps[i];
        if p.mode == ParticipantMode::Debtor && p.amount.is_some() && p.name == *n {
            return true;
        }
        i += 1;
    }
    false
}

/// The names that share the rest of an expense's debt (see `debt_sharers`).
fn debt_sharer_names(ps: &Vec<SavedParticipant>) -> (r: Vec<String>)
    ensures
        names(r@) == debt_sharers(ps@, ps@),
{
    let mut r: Vec<String> = Vec::new();
    let mut i: usize = 0;
    proof {
        assert(ps@.take(0) =~= seq![]);
        assert(names(r@) =~= seq![]);
    }
    while i < ps.len()
        invariant
            0 <= i <= ps.len(),
            names(r@) == debt_sharers(ps@, ps@.take(i as int)),
        decreases ps.len() - i,
    {
        let p = &ps[i];
        proof {
            assert(ps@.take(i + 1).drop_last() =~= ps@.take(i as int));
            assert(ps@.take(i + 1).last() == ps@[i as int]);
        }
        if !has_fixed_debtor_named(ps, &p.name) && !contains_name(&r, &p.name) {
            let ghost before = r@;
            r.push(p.name.clone());
            proof {
                assert(names(r@) =~= names(before).push(p.name@));
            }
        }
        i += 1;
    }
    proof {
        assert(ps@.take(ps.len() as int) =~= ps@);
    }
    r
}

/// The creditors without a custom amount (see `credit_sharers`).
fn credit_sharer_names(ps: &Vec<SavedParticipant>) -> (r: Vec<String>)
    ensures
        names(r@) == credit_sharers(ps@),
{
    let mut r: Vec<String> = Vec::new();
    let mut i: usize = 0;
    proof {
        assert(ps@.take(0) =~= seq![]);
        assert(names(r@) =~= seq![]);
    }
    while i < ps.len()
        invariant
            0 <= i <= ps.len(),
            names(r@) == credit_sharers(ps@.take(i as int)),
        decreases ps.len() - i,
    {
        let p = &ps[i];
        proof {
            assert(ps@.take(i + 1).drop_last() =~= ps@.take(i as int));
            assert(ps@.take(i + 1).last() == ps@[i as int]);
        }
        if p.mode == ParticipantMode::Creditor && p.amount.is_none() {
            let ghost before = r@;
            r.push(p.name.clone());
            proof {
                assert(names(r@) =~= names(before).push(p.name@));
            }
        }
        i += 1;
    }
    proof {
        assert(ps@.take(ps.len() as int) =~= ps@);
    }
    r
}

/// Appends to `ups` the quotas of `total` split among `sharers`, negated on
/// the debt side.
fn push_share_updates(
    sharers: &Vec<String>,
    total: i128,
    debt: bool,
    ups: &mut Vec<(String, i128)>,
)
    requires
        -0x4000_0000_0000_0000_0000_0000_0000_0000 < total < 0x4000_0000_0000_0000_0000_0000_0000_0000,
    ensures
        entries(final(ups)@) == entries(old(ups)@) + share_updates(
            names(sharers@),
            total as int,
            if debt { -1int } else { 1int },
        ),
{
    let ghost start = entries(ups@);
    let ghost sign: int = if debt { -1int } else { 1int };
    let ghost s = share_updates(names(sharers@), total as int, sign);
    if sharers.len() == 0 {
        proof {
            assert(s =~= seq![]);
            assert(start + s =~= start);
        }
        return;
    }
    let n = sharers.len() as i128;
    let (q, r) = floor_div_mod(total, n);
    let mut j: usize = 0;
    proof {
        assert(start + s.take(0) =~= start);
    }
    while j < sharers.len()
        invariant
            0 <= j <= sharers.len(),
            n == sharers.len(),
            n > 0,
            q == total / n,
            r == total % n,
            -0x4000_0000_0000_0000_0000_0000_0000_0000 < q < 0x4000_0000_0000_0000_0000_0000_0000_0000,
            sign == if debt { -1int } else { 1int },
            s == share_updates(names(sharers@), total as int, sign),
            entries(ups@) == start + s.take(j as int),
        decreases sharers.len() - j,
    {
        let part: i128 = if (j as i128) < r {
            q + 1
        } else {
            q
        };
        let delta: i128 = if debt {
            -part
        } else {
            part
        };
        let ghost before = ups@;
        ups.push((sharers[j].clone(), delta));
        proof {
            assert(s[j as int] == (sharers@[j as int]@, sign * quota(total as int, n as int, j as int)));
            assert(part == quota(total as int, n as int, j as int));
            if debt {
                assert(sign * part == -part) by (nonlinear_arith)
                    requires sign == -1;
            } else {
                assert(sign * part == part) by (nonlinear_arith)
                    requires sign == 1;
            }
            assert(delta == sign * quota(total as int, n as int, j as int));
            assert(entries(ups@) =~= entries(before).push((sharers@[j as int]@, delta as int)));
            assert(s.take(j + 1) =~= s.take(j as int).push(s[j as int]));
            assert(start + s.take(j + 1) =~= (start + s.take(j as int)).push(s[j as int]));
        }
        j += 1;
    }
    proof {
        assert(s.take(sharers.len() as int) =~= s);
    }
}


/// Appends the changes that the debt side of `expense` makes to the balances.
fn compute_debts(expense: &SavedExpense, ups: &mut Vec<(String, i128)>)
    requires
        weight(*expense) <= WEIGHT_LIMIT,
    ensures
        entries(final(ups)@) == entries(old(ups)@) + debt_updates(*expense),
{
    let ghost start = entries(ups@);
    let ghost ps = expense.participants@;
    proof {
        lemma_custom_magnitude_prefix(ps, ps.len() as int);
        assert(ps.take(ps.len() as int) =~= ps);
    }
    let fixed = push_fixed_updates(&expense.participants, ParticipantMode::Debtor, ups);
    let ghost mid = entries(ups@);
    let sharers = debt_sharer_names(&expense.participants);
    let rest = ((expense.amount as i128) - fixed) * SCALE;
    push_share_updates(&sharers, rest, true, ups);
    proof {
        assert(entries(ups@) =~= start + debt_updates(*expense));
    }
}

/// Appends the changes that the credit side of `expense` makes to the balances.
fn compute_credits(expense: &SavedExpense, ups: &mut Vec<(String, i128)>)
    requires
        weight(*expense) <= WEIGHT_LIMIT,
    ensures
        entries(final(ups)@) == entries(old(ups)@) + credit_updates(*expense),
{
    let ghost start = entries(ups@);
    let ghost ps = expense.participants@;
    proof {
        lemma_custom_magnitude_prefix(ps, ps.len() as int);
        assert(ps.take(ps.len() as int) =~= ps);
    }
    let fixed = push_fixed_updates(&expense.participants, ParticipantMode::Creditor, ups);
    let sharers = credit_sharer_names(&expense.participants);
    let rest = ((expense.amount as i128) - fixed) * SCALE;
    push_share_updates(&sharers, rest, false, ups);
    proof {
        assert(entries(ups@) =~= start + credit_updates(*expense));
    }
}

proof fn lemma_delta_total_update(s: Seq<Update>, i: int, x: Update)
    requires
        0 <= i < s.len(),
    ensures
        delta_total(s.update(i, x)) == delta_total(s) - s[i].1 + x.1,
    decreases s.len(),
{
    if i == s.len() - 1 {
        assert(s.update(i, x).drop_last() =~= s.drop_last());
    } else {
        assert(s.update(i, x).drop_last() =~= s.drop_last().update(i, x));
        lemma_delta_total_update(s.drop_last(), i, x);
    }
}

proof fn lemma_push_update(ups: Seq<Update>, name: Seq<char>, delta: int)
    ensures
        forall|k: Seq<char>|
            #[trigger] mentions(ups.push((name, delta)), k) <==> (mentions(ups, k) || k == name),
        forall|k: Seq<char>|
            #[trigger] net_of(ups.push((name, delta)), k) == net_of(ups, k) + if k == name {
                delta
            } else {
                0
            },
{
    let nu = ups.push((name, delta));
    assert(nu.drop_last() =~= ups);
    assert forall|k: Seq<char>| #[trigger] mentions(nu, k) <==> (mentions(ups, k) || k == name) by {
        if mentions(nu, k) && k != name {
            let j = choose|j: int| 0 <= j < nu.len() && nu[j].0 == k;
            assert(ups[j].0 == k);
        }
        if mentions(ups, k) {
            let j = choose|j: int| 0 <= j < ups.len() && ups[j].0 == k;
            assert(nu[j].0 == k);
        }
        if k == name {
            assert(nu[ups.len() as int].0 == k);
        }
    }
    assert forall|k: Seq<char>|
        #[trigger] net_of(nu, k) == net_of(ups, k) + if k == name {
            delta
        } else {
            0
        } by {}
}

/// Adds `delta` to the balance of `name`, which enters the list if it is new.
fn apply_update(
    balance: &mut Vec<(String, i128)>,
    name: &String,
    delta: i128,
    Ghost(ups): Ghost<Seq<Update>>,
)
    requires
        describes(old(balance)@, ups),
        delta_total(entries(old(balance)@)) == delta_total(ups),
        abs(net_of(ups, name@) + delta) <= i128::MAX,
    ensures
        describes(final(balance)@, ups.push((name@, delta as int))),
        delta_total(entries(final(balance)@)) == delta_total(ups.push((name@, delta as int))),
{
    let ghost nu = ups.push((name@, delta as int));
    proof {
        lemma_push_update(ups, name@, delta as int);
    }
    let mut i: usize = 0;
    while i < balance.len()
        invariant
            0 <= i <= balance.len(),
            balance@ == old(balance)@,
            nu == ups.push((name@, delta as int)),
            describes(old(balance)@, ups),
            delta_total(entries(old(balance)@)) == delta_total(ups),
            abs(net_of(ups, name@) + delta) <= i128::MAX,
            forall|j: int| 0 <= j < i ==> balance@[j].0@ != name@,
        decreases balance.len() - i,
    {
        if balance[i].0 == *name {
            let v = balance[i].1;
            let ghost before = balance@;
            proof {
                lemma_push_update(ups, name@, delta as int);
                assert(before == old(balance)@);
                assert(before[i as int].0@ == name@);
                assert(mentions(ups, name@));
                assert(nu.drop_last() =~= ups);
                assert(first_mentions(nu) == first_mentions(ups));
                assert(v == net_of(ups, name@));
            }
            balance.set(i, (name.clone(), v + delta));
            proof {
                let after = balance@;
                assert forall|a: int, b: int| 0 <= a < b < after.len() implies after[a].0@
                    != after[b].0@ by {
                    assert(before[a].0@ != before[b].0@);
                }
                assert forall|j: int| 0 <= j < after.len() implies mentions(
                    nu,
                    #[trigger] after[j].0@,
                ) && after[j].1 == net_of(nu, after[j].0@) by {
                    assert(mentions(ups, before[j].0@));
                    if j != i {
                        assert(before[j].0@ != before[i as int].0@);
                    }
                }
                assert forall|k: Seq<char>| mentions(nu, k) implies exists|j: int|
                    0 <= j < after.len() && after[j].0@ == k by {
                    if k == name@ {
                        assert(after[i as int].0@ == k);
                    } else {
                        let j = choose|j: int| 0 <= j < before.len() && before[j].0@ == k;
                        assert(after[j].0@ == k);
                    }
                }
                assert(entries(after) =~= entries(before).update(
                    i as int,
                    (name@, (v + delta) as int),
                ));
                lemma_delta_total_update(entries(before), i as int, (name@, (v + delta) as int));
                assert(nu.drop_last() =~= ups);
            }
            return;
        }
        i += 1;
    }
    proof {
        if mentions(ups, name@) {
            let j = choose|j: int| 0 <= j < balance@.len() && balance@[j].0@ == name@;
            assert(false);
        }
        lemma_net_unmentioned(ups, name@);
    }
    let ghost before = balance@;
    balance.push((name.clone(), delta));
    proof {
        assert(before == old(balance)@);
        assert(nu.drop_last() =~= ups);
        assert(first_mentions(nu) == first_mentions(ups).push(name@));
        let after = balance@;
        assert forall|a: int, b: int| 0 <= a < b < after.len() implies after[a].0@
            != after[b].0@ by {
            if b < before.len() {
                assert(before[a].0@ != before[b].0@);
            }
        }
        assert forall|j: int| 0 <= j < after.len() implies mentions(
            nu,
            #[trigger] after[j].0@,
        ) && after[j].1 == net_of(nu, after[j].0@) by {
            if j < before.len() {
                assert(mentions(ups, before[j].0@));
                assert(before[j].0@ != name@);
            }
        }
        assert forall|k: Seq<char>| mentions(nu, k) implies exists|j: int|
            0 <= j < after.len() && after[j].0@ == k by {
            if k == name@ {
                assert(after[before.len() as int].0@ == k);
            } else {
                let j = choose|j: int| 0 <= j < before.len() && before[j].0@ == k;
                assert(after[j].0@ == k);
            }
        }
        assert(entries(after).drop_last() =~= entries(before));
        assert(nu.drop_last() =~= ups);
        assert(entries(after).last() == (name@, delta as int));
    }
}

/// Applies every change of `ups` to the balances, in order.
fn apply_updates(
    balance: &mut Vec<(String, i128)>,
    ups: &Vec<(String, i128)>,
    Ghost(base): Ghost<Seq<Update>>,
)
    requires
        describes(old(balance)@, base),
        delta_total(entries(old(balance)@)) == delta_total(base),
        abs_total(base) + abs_total(entries(ups@)) <= 4 * SCALE * WEIGHT_LIMIT,
    ensures
        describes(final(balance)@, base + entries(ups@)),
        delta_total(entries(final(balance)@)) == delta_total(base + entries(ups@)),
{
    let ghost eu = entries(ups@);
    proof {
        assert(base + eu.take(0) =~= base);
    }
    let mut j: usize = 0;
    while j < ups.len()
        invariant
            0 <= j <= ups.len(),
            eu == entries(ups@),
            abs_total(base) + abs_total(eu) <= 4 * SCALE * WEIGHT_LIMIT,
            describes(balance@, base + eu.take(j as int)),
            delta_total(entries(balance@)) == delta_total(base + eu.take(j as int)),
        decreases ups.len() - j,
    {
        let ghost nu = base + eu.take(j + 1);
        proof {
            assert(eu[j as int] == (ups@[j as int].0@, ups@[j as int].1 as int));
            assert(nu =~= (base + eu.take(j as int)).push(eu[j as int]));
            assert(nu.drop_last() =~= base + eu.take(j as int));
            lemma_totals_concat(base, eu.take(j + 1));
            lemma_abs_total_prefix(eu, j + 1);
            lemma_net_bounded(nu, ups@[j as int].0@);
            lemma_net_bounded(base, seq![]);
            lemma_net_bounded(eu.take(j + 1), seq![]);
        }
        apply_update(balance, &ups[j].0, ups[j].1, Ghost(base + eu.take(j as int)));
        j += 1;
    }
    proof {
        assert(eu.take(ups.len() as int) =~= eu);
    }
}

/// Folds `expenses` into each participant's net balance, in fixed point
/// (`SCALE` units to the minor unit): positive when the participant is owed
/// money, negative when they owe it.
///
/// Each participant mentioned by an expense appears once, with the net of the
/// changes that the expenses make to it (see `expense_updates`).
pub fn compute_debts_and_credits(expenses: Vec<SavedExpense>) -> (balance: Vec<(String, i128)>)
    requires
        ledger_weight(expenses@) <= WEIGHT_LIMIT,
    ensures
        describes(balance@, ledger_updates(expenses@)),
        delta_total(entries(balance@)) == delta_total(ledger_updates(expenses@)),
        forall|i: int| 0 <= i < balance@.len() ==> abs(#[trigger] balance@[i].1 as int) <= 4 * SCALE * WEIGHT_LIMIT,
{
    let mut balance: Vec<(String, i128)> = Vec::new();
    let mut i: usize = 0;
    proof {
        assert(expenses@.take(0) =~= seq![]);
    }
    while i < expenses.len()
        invariant
            0 <= i <= expenses.len(),
            ledger_weight(expenses@) <= WEIGHT_LIMIT,
            describes(balance@, ledger_updates(expenses@.take(i as int))),
            delta_total(entries(balance@)) == delta_total(ledger_updates(expenses@.take(i as int))),
            abs_total(ledger_updates(expenses@.take(i as int))) <= 4 * SCALE * ledger_weight(
                expenses@.take(i as int),
            ),
        decreases expenses.len() - i,
    {
        let e = &expenses[i];
        let ghost base = ledger_updates(expenses@.take(i as int));
        let ghost w0 = ledger_weight(expenses@.take(i as int));
        proof {
            assert(expenses@.take(i + 1).drop_last() =~= expenses@.take(i as int));
            assert(expenses@.take(i + 1).last() == *e);
            lemma_ledger_weight_prefix(expenses@, i + 1);
            lemma_ledger_weight_prefix(expenses@, i as int);
            lemma_weight_nonneg(*e);
            lemma_expense_bounded(*e);
            assert(ledger_weight(expenses@.take(i + 1)) == w0 + weight(*e));
            assert(ledger_updates(expenses@.take(i + 1)) == base + expense_updates(*e));
            let we = weight(*e);
            assert(4 * SCALE * w0 + 4 * SCALE * we == 4 * SCALE * (w0 + we)) by (nonlinear_arith);
            assert(4 * SCALE * (w0 + we) <= 4 * SCALE * WEIGHT_LIMIT) by (nonlinear_arith)
                requires w0 + we <= WEIGHT_LIMIT;
        }
        let mut ups: Vec<(String, i128)> = Vec::new();
        compute_debts(e, &mut ups);
        compute_credits(e, &mut ups);
        proof {
            assert(entries(ups@) =~= expense_updates(*e));
            lemma_totals_concat(base, entries(ups@));
        }
        apply_updates(&mut balance, &ups, Ghost(base));
        i += 1;
    }
    proof {
        assert(expenses@.take(expenses.len() as int) =~= expenses@);
        let ups = ledger_updates(expenses@);
        assert(4 * SCALE * ledger_weight(expenses@) <= 4 * SCALE * WEIGHT_LIMIT) by (nonlinear_arith)
            requires ledger_weight(expenses@) <= WEIGHT_LIMIT;
        assert forall|i: int| 0 <= i < balance@.len() implies abs(#[trigger] balance@[i].1 as int)
            <= 4 * SCALE * WEIGHT_LIMIT by {
            assert(mentions(ups, balance@[i].0@));
            lemma_net_bounded(ups, balance@[i].0@);
        }
    }
    balance
}

proof fn lemma_expense_zero_sum(e: SavedExpense)
    requires
        consistent(e),
    ensures
        delta_total(expense_updates(e)) == 0,
{
    let ps = e.participants@;
    let a = e.amount as int;
    let fd = fixed_total(ps, ParticipantMode::Debtor);
    let fc = fixed_total(ps, ParticipantMode::Creditor);
    lemma_fixed_totals(ps, ParticipantMode::Debtor);
    lemma_fixed_totals(ps, ParticipantMode::Creditor);
    lemma_share_totals(debt_sharers(ps, ps), (a - fd) * SCALE, -1);
    lemma_share_totals(credit_sharers(ps), (a - fc) * SCALE, 1);
    lemma_totals_concat(fixed_updates(ps, ParticipantMode::Debtor), share_updates(debt_sharers(ps, ps), (a - fd) * SCALE, -1));
    lemma_totals_concat(fixed_updates(ps, ParticipantMode::Creditor), share_updates(credit_sharers(ps), (a - fc) * SCALE, 1));
    lemma_totals_concat(debt_updates(e), credit_updates(e));
    assert(SCALE * fd + (a - fd) * SCALE == SCALE * a) by (nonlinear_arith);
    assert(SCALE * fc + (a - fc) * SCALE == SCALE * a) by (nonlinear_arith);
}

/// Zero-sum: when every expense's split is consistent, the balances add up to
/// exactly zero, so no rounding drift is left at all (the fixed-point quotas
/// hand out each remainder unit once).
pub proof fn lemma_balances_sum_to_zero(expenses: Seq<SavedExpense>)
    requires
        forall|i: int| 0 <= i < expenses.len() ==> consistent(#[trigger] expenses[i]),
    ensures
        delta_total(ledger_updates(expenses)) == 0,
    decreases expenses.len(),
{
    if expenses.len() > 0 {
        let prev = expenses.drop_last();
        assert forall|i: int| 0 <= i < prev.len() implies consistent(#[trigger] prev[i]) by {
            assert(prev[i] == expenses[i]);
        }
        lemma_balances_sum_to_zero(prev);
        lemma_expense_zero_sum(expenses.last());
        lemma_totals_concat(ledger_updates(prev), expense_updates(expenses.last()));
    }
}

} // verus!
