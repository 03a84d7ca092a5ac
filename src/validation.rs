//! Consistency checks on an expense written by a user, run after parsing and
//! before the expense is stored.
use vstd::prelude::*;
use vstd::string::*;
use crate::error::InputError;
use crate::types::{ParsedExpense, ParsedParticipant, ParticipantMode};

verus! {

/// The first check that an expense fails.
#[derive(Clone, Copy, Debug, PartialEq, Eq, Structural)]
pub enum ExpenseProblem {
    NoParticipants,
    NoCreditors,
    CreditAboveAmount,
    CreditBelowAmount,
    DebtAboveAmount,
    DebtBelowAmount,
    RepeatedCreditor,
    RepeatedDebtor,
}

pub open spec fn reason_text(p: ExpenseProblem) -> Seq<char> {
    match p {
        ExpenseProblem::NoParticipants => "there are neither debtors nor creditors in this expense!"@,
        ExpenseProblem::NoCreditors => "there are no creditors in this expense!"@,
        ExpenseProblem::CreditAboveAmount =>
            "the money that people paid are more than the total expense amount!"@,
        ExpenseProblem::CreditBelowAmount =>
            "all creditors paid a fixed amount and the total is less than the expense amount!"@,
        ExpenseProblem::DebtAboveAmount =>
            "the money owed by people are more than the total expense amount!"@,
        ExpenseProblem::DebtBelowAmount =>
            "all debtors owe a fixed amount and the total is less than the expense amount!"@,
        ExpenseProblem::RepeatedCreditor =>
            "there are creditors appearing multiple times with custom amounts!"@,
        ExpenseProblem::RepeatedDebtor =>
            "there are debtors appearing multiple times with custom amounts!"@,
    }
}

/// `r` rejects the expense for problem `p`.
pub open spec fn rejects(r: Result<(), InputError>, p: ExpenseProblem) -> bool {
    r matches Err(InputError::InvalidExpense(reason, _)) && reason@ == reason_text(p)
}

/// The sum of the custom amounts on one side.
pub open spec fn custom_sum(ps: Seq<ParsedParticipant>, mode: ParticipantMode) -> int
    decreases ps.len(),
{
    if ps.len() == 0 {
        0
    } else {
        custom_sum(ps.drop_last(), mode) + if ps.last().mode == mode && ps.last().amount is Some {
            ps.last().amount->0 as int
        } else {
            0
        }
    }
}

/// Every participant on that side has a custom amount.
pub open spec fn only_fixed(ps: Seq<ParsedParticipant>, mode: ParticipantMode) -> bool {
    forall|i: int| 0 <= i < ps.len() && #[trigger] ps[i].mode == mode ==> ps[i].amount is Some
}

pub open spec fn has_creditor(ps: Seq<ParsedParticipant>) -> bool {
    exists|i: int| #![trigger ps[i]] 0 <= i < ps.len() && ps[i].mode == ParticipantMode::Creditor
}

pub open spec fn debtor_named(ps: Seq<ParsedParticipant>, n: Seq<char>) -> bool {
    exists|i: int| 0 <= i < ps.len() && ps[i].mode == ParticipantMode::Debtor && #[trigger] ps[i].name@ == n
}

/// Every debtor has a custom amount and every creditor is listed as a debtor
/// too: a creditor is otherwise an implicit debtor without a custom amount.
pub open spec fn all_debtors_fixed(ps: Seq<ParsedParticipant>) -> bool {
    &&& only_fixed(ps, ParticipantMode::Debtor)
    &&& forall|i: int|
        0 <= i < ps.len() && #[trigger] ps[i].mode == ParticipantMode::Creditor ==> debtor_named(
            ps,
            ps[i].name@,
        )
}

/// Two participants on that side share a name and both have a custom amount.
pub open spec fn repeated_custom(ps: Seq<ParsedParticipant>, mode: ParticipantMode) -> bool {
    exists|i: int, j: int|
        #![trigger ps[i], ps[j]]
        0 <= i < j < ps.len() && ps[i].mode == mode && ps[j].mode == mode && ps[i].amount is Some
            && ps[j].amount is Some && ps[i].name@ == ps[j].name@
}

/// The first check that the expense fails, if any.
pub open spec fn expense_problem(e: ParsedExpense) -> Option<ExpenseProblem> {
    let ps = e.participants@;
    let a = e.amount as int;
    if ps.len() == 0 {
        Some(ExpenseProblem::NoParticipants)
    } else if !has_creditor(ps) {
        Some(ExpenseProblem::NoCreditors)
    } else if custom_sum(ps, ParticipantMode::Creditor) > a {
        Some(ExpenseProblem::CreditAboveAmount)
    } else if custom_sum(ps, ParticipantMode::Creditor) < a && only_fixed(
        ps,
        ParticipantMode::Creditor,
    ) {
        Some(ExpenseProblem::CreditBelowAmount)
    } else if custom_sum(ps, ParticipantMode::Debtor) > a {
        Some(ExpenseProblem::DebtAboveAmount)
    } else if custom_sum(ps, ParticipantMode::Debtor) < a && all_debtors_fixed(ps) {
        Some(ExpenseProblem::DebtBelowAmount)
    } else if repeated_custom(ps, ParticipantMode::Creditor) {
        Some(ExpenseProblem::RepeatedCreditor)
    } else if repeated_custom(ps, ParticipantMode::Debtor) {
        Some(ExpenseProblem::RepeatedDebtor)
    } else {
        None
    }
}

/// Relies on std's `Debug` formatting (`format!` with `{:#?}`) for a
/// readable dump of the expense to attach to an error.
#[verifier::external_body]
fn describe(expense: &ParsedExpense) -> String {
    format!("{:#?}", expense)
}

fn reject(p: ExpenseProblem, expense: &ParsedExpense) -> (r: Result<(), InputError>)
    ensures
        rejects(r, p),
{
    let reason = match p {
        ExpenseProblem::NoParticipants => String::from_str(
            "there are neither debtors nor creditors in this expense!",
        ),
        ExpenseProblem::NoCreditors => String::from_str("there are no creditors in this expense!"),
        ExpenseProblem::CreditAboveAmount => String::from_str(
            "the money that people paid are more than the total expense amount!",
        ),
        ExpenseProblem::CreditBelowAmount => String::from_str(
            "all creditors paid a fixed amount and the total is less than the expense amount!",
        ),
        ExpenseProblem::DebtAboveAmount => String::from_str(
            "the money owed by people are more than the total expense amount!",
        ),
        ExpenseProblem::DebtBelowAmount => String::from_str(
            "all debtors owe a fixed amount and the total is less than the expense amount!",
        ),
        ExpenseProblem::RepeatedCreditor => String::from_str(
            "there are creditors appearing multiple times with custom amounts!",
        ),
        ExpenseProblem::RepeatedDebtor => String::from_str(
            "there are debtors appearing multiple times with custom amounts!",
        ),
    };
    Err(InputError::invalid_expense(reason, describe(expense)))
}

fn custom_total(ps: &[ParsedParticipant], mode: ParticipantMode) -> (r: i128)
    ensures
        r == custom_sum(ps@, mode),
{
    let mut total: i128 = 0;
    let mut i: usize = 0;
    proof {
        assert(ps@.take(0) =~= seq![]);
    }
    while i < ps.len()
        invariant
            0 <= i <= ps.len(),
            total == custom_sum(ps@.take(i as int), mode),
            -(i as int) * 0x8000_0000_0000_0000 <= total <= (i as int) * 0x8000_0000_0000_0000,
        decreases ps.len() - i,
    {
        proof {
            assert(ps@.take(i + 1).drop_last() =~= ps@.take(i as int));
            assert(ps@.take(i + 1).last() == ps@[i as int]);
        }
        if ps[i].mode == mode {
            match ps[i].amount {
                Some(a) => {
                    total = total + a as i128;
                },
                None => {},
            }
        }
        i += 1;
    }
    proof {
        assert(ps@.take(ps.len() as int) =~= ps@);
    }
    total
}

fn all_fixed(ps: &[ParsedParticipant], mode: ParticipantMode) -> (r: bool)
    ensures
        r == only_fixed(ps@, mode),
{
    let mut i: usize = 0;
    while i < ps.len()
        invariant
            0 <= i <= ps.len(),
            forall|j: int| 0 <= j < i && #[trigger] ps@[j].mode == mode ==> ps@[j].amount is Some,
        decreases ps.len() - i,
    {
        if ps[i].mode == mode && ps[i].amount.is_none() {
            return false;
        }
        i += 1;
    }
    true
}

fn lists_debtor(ps: &[ParsedParticipant], n: &String) -> (r: bool)
    ensures
        r == debtor_named(ps@, n@),
{
    let mut i: usize = 0;
    while i < ps.len()
        invariant
            0 <= i <= ps.len(),
            forall|j: int|
                0 <= j < i && ps@[j].mode == ParticipantMode::Debtor ==> #[trigger] ps@[j].name@
                    != n@,
        decreases ps.len() - i,
    {
        if ps[i].mode == ParticipantMode::Debtor && ps[i].name == *n {
            return true;
        }
        i += 1;
    }
    false
}

/// Whether every debtor has a custom amount and every creditor also appears
/// as a debtor (a creditor is otherwise an implicit debtor with no custom
/// amount).
pub fn are_all_debtors_fixed(participants: &[ParsedParticipant]) -> (r: bool)
    ensures
        r == all_debtors_fixed(participants@),
{
    if !all_fixed(participants, ParticipantMode::Debtor) {
        return false;
    }
    let mut i: usize = 0;
    while i < participants.len()
        invariant
            0 <= i <= participants.len(),
            forall|j: int|
                0 <= j < i && #[trigger] participants@[j].mode == ParticipantMode::Creditor
                    ==> debtor_named(participants@, participants@[j].name@),
        decreases participants.len() - i,
    {
        let p = &participants[i];
        if p.mode == ParticipantMode::Creditor && !lists_debtor(participants, &p.name) {
            return false;
        }
        i += 1;
    }
    true
}

/// Whether two participants on that side share a name and both have a
/// custom amount.
fn has_multiple_custom_amounts(ps: &[ParsedParticipant], mode: ParticipantMode) -> (r: bool)
    ensures
        r == repeated_custom(ps@, mode),
{
    let mut i: usize = 0;
    while i < ps.len()
        invariant
            0 <= i <= ps.len(),
            forall|a: int, b: int|
                #![trigger ps@[a], ps@[b]]
                0 <= a < b < i ==> !(ps@[a].mode == mode && ps@[b].mode == mode && ps@[a].amount is Some
                    && ps@[b].amount is Some && ps@[a].name@ == ps@[b].name@),
        decreases ps.len() - i,
    {
        if ps[i].mode == mode && ps[i].amount.is_some() {
            let mut j: usize = 0;
            while j < i
                invariant
                    0 <= j <= i < ps.len(),
                    ps@[i as int].mode == mode && ps@[i as int].amount is Some,
                    forall|a: int|
                        0 <= a < j ==> !(#[trigger] ps@[a].mode == mode && ps@[a].amount is Some
                            && ps@[a].name@ == ps@[i as int].name@),
                decreases i - j,
            {
                if ps[j].mode == mode && ps[j].amount.is_some() && ps[j].name == ps[i].name {
                    proof {
                        assert(ps@[j as int].name@ == ps@[i as int].name@);
                    }
                    return true;
                }
                j += 1;
            }
        }
        i += 1;
    }
    false
}

/// Rejects an expense with no participants.
pub fn at_least_one_participant(expense: &ParsedExpense) -> (r: Result<(), InputError>)
    ensures
        expense.participants@.len() > 0 ==> r is Ok,
        expense.participants@.len() == 0 ==> rejects(r, ExpenseProblem::NoParticipants),
{
    if expense.participants.len() == 0 {
        reject(ExpenseProblem::NoParticipants, expense)
    } else {
        Ok(())
    }
}

/// Rejects an expense with no creditor.
pub fn at_least_one_creditor(expense: &ParsedExpense) -> (r: Result<(), InputError>)
    ensures
        has_creditor(expense.participants@) ==> r is Ok,
        !has_creditor(expense.participants@) ==> rejects(r, ExpenseProblem::NoCreditors),
{
    let ps = &expense.participants;
    let mut i: usize = 0;
    while i < ps.len()
        invariant
            ps@ == expense.participants@,
            0 <= i <= ps.len(),
            forall|j: int| 0 <= j < i ==> #[trigger] ps@[j].mode != ParticipantMode::Creditor,
        decreases ps.len() - i,
    {
        if ps[i].mode == ParticipantMode::Creditor {
            proof {
                assert(ps@[i as int].mode == ParticipantMode::Creditor);
            }
            return Ok(());
        }
        i += 1;
    }
    reject(ExpenseProblem::NoCreditors, expense)
}

/// Rejects an expense whose custom credit exceeds its amount, or falls short
/// of it while every creditor has a custom amount.
pub fn total_fixed_credit_in_range(expense: &ParsedExpense) -> (r: Result<(), InputError>)
    ensures
        ({
            let ps = expense.participants@;
            let c = custom_sum(ps, ParticipantMode::Creditor);
            &&& c > expense.amount ==> rejects(r, ExpenseProblem::CreditAboveAmount)
            &&& c < expense.amount && only_fixed(ps, ParticipantMode::Creditor) ==> rejects(
                r,
                ExpenseProblem::CreditBelowAmount,
            )
            &&& c == expense.amount || (c < expense.amount && !only_fixed(
                ps,
                ParticipantMode::Creditor,
            )) ==> r is Ok
        }),
{
    let total = custom_total(expense.participants.as_slice(), ParticipantMode::Creditor);
    if total > expense.amount as i128 {
        reject(ExpenseProblem::CreditAboveAmount, expense)
    } else if total < expense.amount as i128 && all_fixed(
        expense.participants.as_slice(),
        ParticipantMode::Creditor,
    ) {
        reject(ExpenseProblem::CreditBelowAmount, expense)
    } else {
        Ok(())
    }
}

/// Rejects an expense whose custom debt exceeds its amount, or falls short of
/// it while every debtor, creditors included, has a custom amount.
pub fn total_fixed_debt_in_range(expense: &ParsedExpense) -> (r: Result<(), InputError>)
    ensures
        ({
            let ps = expense.participants@;
            let d = custom_sum(ps, ParticipantMode::Debtor);
            &&& d > expense.amount ==> rejects(r, ExpenseProblem::DebtAboveAmount)
            &&& d < expense.amount && all_debtors_fixed(ps) ==> rejects(
                r,
                ExpenseProblem::DebtBelowAmount,
            )
            &&& d == expense.amount || (d < expense.amount && !all_debtors_fixed(ps)) ==> r is Ok
        }),
{
    let total = custom_total(expense.participants.as_slice(), ParticipantMode::Debtor);
    if total > expense.amount as i128 {
        reject(ExpenseProblem::DebtAboveAmount, expense)
    } else if total < expense.amount as i128 && are_all_debtors_fixed(
        expense.participants.as_slice(),
    ) {
        reject(ExpenseProblem::DebtBelowAmount, expense)
    } else {
        Ok(())
    }
}

/// Rejects an expense where a creditor, or a debtor, appears twice with a
/// custom amount.
pub fn no_duplicate_custom_amounts(expense: &ParsedExpense) -> (r: Result<(), InputError>)
    ensures
        ({
            let ps = expense.participants@;
            &&& repeated_custom(ps, ParticipantMode::Creditor) ==> rejects(
                r,
                ExpenseProblem::RepeatedCreditor,
            )
            &&& !repeated_custom(ps, ParticipantMode::Creditor) && repeated_custom(
                ps,
                ParticipantMode::Debtor,
            ) ==> rejects(r, ExpenseProblem::RepeatedDebtor)
            &&& !repeated_custom(ps, ParticipantMode::Creditor) && !repeated_custom(
                ps,
                ParticipantMode::Debtor,
            ) ==> r is Ok
        }),
{
    if has_multiple_custom_amounts(expense.participants.as_slice(), ParticipantMode::Creditor) {
        reject(ExpenseProblem::RepeatedCreditor, expense)
    } else if has_multiple_custom_amounts(
        expense.participants.as_slice(),
        ParticipantMode::Debtor,
    ) {
        reject(ExpenseProblem::RepeatedDebtor, expense)
    } else {
        Ok(())
    }
}

/// Checks an expense before it is stored: it has participants and a
/// creditor, its custom amounts fit its amount on each side (and make it up
/// when everyone on a side has one), and no one appears twice on a side with
/// a custom amount. The error names the first check that fails.
pub fn validate_expense(expense: &ParsedExpense) -> (r: Result<(), InputError>)
    ensures
        expense_problem(*expense) is None ==> r is Ok,
        expense_problem(*expense) matches Some(p) ==> rejects(r, p),
{
    let r = at_least_one_participant(expense);
    if r.is_err() {
        return r;
    }
    let r = at_least_one_creditor(expense);
    if r.is_err() {
        return r;
    }
    let r = total_fixed_credit_in_range(expense);
    if r.is_err() {
        return r;
    }
    let r = total_fixed_debt_in_range(expense);
    if r.is_err() {
        return r;
    }
    no_duplicate_custom_amounts(expense)
}

} // verus!
