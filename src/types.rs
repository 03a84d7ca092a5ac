//! The data structures shared by the ledger's modules.
use vstd::prelude::*;

verus! {

/// A quantity of money in minor units (cents).
///
/// All amounts are integers: a value of `1234` stands for `12.34`.
pub type Amount = i64;

/// Whether a participant to an expense paid (creditor) or owes (debtor).
#[derive(Clone, Copy, Debug, PartialEq, Eq, Structural)]
pub enum ParticipantMode {
    Creditor,
    Debtor,
}

/// An expense as written by a user, before it is stored.
#[derive(Clone, Debug)]
pub struct ParsedExpense {
    pub participants: Vec<ParsedParticipant>,
    pub amount: Amount,
    pub message: Option<String>,
}

/// A participant to an expense as written by a user.
///
/// `amount` is an optional custom share: for a debtor, what they owe;
/// for a creditor, what they paid. A participant may name a group, which
/// is replaced by its members before the expense is stored.
#[derive(Clone, Debug)]
pub struct ParsedParticipant {
    pub name: String,
    pub mode: ParticipantMode,
    pub amount: Option<Amount>,
    pub is_group: bool,
}

/// An expense as read back from storage, with its identifier.
#[derive(Clone, Debug)]
pub struct SavedExpense {
    pub id: i64,
    pub participants: Vec<SavedParticipant>,
    pub amount: Amount,
    pub message: Option<String>,
}

/// A participant to a stored expense; `amount` is an optional custom share.
#[derive(Clone, Debug)]
pub struct SavedParticipant {
    pub name: String,
    pub mode: ParticipantMode,
    pub amount: Option<Amount>,
}

/// A debtor, a creditor and the amount that the debtor pays the creditor.
#[derive(Clone, Debug)]
pub struct MoneyExchange {
    pub debtor: String,
    pub creditor: String,
    pub amount: Amount,
}

impl ParsedExpense {
    pub fn new(participants: Vec<ParsedParticipant>, amount: Amount, message: Option<String>) -> (r:
        ParsedExpense)
        ensures
            r.participants@ == participants@,
            r.amount == amount,
            r.message == message,
    {
        ParsedExpense { participants, amount, message }
    }
}

impl MoneyExchange {
    pub fn new(debtor: &str, creditor: &str, amount: Amount) -> (r: MoneyExchange)
        ensures
            r.debtor@ == debtor@,
            r.creditor@ == creditor@,
            r.amount == amount,
    {
        MoneyExchange { debtor: debtor.to_owned(), creditor: creditor.to_owned(), amount }
    }
}

impl SavedExpense {
    pub fn new(
        id: i64,
        participants: Vec<SavedParticipant>,
        amount: Amount,
        message: Option<String>,
    ) -> (r: SavedExpense)
        ensures
            r.id == id,
            r.participants@ == participants@,
            r.amount == amount,
            r.message == message,
    {
        SavedExpense { id, participants, amount, message }
    }
}

impl ParsedParticipant {
    fn new(name: String, mode: ParticipantMode, amount: Option<Amount>, is_group: bool) -> (r: Self)
        ensures
            r.name@ == name@,
            r.mode == mode,
            r.amount == amount,
            r.is_group == is_group,
    {
        Self { name, mode, amount, is_group }
    }

    pub fn new_creditor(name: &str, amount: Option<Amount>) -> (r: Self)
        ensures
            r.name@ == name@,
            r.mode == ParticipantMode::Creditor,
            r.amount == amount,
            !r.is_group,
    {
        Self::new(name.to_owned(), ParticipantMode::Creditor, amount, false)
    }

    pub fn new_debtor(name: &str, amount: Option<Amount>) -> (r: Self)
        ensures
            r.name@ == name@,
            r.mode == ParticipantMode::Debtor,
            r.amount == amount,
            !r.is_group,
    {
        Self::new(name.to_owned(), ParticipantMode::Debtor, amount, false)
    }

    pub fn new_creditor_group(name: &str, amount: Option<Amount>) -> (r: Self)
        ensures
            r.name@ == name@,
            r.mode == ParticipantMode::Creditor,
            r.amount == amount,
            r.is_group,
    {
        Self::new(name.to_owned(), ParticipantMode::Creditor, amount, true)
    }

    pub fn new_debtor_group(name: &str, amount: Option<Amount>) -> (r: Self)
        ensures
            r.name@ == name@,
            r.mode == ParticipantMode::Debtor,
            r.amount == amount,
            r.is_group,
    {
        Self::new(name.to_owned(), ParticipantMode::Debtor, amount, true)
    }

    pub fn is_creditor(&self) -> (r: bool)
        ensures
            r == (self.mode == ParticipantMode::Creditor),
    {
        self.mode == ParticipantMode::Creditor
    }

    pub fn is_debtor(&self) -> (r: bool)
        ensures
            r == (self.mode == ParticipantMode::Debtor),
    {
        self.mode == ParticipantMode::Debtor
    }

    pub fn is_group(&self) -> (r: bool)
        ensures
            r == self.is_group,
    {
        self.is_group
    }
}

impl SavedParticipant {
    fn new(name: String, mode: ParticipantMode, amount: Option<Amount>) -> (r: Self)
        ensures
            r.name@ == name@,
            r.mode == mode,
            r.amount == amount,
    {
        Self { name, mode, amount }
    }

    pub fn new_creditor(name: &str, amount: Option<Amount>) -> (r: Self)
        ensures
            r.name@ == name@,
            r.mode == ParticipantMode::Creditor,
            r.amount == amount,
    {
        Self::new(name.to_owned(), ParticipantMode::Creditor, amount)
    }

    pub fn new_debtor(name: &str, amount: Option<Amount>) -> (r: Self)
        ensures
            r.name@ == name@,
            r.mode == ParticipantMode::Debtor,
            r.amount == amount,
    {
        Self::new(name.to_owned(), ParticipantMode::Debtor, amount)
    }

    pub fn is_creditor(&self) -> (r: bool)
        ensures
            r == (self.mode == ParticipantMode::Creditor),
    {
        self.mode == ParticipantMode::Creditor
    }

    pub fn is_debtor(&self) -> (r: bool)
        ensures
            r == (self.mode == ParticipantMode::Debtor),
    {
        self.mode == ParticipantMode::Debtor
    }
}

} // verus!
