//! The errors that the ledger reports.
use vstd::prelude::*;

verus! {

/// An error in what a user wrote.
#[derive(Debug)]
pub enum InputError {
    /// The text of an expense does not follow the grammar; holds the reason.
    InvalidExpenseSyntax(String),
    /// The expense is not consistent; holds the reason and the expense.
    InvalidExpense(String, String),
    InvalidParticipantName(String),
    InvalidAliasName(String),
    InvalidGroupName(String),
    UnregisteredParticipant(String),
    AliasRegisteredAsParticipant(String),
    /// An alias already used for a participant: the alias, the participant.
    AliasRegisteredAsAlias(String, String),
    /// Not an alias of the participant: the alias, the participant.
    AliasNotRegisteredAsAlias(String, String),
    UnregisteredGroup(String),
    ParticipantsNotProvided,
    ParticipantNotProvidedInAliasCommand,
    GroupNotProvided,
    GroupWithCustomAmount,
    InvalidLimit(String),
    InvalidExpenseId(String),
}

impl InputError {
    pub fn invalid_expense_syntax(reason: String) -> (r: Self)
        ensures
            r == InputError::InvalidExpenseSyntax(reason),
    {
        InputError::InvalidExpenseSyntax(reason)
    }

    pub fn invalid_expense(reason: String, expense: String) -> (r: Self)
        ensures
            r == InputError::InvalidExpense(reason, expense),
    {
        InputError::InvalidExpense(reason, expense)
    }

    pub fn invalid_participant_name(name: String) -> (r: Self)
        ensures
            r == InputError::InvalidParticipantName(name),
    {
        InputError::InvalidParticipantName(name)
    }

    pub fn invalid_alias_name(name: String) -> (r: Self)
        ensures
            r == InputError::InvalidAliasName(name),
    {
        InputError::InvalidAliasName(name)
    }

    pub fn invalid_group_name(name: String) -> (r: Self)
        ensures
            r == InputError::InvalidGroupName(name),
    {
        InputError::InvalidGroupName(name)
    }

    pub fn unregistered_participant(name: String) -> (r: Self)
        ensures
            r == InputError::UnregisteredParticipant(name),
    {
        InputError::UnregisteredParticipant(name)
    }

    pub fn alias_registered_as_participant(name: String) -> (r: Self)
        ensures
            r == InputError::AliasRegisteredAsParticipant(name),
    {
        InputError::AliasRegisteredAsParticipant(name)
    }

    pub fn alias_registered_as_alias(name: String, participant: String) -> (r: Self)
        ensures
            r == InputError::AliasRegisteredAsAlias(name, participant),
    {
        InputError::AliasRegisteredAsAlias(name, participant)
    }

    pub fn alias_not_registered_as_alias(name: String, participant: String) -> (r: Self)
        ensures
            r == InputError::AliasNotRegisteredAsAlias(name, participant),
    {
        InputError::AliasNotRegisteredAsAlias(name, participant)
    }

    pub fn unregistered_group(name: String) -> (r: Self)
        ensures
            r == InputError::UnregisteredGroup(name),
    {
        InputError::UnregisteredGroup(name)
    }

    pub fn participants_not_provided() -> (r: Self)
        ensures
            r == InputError::ParticipantsNotProvided,
    {
        InputError::ParticipantsNotProvided
    }

    pub fn participant_not_provided_in_alias_command() -> (r: Self)
        ensures
            r == InputError::ParticipantNotProvidedInAliasCommand,
    {
        InputError::ParticipantNotProvidedInAliasCommand
    }

    pub fn group_not_provided() -> (r: Self)
        ensures
            r == InputError::GroupNotProvided,
    {
        InputError::GroupNotProvided
    }

    pub fn group_with_custom_amount() -> (r: Self)
        ensures
            r == InputError::GroupWithCustomAmount,
    {
        InputError::GroupWithCustomAmount
    }

    pub fn invalid_limit(limit: String) -> (r: Self)
        ensures
            r == InputError::InvalidLimit(limit),
    {
        InputError::InvalidLimit(limit)
    }

    pub fn invalid_expense_id(id: String) -> (r: Self)
        ensures
            r == InputError::InvalidExpenseId(id),
    {
        InputError::InvalidExpenseId(id)
    }
}

/// anyhow's `Error`, carried as the cause of a storage failure; nothing is
/// read from it.
#[verifier::external_type_specification]
#[verifier::external_body]
pub struct ExAnyhowError(anyhow::Error);

/// A failure of the storage that holds the ledger.
#[derive(Debug)]
pub enum DatabaseError {
    /// The storage could not be reached or refused a query.
    CommunicationError { message: String, source: anyhow::Error },
    /// A concurrent change got in the way; the operation may be retried.
    ConcurrencyError(String),
}

impl DatabaseError {
    pub fn new(message: &str, e: anyhow::Error) -> (r: Self)
        ensures
            r matches DatabaseError::CommunicationError { message: m, source: s } && m@ == message@
                && s == e,
    {
        DatabaseError::CommunicationError { message: message.to_owned(), source: e }
    }

    pub fn concurrency(message: &str) -> (r: Self)
        ensures
            r matches DatabaseError::ConcurrencyError(m) && m@ == message@,
    {
        DatabaseError::ConcurrencyError(message.to_owned())
    }

    pub fn is_concurrency_error(&self) -> (r: bool)
        ensures
            r == (self is ConcurrencyError),
    {
        match self {
            DatabaseError::ConcurrencyError(_) => true,
            _ => false,
        }
    }
}

} // verus!
