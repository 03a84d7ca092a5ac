use treasurer::error::{DatabaseError, InputError};
use treasurer::types::ParsedParticipant;

#[test]
fn input_error_constructors_build_their_variants() {
    assert!(matches!(
        InputError::invalid_expense("r".to_string(), "e".to_string()),
        InputError::InvalidExpense(r, e) if r == "r" && e == "e"
    ));
    assert!(matches!(
        InputError::invalid_expense_syntax("bad".to_string()),
        InputError::InvalidExpenseSyntax(r) if r == "bad"
    ));
    assert!(matches!(
        InputError::unregistered_participant("p".to_string()),
        InputError::UnregisteredParticipant(p) if p == "p"
    ));
    assert!(matches!(
        InputError::alias_registered_as_participant("a".to_string()),
        InputError::AliasRegisteredAsParticipant(a) if a == "a"
    ));
    assert!(matches!(
        InputError::alias_registered_as_alias("a".to_string(), "p".to_string()),
        InputError::AliasRegisteredAsAlias(a, p) if a == "a" && p == "p"
    ));
    assert!(matches!(
        InputError::alias_not_registered_as_alias("a".to_string(), "p".to_string()),
        InputError::AliasNotRegisteredAsAlias(a, p) if a == "a" && p == "p"
    ));
    assert!(matches!(
        InputError::unregistered_group("g".to_string()),
        InputError::UnregisteredGroup(g) if g == "g"
    ));
    assert!(matches!(
        InputError::invalid_group_name("g".to_string()),
        InputError::InvalidGroupName(g) if g == "g"
    ));
    assert!(matches!(
        InputError::invalid_alias_name("a".to_string()),
        InputError::InvalidAliasName(a) if a == "a"
    ));
    assert!(matches!(
        InputError::invalid_participant_name("p".to_string()),
        InputError::InvalidParticipantName(p) if p == "p"
    ));
    assert!(matches!(
        InputError::participants_not_provided(),
        InputError::ParticipantsNotProvided
    ));
    assert!(matches!(
        InputError::participant_not_provided_in_alias_command(),
        InputError::ParticipantNotProvidedInAliasCommand
    ));
    assert!(matches!(InputError::group_not_provided(), InputError::GroupNotProvided));
    assert!(matches!(
        InputError::group_with_custom_amount(),
        InputError::GroupWithCustomAmount
    ));
    assert!(matches!(
        InputError::invalid_limit("x".to_string()),
        InputError::InvalidLimit(x) if x == "x"
    ));
    assert!(matches!(
        InputError::invalid_expense_id("y".to_string()),
        InputError::InvalidExpenseId(y) if y == "y"
    ));
}

#[test]
fn database_errors_tell_concurrency_apart() {
    let e = DatabaseError::concurrency("busy");
    assert!(e.is_concurrency_error());
    assert!(matches!(e, DatabaseError::ConcurrencyError(m) if m == "busy"));

    let e = DatabaseError::new("cannot read", anyhow::Error::msg("disk"));
    assert!(!e.is_concurrency_error());
    match e {
        DatabaseError::CommunicationError { message, source } => {
            assert_eq!(message, "cannot read");
            assert_eq!(source.to_string(), "disk");
        }
        other => panic!("unexpected: {:?}", other),
    }
}

#[test]
fn participants_know_their_side() {
    let c = ParsedParticipant::new_creditor("a", Some(2));
    assert!(c.is_creditor() && !c.is_debtor() && !c.is_group());
    let d = ParsedParticipant::new_debtor_group("g", None);
    assert!(d.is_debtor() && d.is_group());
    assert_eq!(d.name, "g");
    let g = ParsedParticipant::new_creditor_group("h", None);
    assert!(g.is_creditor() && g.is_group());
    let p = ParsedParticipant::new_debtor("b", None);
    assert!(p.is_debtor() && !p.is_group());
    assert_eq!(p.amount, None);
}
