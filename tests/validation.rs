use treasurer::error::InputError;
use treasurer::types::{ParsedExpense, ParsedParticipant};
use treasurer::validation::{
    are_all_debtors_fixed, at_least_one_creditor, at_least_one_participant,
    no_duplicate_custom_amounts, total_fixed_credit_in_range, total_fixed_debt_in_range,
    validate_expense,
};

fn reason(r: Result<(), InputError>) -> String {
    match r {
        Err(InputError::InvalidExpense(reason, _)) => reason,
        other => panic!("unexpected result: {:?}", other),
    }
}

#[test]
fn validator_test_no_participants() {
    let expense = ParsedExpense {
        participants: vec![],
        amount: 33,
        message: None,
    };
    assert!(validate_expense(&expense).is_err());
}

#[test]
fn validator_test_are_all_debtors_fixed() {
    let participants = vec![
        ParsedParticipant::new_creditor("a", Some(3)),
        ParsedParticipant::new_debtor("b", Some(3)),
        ParsedParticipant::new_debtor("a", Some(2)),
    ];
    assert_eq!(true, are_all_debtors_fixed(&participants));

    let participants = vec![
        ParsedParticipant::new_creditor("a", Some(3)),
        ParsedParticipant::new_debtor("b", Some(3)),
    ];
    assert_eq!(false, are_all_debtors_fixed(&participants));

    let participants = vec![
        ParsedParticipant::new_creditor("a", Some(3)),
        ParsedParticipant::new_debtor("b", Some(3)),
        ParsedParticipant::new_debtor("a", Some(2)),
        ParsedParticipant::new_debtor("c", None),
    ];
    assert_eq!(false, are_all_debtors_fixed(&participants));
}

#[test]
fn test_multiple_custom_amounts() {
    let participants = vec![
        ParsedParticipant::new_creditor("a", None),
        ParsedParticipant::new_creditor("b", None),
        ParsedParticipant::new_creditor("a", None),
    ];
    let expense = ParsedExpense::new(participants, 33, None);
    assert!(validate_expense(&expense).is_ok());

    let participants = vec![
        ParsedParticipant::new_creditor("a", None),
        ParsedParticipant::new_debtor("a", None),
        ParsedParticipant::new_debtor("b", None),
        ParsedParticipant::new_debtor("a", None),
    ];
    let expense = ParsedExpense::new(participants, 33, None);
    assert!(validate_expense(&expense).is_ok());

    let participants = vec![
        ParsedParticipant::new_creditor("a", Some(3)),
        ParsedParticipant::new_creditor("b", None),
        ParsedParticipant::new_creditor("a", Some(3)),
    ];
    let expense = ParsedExpense::new(participants, 33, None);
    assert!(validate_expense(&expense).is_err());

    let participants = vec![
        ParsedParticipant::new_creditor("a", None),
        ParsedParticipant::new_debtor("a", Some(2)),
        ParsedParticipant::new_debtor("b", None),
        ParsedParticipant::new_debtor("a", Some(3)),
    ];
    let expense = ParsedExpense::new(participants, 33, None);
    assert!(validate_expense(&expense).is_err());

    let participants = vec![
        ParsedParticipant::new_creditor("a", Some(3)),
        ParsedParticipant::new_creditor("c", None),
        ParsedParticipant::new_debtor("a", Some(2)),
        ParsedParticipant::new_debtor("b", None),
        ParsedParticipant::new_debtor("a", None),
    ];
    let expense = ParsedExpense::new(participants, 33, None);
    assert!(validate_expense(&expense).is_ok());
}

#[test]
fn expense_test_no_participants() {
    let expense = ParsedExpense {
        participants: vec![],
        amount: 33,
        message: None,
    };
    assert!(at_least_one_participant(&expense).is_err());
}

#[test]
fn expense_test_are_all_debtors_fixed() {
    let participants = vec![
        ParsedParticipant::new_creditor("a", Some(3)),
        ParsedParticipant::new_debtor("b", Some(3)),
        ParsedParticipant::new_debtor("a", Some(2)),
    ];
    assert!(are_all_debtors_fixed(&participants));

    let participants = vec![
        ParsedParticipant::new_creditor("a", Some(3)),
        ParsedParticipant::new_debtor("b", Some(3)),
    ];
    assert!(!are_all_debtors_fixed(&participants));

    let participants = vec![
        ParsedParticipant::new_creditor("a", Some(3)),
        ParsedParticipant::new_debtor("b", Some(3)),
        ParsedParticipant::new_debtor("a", Some(2)),
        ParsedParticipant::new_debtor("c", None),
    ];
    assert!(!are_all_debtors_fixed(&participants));
}

#[test]
fn test_no_duplicate_custom_amounts() {
    let participants = vec![
        ParsedParticipant::new_creditor("a", None),
        ParsedParticipant::new_creditor("b", None),
        ParsedParticipant::new_creditor("a", None),
    ];
    let expense = ParsedExpense::new(participants, 33, None);
    assert!(no_duplicate_custom_amounts(&expense).is_ok());

    let participants = vec![
        ParsedParticipant::new_creditor("a", None),
        ParsedParticipant::new_debtor("a", None),
        ParsedParticipant::new_debtor("b", None),
        ParsedParticipant::new_debtor("a", None),
    ];
    let expense = ParsedExpense::new(participants, 33, None);
    assert!(no_duplicate_custom_amounts(&expense).is_ok());

    let participants = vec![
        ParsedParticipant::new_creditor("a", Some(3)),
        ParsedParticipant::new_creditor("b", None),
        ParsedParticipant::new_creditor("a", Some(3)),
    ];
    let expense = ParsedExpense::new(participants, 33, None);
    assert!(no_duplicate_custom_amounts(&expense).is_err());

    let participants = vec![
        ParsedParticipant::new_creditor("a", None),
        ParsedParticipant::new_debtor("a", Some(2)),
        ParsedParticipant::new_debtor("b", None),
        ParsedParticipant::new_debtor("a", Some(3)),
    ];
    let expense = ParsedExpense::new(participants, 33, None);
    assert!(no_duplicate_custom_amounts(&expense).is_err());

    let participants = vec![
        ParsedParticipant::new_creditor("a", Some(3)),
        ParsedParticipant::new_creditor("c", None),
        ParsedParticipant::new_debtor("a", Some(2)),
        ParsedParticipant::new_debtor("b", None),
        ParsedParticipant::new_debtor("a", None),
    ];
    let expense = ParsedExpense::new(participants, 33, None);
    assert!(no_duplicate_custom_amounts(&expense).is_ok());
}

#[test]
fn each_problem_has_its_reason() {
    let empty = ParsedExpense::new(vec![], 10, None);
    assert_eq!(
        reason(validate_expense(&empty)),
        "there are neither debtors nor creditors in this expense!"
    );

    let no_creditor = ParsedExpense::new(vec![ParsedParticipant::new_debtor("a", None)], 10, None);
    assert_eq!(
        reason(at_least_one_creditor(&no_creditor)),
        "there are no creditors in this expense!"
    );

    let paid_too_much = ParsedExpense::new(
        vec![ParsedParticipant::new_creditor("a", Some(11)), ParsedParticipant::new_creditor("b", None)],
        10,
        None,
    );
    assert_eq!(
        reason(validate_expense(&paid_too_much)),
        "the money that people paid are more than the total expense amount!"
    );

    let paid_too_little = ParsedExpense::new(vec![ParsedParticipant::new_creditor("a", Some(9))], 10, None);
    assert_eq!(
        reason(total_fixed_credit_in_range(&paid_too_little)),
        "all creditors paid a fixed amount and the total is less than the expense amount!"
    );

    let owes_too_much = ParsedExpense::new(
        vec![ParsedParticipant::new_creditor("a", None), ParsedParticipant::new_debtor("b", Some(12))],
        10,
        None,
    );
    assert_eq!(
        reason(validate_expense(&owes_too_much)),
        "the money owed by people are more than the total expense amount!"
    );

    let owes_too_little = ParsedExpense::new(
        vec![
            ParsedParticipant::new_creditor("a", None),
            ParsedParticipant::new_debtor("a", Some(2)),
            ParsedParticipant::new_debtor("b", Some(3)),
        ],
        10,
        None,
    );
    assert_eq!(
        reason(total_fixed_debt_in_range(&owes_too_little)),
        "all debtors owe a fixed amount and the total is less than the expense amount!"
    );

    let repeated_creditor = ParsedExpense::new(
        vec![
            ParsedParticipant::new_creditor("a", Some(3)),
            ParsedParticipant::new_creditor("a", Some(4)),
            ParsedParticipant::new_creditor("b", None),
        ],
        10,
        None,
    );
    assert_eq!(
        reason(validate_expense(&repeated_creditor)),
        "there are creditors appearing multiple times with custom amounts!"
    );

    let repeated_debtor = ParsedExpense::new(
        vec![
            ParsedParticipant::new_creditor("a", None),
            ParsedParticipant::new_debtor("b", Some(1)),
            ParsedParticipant::new_debtor("b", Some(2)),
        ],
        10,
        None,
    );
    assert_eq!(
        reason(validate_expense(&repeated_debtor)),
        "there are debtors appearing multiple times with custom amounts!"
    );
}

#[test]
fn consistent_expense_passes_every_check() {
    let expense = ParsedExpense::new(
        vec![
            ParsedParticipant::new_creditor("a", Some(6)),
            ParsedParticipant::new_creditor("b", Some(4)),
            ParsedParticipant::new_debtor("c", Some(5)),
            ParsedParticipant::new_debtor("d", None),
        ],
        10,
        Some("dinner".to_string()),
    );
    assert!(validate_expense(&expense).is_ok());
    assert!(at_least_one_participant(&expense).is_ok());
    assert!(at_least_one_creditor(&expense).is_ok());
    assert!(total_fixed_credit_in_range(&expense).is_ok());
    assert!(total_fixed_debt_in_range(&expense).is_ok());
    assert!(no_duplicate_custom_amounts(&expense).is_ok());
}
