use treasurer::amount::do_parse_amount;
use treasurer::error::InputError;
use treasurer::expense_syntax::parse_expense;
use treasurer::types::ParticipantMode;

#[test]
fn expense_test_parse_amount() {
    assert_eq!(do_parse_amount("3.45"), Some(345));
    assert_eq!(do_parse_amount("3,45"), Some(345));
    assert_eq!(do_parse_amount("3"), Some(300));
    assert_eq!(do_parse_amount("+3"), Some(300));
    assert_eq!(do_parse_amount("-3.45"), Some(-345));
    assert_eq!(do_parse_amount("-3,45"), Some(-345));
    assert_eq!(do_parse_amount("-3"), Some(-300));
}

#[test]
fn parser_test_parse_amount() {
    assert_eq!(do_parse_amount("3.45"), Some(345));
    assert_eq!(do_parse_amount("3,45"), Some(345));
    assert_eq!(do_parse_amount("3"), Some(300));
    assert_eq!(do_parse_amount("+3"), Some(300));
    assert_eq!(do_parse_amount("-3.45"), Some(-345));
    assert_eq!(do_parse_amount("-3,45"), Some(-345));
    assert_eq!(do_parse_amount("-3"), Some(-300));
}

#[test]
fn parser_test_parse_participant_name() {
    let expense = parse_expense("abc 1").expect("expense");
    assert_eq!(expense.participants[0].name, "abc");
    let expense = parse_expense("@abc 1").expect("expense");
    assert_eq!(expense.participants[0].name, "abc");
}

#[test]
fn parser_test_parse_message() {
    let expense = parse_expense("c 1 - abc  ").expect("expense");
    assert_eq!(expense.message, Some("abc  ".to_string()));
    let expense = parse_expense("c 1 - abc  def").expect("expense");
    assert_eq!(expense.message, Some("abc  def".to_string()));
}

#[test]
fn amounts_pad_truncate_and_reject() {
    assert_eq!(do_parse_amount("3.4"), Some(340));
    assert_eq!(do_parse_amount("3.456"), Some(345));
    assert_eq!(do_parse_amount(".5"), Some(50));
    assert_eq!(do_parse_amount("1.2.3"), Some(100));
    assert_eq!(do_parse_amount("12d"), None);
    assert_eq!(do_parse_amount(""), Some(0));
    assert_eq!(do_parse_amount("-"), Some(0));
    assert_eq!(do_parse_amount("+"), Some(0));
    assert_eq!(do_parse_amount(",5"), Some(50));
    assert_eq!(do_parse_amount("-,"), Some(0));
    assert_eq!(do_parse_amount("--1"), None);
    assert_eq!(do_parse_amount("3.aa"), None);
    assert_eq!(do_parse_amount("92233720368547758.07"), Some(i64::MAX));
    assert_eq!(do_parse_amount("92233720368547758.08"), None);
    assert_eq!(do_parse_amount("-92233720368547758.08"), Some(i64::MIN));
}

#[test]
fn expense_test_parse_participant_name() {
    let expense = parse_expense("aBC 1").expect("expense");
    let participant = &expense.participants[0];
    assert_eq!(participant.name, "abc".to_string());
    assert!(participant.is_creditor());
    assert!(participant.amount.is_none());
    assert!(!participant.is_group());

    let expense = parse_expense("x 1 @Abe").expect("expense");
    let participant = &expense.participants[1];
    assert_eq!(participant.name, "abe".to_string());
    assert!(participant.is_debtor());
    assert!(participant.amount.is_none());
    assert!(!participant.is_group());

    let expense = parse_expense("x 1 #AoBC").expect("expense");
    let participant = &expense.participants[1];
    assert_eq!(participant.name, "aobc".to_string());
    assert!(participant.is_debtor());
    assert!(participant.amount.is_none());
    assert!(participant.is_group());
}

#[test]
fn names_in_expenses_must_be_ascii() {
    assert!(matches!(parse_expense("x 1 @Abë"), Err(InputError::InvalidExpenseSyntax(_))));
    assert!(matches!(parse_expense("x 1 #AóBC"), Err(InputError::InvalidExpenseSyntax(_))));
    assert!(matches!(parse_expense("pà1 1"), Err(InputError::InvalidExpenseSyntax(_))));
}

#[test]
fn expense_test_parse_participants() {
    let expense = parse_expense("c 1 Name1/2 - aa").expect("expense");
    assert_eq!(expense.participants[1].name, "name1");
    assert!(expense.participants[1].is_debtor());
    assert_eq!(expense.participants[1].amount, Some(200));
    assert_eq!(expense.message, Some("aa".to_string()));

    let expense = parse_expense(" name1  1").expect("expense");
    assert_eq!(expense.participants[0].name, "name1");
    assert!(expense.participants[0].is_creditor());
    assert_eq!(expense.participants[0].amount, None);
}

#[test]
fn parser_test_parse_participants() {
    let expense = parse_expense("c 1 name1/2 - aa").expect("expense");
    assert_eq!(expense.participants[1].name, "name1");
    assert_eq!(expense.participants[1].mode, ParticipantMode::Debtor);
    assert_eq!(expense.participants[1].amount, Some(200));
    assert_eq!(expense.message, Some("aa".to_string()));

    let expense = parse_expense(" name1  1  ").expect("expense");
    assert_eq!(expense.participants[0].name, "name1");
    assert_eq!(expense.participants[0].mode, ParticipantMode::Creditor);
    assert_eq!(expense.participants[0].amount, None);
    assert_eq!(expense.message, None);
}

#[test]
fn expense_test_parse_message() {
    let expense = parse_expense("c 1 - abc  ").expect("expense");
    assert_eq!(expense.message, Some("abc  ".to_string()));
    let expense = parse_expense("c 1 - abc  def").expect("expense");
    assert_eq!(expense.message, Some("abc  def".to_string()));
}

#[test]
fn expense_test_parse() {
    // Parse an expense with too many spaces, UTF-8 characters, custom amounts, groups and a message.
    let expense = parse_expense(
        " @creditor1 creditor2/-21.1 34.3   Debtor1 debtor2/3  @debtor3/1 #group  - yoh",
    )
    .expect("expense");

    assert_eq!(expense.participants.len(), 6);

    assert_eq!(expense.participants[0].name, "creditor1");
    assert!(expense.participants[0].is_creditor());
    assert_eq!(expense.participants[0].amount, None);

    assert_eq!(expense.participants[1].name, "creditor2");
    assert!(expense.participants[1].is_creditor());
    assert_eq!(expense.participants[1].amount, Some(-2110));

    assert_eq!(expense.participants[2].name, "debtor1");
    assert!(expense.participants[2].is_debtor());
    assert_eq!(expense.participants[2].amount, None);

    assert_eq!(expense.participants[3].name, "debtor2");
    assert!(expense.participants[3].is_debtor());
    assert_eq!(expense.participants[3].amount, Some(300));

    assert_eq!(expense.participants[4].name, "debtor3");
    assert!(expense.participants[4].is_debtor());
    assert_eq!(expense.participants[4].amount, Some(100));

    assert_eq!(expense.participants[5].name, "group");
    assert!(expense.participants[5].is_debtor());
    assert_eq!(expense.participants[5].amount, None);
    assert!(expense.participants[5].is_group());

    assert_eq!(expense.amount, 3430);
    assert_eq!(expense.message, Some("yoh".to_string()));

    // Parse an expense without a message.
    let expense = parse_expense(" creditor1 creditor2/-21.1 34.3   debtor1 debtor2/3  debtor3/1")
        .expect("expense");
    assert_eq!(expense.message, None);

    // Parse an expense on multiple lines.
    let expense = parse_expense(
        "creditor1\ncreditor2/-21.1\n34.3\ndebtor1\ndebtor2/3\ndebtor3/1 - message\non\nmany\nlines",
    )
    .expect("expense");
    assert_eq!(expense.participants.len(), 5);
    assert_eq!(expense.amount, 3430);
    assert_eq!(
        expense
            .message
            .unwrap()
            .split('\n')
            .collect::<Vec<_>>()
            .len(),
        4
    );
}

#[test]
fn parser_test_parse() {
    let expense = parse_expense(
        " @creditor1 creditor2/-21.1 34.3   debtor1 debtor2/3  @debtor3/1  - yoh",
    )
    .expect("expense");
    assert_eq!(expense.participants.len(), 5);
    assert_eq!(expense.participants[0].name, "creditor1");
    assert_eq!(expense.participants[1].amount, Some(-2110));
    assert_eq!(expense.participants[3].amount, Some(300));
    assert_eq!(expense.participants[4].name, "debtor3");
    assert_eq!(expense.participants[4].amount, Some(100));
    assert_eq!(expense.amount, 3430);
    assert_eq!(expense.message, Some("yoh".to_string()));

    let expense = parse_expense(" creditor1 creditor2/-21.1 34.3   debtor1 debtor2/3  debtor3/1")
        .expect("expense");
    assert_eq!(expense.message, None);
}

#[test]
fn test_parse_fails() {
    // All parts were read but there are characters left.
    let result = parse_expense("c1 34.3 d1 d2 123");
    assert!(matches!(result, Err(InputError::InvalidExpenseSyntax(_))));

    // Reading the amount fails.
    let result = parse_expense("c1 12d d1");
    assert!(matches!(result, Err(InputError::InvalidExpenseSyntax(_))));

    // Reading a participant amount fails.
    let result = parse_expense("c1 12 d1/3.aa");
    assert!(matches!(result, Err(InputError::InvalidExpenseSyntax(_))));
}

#[test]
fn expenses_need_an_amount() {
    assert!(parse_expense("").is_err());
    assert!(parse_expense("alice bob").is_err());
    assert!(parse_expense("alice/ 10 bob").is_err());
    let expense = parse_expense("10").expect("expense");
    assert!(expense.participants.is_empty());
    assert_eq!(expense.amount, 1000);
}
