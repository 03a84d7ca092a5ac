use treasurer::error::InputError;
use treasurer::listing::make_string_of_char;
use treasurer::participants::{
    normalize_participants, reject_group_amounts, resolve_aliases, resolve_groups,
};
use treasurer::registry::{
    validate_aliases_do_not_exist, validate_aliases_exist, validate_group_exists,
    validate_participant_exists, validate_participants_exist,
};
use treasurer::types::{ParsedExpense, ParsedParticipant};

fn s(v: &[&str]) -> Vec<String> {
    v.iter().map(|x| x.to_string()).collect()
}

#[test]
fn repeated_mentions_merge_and_custom_amounts_win() {
    let expense = ParsedExpense::new(
        vec![
            ParsedParticipant::new_creditor("a", None),
            ParsedParticipant::new_debtor("a", None),
            ParsedParticipant::new_debtor("b", None),
            ParsedParticipant::new_debtor("a", Some(5)),
            ParsedParticipant::new_debtor("b", None),
            ParsedParticipant::new_creditor("a", None),
        ],
        20,
        Some("lunch".to_string()),
    );
    let normalized = normalize_participants(expense);
    assert_eq!(normalized.amount, 20);
    assert_eq!(normalized.message, Some("lunch".to_string()));
    let parts: Vec<(String, bool, Option<i64>)> = normalized
        .participants
        .iter()
        .map(|p| (p.name.clone(), p.is_creditor(), p.amount))
        .collect();
    assert_eq!(
        parts,
        vec![
            ("a".to_string(), true, None),
            ("a".to_string(), false, Some(5)),
            ("b".to_string(), false, None)
        ]
    );
}

#[test]
fn groups_are_replaced_by_their_members() {
    let expense = ParsedExpense::new(
        vec![
            ParsedParticipant::new_creditor_group("home", None),
            ParsedParticipant::new_debtor("x", Some(1)),
            ParsedParticipant::new_debtor_group("work", None),
        ],
        30,
        None,
    );
    assert!(reject_group_amounts(&expense).is_ok());
    let resolved = resolve_groups(expense, vec![s(&["a", "b"]), s(&["c"])]);
    let parts: Vec<(String, bool, Option<i64>, bool)> = resolved
        .participants
        .iter()
        .map(|p| (p.name.clone(), p.is_creditor(), p.amount, p.is_group()))
        .collect();
    assert_eq!(
        parts,
        vec![
            ("a".to_string(), true, None, false),
            ("b".to_string(), true, None, false),
            ("x".to_string(), false, Some(1), false),
            ("c".to_string(), false, None, false)
        ]
    );
}

#[test]
fn groups_with_custom_amounts_are_rejected() {
    let expense = ParsedExpense::new(
        vec![
            ParsedParticipant::new_creditor("a", None),
            ParsedParticipant::new_debtor_group("g", Some(3)),
        ],
        30,
        None,
    );
    assert!(matches!(
        reject_group_amounts(&expense),
        Err(InputError::GroupWithCustomAmount)
    ));
}

#[test]
fn aliases_resolve_to_participants_but_groups_stay() {
    let expense = ParsedExpense::new(
        vec![
            ParsedParticipant::new_creditor("bobby", None),
            ParsedParticipant::new_debtor("al", Some(2)),
            ParsedParticipant::new_debtor_group("bobby", None),
            ParsedParticipant::new_debtor("carol", None),
        ],
        30,
        None,
    );
    let aliases = vec![
        ("bobby".to_string(), "bob".to_string()),
        ("al".to_string(), "alice".to_string()),
    ];
    let resolved = resolve_aliases(expense, &aliases);
    let names: Vec<&str> = resolved.participants.iter().map(|p| p.name.as_str()).collect();
    assert_eq!(names, vec!["bob", "alice", "bobby", "carol"]);
    assert_eq!(resolved.participants[1].amount, Some(2));
    assert!(resolved.participants[2].is_group());
}

#[test]
fn registered_names_pass_and_the_first_other_is_named() {
    let registered = s(&["a", "b"]);
    assert!(validate_participants_exist(&s(&["b", "a"]), &registered).is_ok());
    match validate_participants_exist(&s(&["a", "z", "y"]), &registered) {
        Err(InputError::UnregisteredParticipant(n)) => assert_eq!(n, "z"),
        other => panic!("unexpected: {:?}", other),
    }
    assert!(validate_participant_exists(&"a".to_string(), &registered).is_ok());
    assert!(matches!(
        validate_participant_exists(&"q".to_string(), &registered),
        Err(InputError::UnregisteredParticipant(n)) if n == "q"
    ));
}

#[test]
fn new_aliases_must_be_free() {
    let participants = s(&["alice", "bob"]);
    let known = vec![("al".to_string(), "alice".to_string())];
    assert!(validate_aliases_do_not_exist(&s(&["ally", "bobby"]), &participants, &known).is_ok());
    assert!(matches!(
        validate_aliases_do_not_exist(&s(&["ally", "bob"]), &participants, &known),
        Err(InputError::AliasRegisteredAsParticipant(a)) if a == "bob"
    ));
    assert!(matches!(
        validate_aliases_do_not_exist(&s(&["al"]), &participants, &known),
        Err(InputError::AliasRegisteredAsAlias(a, p)) if a == "al" && p == "alice"
    ));
}

#[test]
fn removed_aliases_must_belong_to_the_participant() {
    let own = s(&["al", "ally"]);
    let alice = "alice".to_string();
    assert!(validate_aliases_exist(&alice, &s(&["ally"]), &own).is_ok());
    assert!(matches!(
        validate_aliases_exist(&alice, &s(&["al", "bobby"]), &own),
        Err(InputError::AliasNotRegisteredAsAlias(a, p)) if a == "bobby" && p == "alice"
    ));
}

#[test]
fn groups_must_be_named_and_registered() {
    let groups = s(&["home"]);
    assert!(validate_group_exists(&"home".to_string(), &groups).is_ok());
    assert!(matches!(
        validate_group_exists(&String::new(), &groups),
        Err(InputError::GroupNotProvided)
    ));
    assert!(matches!(
        validate_group_exists(&" \t ".to_string(), &groups),
        Err(InputError::GroupNotProvided)
    ));
    assert!(matches!(
        validate_group_exists(&"work".to_string(), &groups),
        Err(InputError::UnregisteredGroup(g)) if g == "work"
    ));
}

#[test]
fn padding_repeats_the_character() {
    assert_eq!(make_string_of_char(' ', 3), "   ");
    assert_eq!(make_string_of_char('é', 2), "éé");
    assert_eq!(make_string_of_char('x', 0), "");
}
