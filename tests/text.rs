use treasurer::error::InputError;
use treasurer::listing::format_simple_list;
use treasurer::names::{
    is_valid_name, validate_alias_names, validate_group_name, validate_participant_name,
    validate_participant_names,
};
use treasurer::words::{parse_group_and_members, parse_participants, split_words};

#[test]
fn test_validate_name() {
    // Valid names.
    let name = "p1";
    assert!(is_valid_name(name));
    let name = "P2";
    assert!(is_valid_name(name));
    let name = "Abc";
    assert!(is_valid_name(name));
    let name = "abC";
    assert!(is_valid_name(name));
    let name = "c";
    assert!(is_valid_name(name));
    let name = "";
    assert!(is_valid_name(name));

    // Invalid names.
    let name = "1Abc"; // starts with number
    assert!(!is_valid_name(name));
    let name = "Ab_c"; // contains underscore
    assert!(!is_valid_name(name));
    let name = "pà1"; // contains non-ASCII
    assert!(!is_valid_name(name));
}

#[test]
fn name_checks_report_the_offending_name() {
    let names = vec!["ok".to_string(), "not ok".to_string(), "9lives".to_string()];
    match validate_participant_names(&names) {
        Err(InputError::InvalidParticipantName(n)) => assert_eq!(n, "not ok"),
        other => panic!("unexpected: {:?}", other),
    }
    match validate_alias_names(&names) {
        Err(InputError::InvalidAliasName(n)) => assert_eq!(n, "not ok"),
        other => panic!("unexpected: {:?}", other),
    }
    assert!(validate_participant_names(&names[..1]).is_ok());
    assert!(validate_alias_names(&Vec::<String>::new()).is_ok());
    match validate_participant_name("_x") {
        Err(InputError::InvalidParticipantName(n)) => assert_eq!(n, "_x"),
        other => panic!("unexpected: {:?}", other),
    }
    assert!(validate_participant_name("x1").is_ok());
    match validate_group_name("g-1") {
        Err(InputError::InvalidGroupName(n)) => assert_eq!(n, "g-1"),
        other => panic!("unexpected: {:?}", other),
    }
    assert!(validate_group_name("g1").is_ok());
}

#[test]
fn test_format_simple_list() {
    let elements = vec!["g1", "g2", "g3"];
    let result = format_simple_list(&elements);

    assert_eq!("- g1\n- g2\n- g3\n", result);
}

#[test]
fn empty_list_says_so() {
    let elements: Vec<&str> = vec![];
    assert_eq!("Nothing to show!", format_simple_list(&elements));
}

#[test]
fn mod_test_parse_participants() {
    let participants = parse_participants("p1  P2 P3 ").expect("participants");
    assert_eq!(participants, vec!["p1", "p2", "p3"]);

    let result = parse_participants("   ");
    assert!(result.is_err());
}

#[test]
fn test_parse_group_and_members() {
    let (group_name, members) = parse_group_and_members("g1 p1  P2 p3 ").expect("group");
    assert_eq!(group_name, "g1");
    assert_eq!(members, vec!["p1", "p2", "p3"]);

    let (group_name, members) = parse_group_and_members(" g1  ").expect("group");
    assert_eq!(group_name, "g1");
    assert_eq!(members, Vec::<String>::new());
}

#[test]
fn missing_names_give_their_errors() {
    assert!(matches!(
        parse_participants(""),
        Err(InputError::ParticipantsNotProvided)
    ));
    assert!(matches!(
        parse_group_and_members("    "),
        Err(InputError::GroupNotProvided)
    ));
}

#[test]
fn words_are_split_on_spaces_and_lowercased() {
    assert_eq!(split_words("  Ab  cD e "), vec!["Ab", "cD", "e"]);
    assert_eq!(split_words(""), Vec::<String>::new());
    let participants = parse_participants("ÀBC Ñu").expect("participants");
    assert_eq!(participants, vec!["àbc", "ñu"]);
}
