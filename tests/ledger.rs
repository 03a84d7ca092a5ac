use treasurer::balance::{compute_debts_and_credits, SCALE};
use treasurer::settlement::{compute_exchanges, compute_settlement, round_balances, settle, settle_with_leftover};
use treasurer::types::{MoneyExchange, SavedExpense, SavedParticipant};

fn make_expenses() -> Vec<SavedExpense> {
    vec![
        SavedExpense::new(
            1,
            vec![
                SavedParticipant::new_creditor("p2", None),
                SavedParticipant::new_debtor("p1", None),
                SavedParticipant::new_debtor("a3", Some(1040)),
                SavedParticipant::new_debtor("à3", Some(200)),
            ],
            2340,
            None,
        ),
        SavedExpense::new(
            2,
            vec![
                SavedParticipant::new_creditor("ã2", None),
                SavedParticipant::new_debtor("à3", None),
                SavedParticipant::new_debtor("a3", None),
            ],
            3300,
            None,
        ),
        SavedExpense::new(
            3,
            vec![
                SavedParticipant::new_creditor("p4", None),
                SavedParticipant::new_debtor("a3", None),
            ],
            2000,
            None,
        ),
    ]
}

fn balance_of(balance: &[(String, i128)], name: &str) -> Option<i128> {
    balance.iter().find(|(n, _)| n == name).map(|(_, v)| *v)
}

fn triples(exchanges: &[MoneyExchange]) -> Vec<(String, String, i64)> {
    exchanges
        .iter()
        .map(|e| (e.debtor.clone(), e.creditor.clone(), e.amount))
        .collect()
}

#[test]
fn test_compute_credits_and_debts() {
    let expenses = make_expenses();
    let balance = compute_debts_and_credits(expenses);

    assert_eq!(balance.len(), 6);
    assert_eq!(balance_of(&balance, "a3"), Some(-3140 * SCALE));
    assert_eq!(balance_of(&balance, "à3"), Some(-1300 * SCALE));
    assert_eq!(balance_of(&balance, "p1"), Some(-550 * SCALE));
    assert_eq!(balance_of(&balance, "ã2"), Some(2200 * SCALE));
    assert_eq!(balance_of(&balance, "p2"), Some(1790 * SCALE));
    assert_eq!(balance_of(&balance, "p4"), Some(1000 * SCALE));
}

#[test]
fn test_compute_exchanges() {
    let expenses = make_expenses();
    let exchanges = compute_exchanges(expenses);
    assert_eq!(exchanges.len(), 5);

    assert_eq!(exchanges[0].debtor, "a3");
    assert_eq!(exchanges[0].creditor, "p2");
    assert_eq!(exchanges[0].amount, 1790);

    assert_eq!(exchanges[1].debtor, "a3");
    assert_eq!(exchanges[1].creditor, "p4");
    assert_eq!(exchanges[1].amount, 1000);

    assert_eq!(exchanges[2].debtor, "a3");
    assert_eq!(exchanges[2].creditor, "ã2");
    assert_eq!(exchanges[2].amount, 350);

    assert_eq!(exchanges[3].debtor, "p1");
    assert_eq!(exchanges[3].creditor, "ã2");
    assert_eq!(exchanges[3].amount, 550);

    assert_eq!(exchanges[4].debtor, "à3");
    assert_eq!(exchanges[4].creditor, "ã2");
    assert_eq!(exchanges[4].amount, 1300);
}

#[test]
fn single_expense_even_split() {
    let expense = SavedExpense::new(
        1,
        vec![
            SavedParticipant::new_creditor("a", None),
            SavedParticipant::new_debtor("a", None),
            SavedParticipant::new_debtor("b", None),
            SavedParticipant::new_debtor("c", None),
        ],
        300,
        None,
    );
    let balance = compute_debts_and_credits(vec![expense.clone()]);
    assert_eq!(balance.len(), 3);
    assert_eq!(balance_of(&balance, "a"), Some(200 * SCALE));
    assert_eq!(balance_of(&balance, "b"), Some(-100 * SCALE));
    assert_eq!(balance_of(&balance, "c"), Some(-100 * SCALE));

    let exchanges = compute_exchanges(vec![expense]);
    assert_eq!(
        triples(&exchanges),
        vec![
            ("b".to_string(), "a".to_string(), 100),
            ("c".to_string(), "a".to_string(), 100)
        ]
    );
}

#[test]
fn fixed_and_even_shares_mixed() {
    let expense = SavedExpense::new(
        1,
        vec![
            SavedParticipant::new_creditor("p2", None),
            SavedParticipant::new_debtor("p1", None),
            SavedParticipant::new_debtor("a3", Some(1040)),
            SavedParticipant::new_debtor("à3", Some(200)),
        ],
        2340,
        None,
    );
    let balance = compute_debts_and_credits(vec![expense]);
    assert_eq!(balance.len(), 4);
    assert_eq!(balance_of(&balance, "a3"), Some(-1040 * SCALE));
    assert_eq!(balance_of(&balance, "à3"), Some(-200 * SCALE));
    assert_eq!(balance_of(&balance, "p1"), Some(-550 * SCALE));
    assert_eq!(balance_of(&balance, "p2"), Some(1790 * SCALE));
}

#[test]
fn no_expenses_settle_to_nothing() {
    let balance = compute_debts_and_credits(vec![]);
    assert!(balance.is_empty());
    assert!(round_balances(&balance).is_empty());
    assert!(compute_exchanges(vec![]).is_empty());
}

#[test]
fn split_remainder_keeps_balances_at_zero() {
    let expense = SavedExpense::new(
        7,
        vec![
            SavedParticipant::new_creditor("a", None),
            SavedParticipant::new_debtor("b", None),
            SavedParticipant::new_debtor("c", None),
        ],
        100,
        None,
    );
    let balance = compute_debts_and_credits(vec![expense.clone()]);
    assert_eq!(balance_of(&balance, "a"), Some(100 * SCALE - 33_333_334));
    assert_eq!(balance_of(&balance, "b"), Some(-33_333_333));
    assert_eq!(balance_of(&balance, "c"), Some(-33_333_333));
    let sum: i128 = balance.iter().map(|(_, v)| *v).sum();
    assert_eq!(sum, 0);

    let rounded = round_balances(&balance);
    assert_eq!(
        rounded,
        vec![
            ("a".to_string(), 67),
            ("b".to_string(), -33),
            ("c".to_string(), -33)
        ]
    );

    // Balances are matched unrounded: the second debtor settles what is
    // left exactly, and each payment is rounded as it is emitted.
    let exchanges = compute_exchanges(vec![expense]);
    assert_eq!(
        triples(&exchanges),
        vec![
            ("b".to_string(), "a".to_string(), 33),
            ("c".to_string(), "a".to_string(), 33)
        ]
    );
}

#[test]
fn balances_sum_to_zero_over_many_expenses() {
    let mut expenses = vec![];
    for i in 0..10 {
        expenses.push(SavedExpense::new(
            i,
            vec![
                SavedParticipant::new_creditor("x", None),
                SavedParticipant::new_creditor("y", Some(1)),
                SavedParticipant::new_debtor("z", Some(2)),
                SavedParticipant::new_debtor("w", None),
                SavedParticipant::new_debtor("v", None),
            ],
            101 + i,
            None,
        ));
    }
    let balance = compute_debts_and_credits(expenses);
    let sum: i128 = balance.iter().map(|(_, v)| *v).sum();
    assert_eq!(sum, 0);
}

#[test]
fn balances_keep_order_of_first_mention() {
    let expense = SavedExpense::new(
        1,
        vec![
            SavedParticipant::new_debtor("m", Some(10)),
            SavedParticipant::new_creditor("k", None),
            SavedParticipant::new_debtor("b", None),
        ],
        30,
        None,
    );
    let balance = compute_debts_and_credits(vec![expense]);
    let names: Vec<&str> = balance.iter().map(|(n, _)| n.as_str()).collect();
    assert_eq!(names, vec!["m", "k", "b"]);
    assert_eq!(balance_of(&balance, "k"), Some(20 * SCALE));
    assert_eq!(balance_of(&balance, "b"), Some(-10 * SCALE));
}

#[test]
fn rounding_goes_to_nearest_unit_halves_away_from_zero() {
    let balance = vec![
        ("a".to_string(), 2 * SCALE + SCALE / 2),
        ("b".to_string(), -(2 * SCALE + SCALE / 2)),
        ("c".to_string(), SCALE / 2 - 1),
        ("d".to_string(), -(SCALE / 2 - 1)),
    ];
    assert_eq!(
        round_balances(&balance),
        vec![
            ("a".to_string(), 3),
            ("b".to_string(), -3),
            ("c".to_string(), 0),
            ("d".to_string(), 0)
        ]
    );
}

#[test]
fn settled_balances_take_no_part() {
    let balances = vec![
        ("a".to_string(), 1 * SCALE),
        ("b".to_string(), -1 * SCALE),
        ("c".to_string(), 5 * SCALE),
        ("d".to_string(), -5 * SCALE),
        ("e".to_string(), 0 * SCALE),
    ];
    let exchanges = settle(&balances);
    assert_eq!(triples(&exchanges), vec![("d".to_string(), "c".to_string(), 5)]);
}

#[test]
fn settlement_ignores_listing_order() {
    let one = vec![
        ("c".to_string(), 700 * SCALE),
        ("a".to_string(), -300 * SCALE),
        ("b".to_string(), -400 * SCALE),
    ];
    let two = vec![
        ("b".to_string(), -400 * SCALE),
        ("c".to_string(), 700 * SCALE),
        ("a".to_string(), -300 * SCALE),
    ];
    let first = triples(&settle(&one));
    assert_eq!(first, triples(&settle(&two)));
    assert_eq!(first, triples(&settle(&one)));
    assert_eq!(
        first,
        vec![
            ("a".to_string(), "c".to_string(), 300),
            ("b".to_string(), "c".to_string(), 400)
        ]
    );
}

#[test]
fn smaller_side_settles_and_the_other_keeps_the_rest() {
    let balances = vec![
        ("d1".to_string(), -500 * SCALE),
        ("d2".to_string(), -100 * SCALE),
        ("c1".to_string(), 200 * SCALE),
        ("c2".to_string(), 400 * SCALE),
    ];
    let exchanges = settle(&balances);
    assert_eq!(
        triples(&exchanges),
        vec![
            ("d1".to_string(), "c1".to_string(), 200),
            ("d1".to_string(), "c2".to_string(), 300),
            ("d2".to_string(), "c2".to_string(), 100)
        ]
    );
    for e in &exchanges {
        assert_ne!(e.debtor, e.creditor);
    }
}

#[test]
fn leftover_debtors_get_no_made_up_payment() {
    let balances = vec![("d".to_string(), -500 * SCALE), ("c".to_string(), 200 * SCALE)];
    let exchanges = settle(&balances);
    assert_eq!(triples(&exchanges), vec![("d".to_string(), "c".to_string(), 200)]);
}

#[test]
fn money_exchange_keeps_its_fields() {
    let e = MoneyExchange::new("aa", "bb", 3400);
    assert_eq!(e.debtor, "aa");
    assert_eq!(e.creditor, "bb");
    assert_eq!(e.amount, 3400);
}

#[test]
fn each_debtor_pays_its_debt_and_each_creditor_receives_its_credit() {
    let balances = vec![
        ("a".to_string(), -700 * SCALE),
        ("b".to_string(), -301 * SCALE),
        ("c".to_string(), 450 * SCALE),
        ("d".to_string(), 250 * SCALE),
        ("e".to_string(), 300 * SCALE),
    ];
    let plan = settle_with_leftover(&balances);
    assert!(plan.unsettled_debtors.is_empty());
    assert!(plan.unsettled_creditors.is_empty());
    for (name, scaled) in &balances {
        let balance = (*scaled / SCALE) as i64;
        let balance = &balance;
        let paid: i64 = plan.exchanges.iter().filter(|e| &e.debtor == name).map(|e| e.amount).sum();
        let received: i64 = plan
            .exchanges
            .iter()
            .filter(|e| &e.creditor == name)
            .map(|e| e.amount)
            .sum();
        if *balance < 0 {
            assert!((paid + balance).abs() <= 1);
            assert_eq!(received, 0);
        } else {
            assert!((received - balance).abs() <= 1);
            assert_eq!(paid, 0);
        }
    }
}

#[test]
fn unsettled_parties_are_reported() {
    let balances = vec![("d".to_string(), -500 * SCALE), ("c".to_string(), 200 * SCALE), ("x".to_string(), -40 * SCALE)];
    let plan = settle_with_leftover(&balances);
    assert_eq!(triples(&plan.exchanges), vec![("d".to_string(), "c".to_string(), 200)]);
    assert_eq!(
        plan.unsettled_debtors,
        vec![("d".to_string(), -300 * SCALE), ("x".to_string(), -40 * SCALE)]
    );
    assert!(plan.unsettled_creditors.is_empty());

    let plan = settle_with_leftover(&vec![("c".to_string(), 90 * SCALE)]);
    assert!(plan.exchanges.is_empty());
    assert_eq!(plan.unsettled_creditors, vec![("c".to_string(), 90 * SCALE)]);
}

#[test]
fn settlement_of_expenses_reports_nothing_left_when_balanced() {
    let plan = compute_settlement(make_expenses());
    assert_eq!(plan.exchanges.len(), 5);
    assert!(plan.unsettled_debtors.is_empty());
    assert!(plan.unsettled_creditors.is_empty());
}

#[test]
fn large_amounts_keep_their_precision() {
    let expense = SavedExpense::new(
        1,
        vec![
            SavedParticipant::new_creditor("a", None),
            SavedParticipant::new_debtor("b", None),
            SavedParticipant::new_debtor("c", None),
        ],
        1_000_000_000_000_000,
        None,
    );
    let exchanges = compute_exchanges(vec![expense]);
    assert_eq!(
        triples(&exchanges),
        vec![
            ("b".to_string(), "a".to_string(), 333_333_333_333_333),
            ("c".to_string(), "a".to_string(), 333_333_333_333_333)
        ]
    );
}

#[test]
fn fractional_balances_are_settled_before_rounding() {
    // 4 paid by c and split three ways: x and y owe 1.33 each, which is
    // more than one unit, so both pay; each payment is rounded when emitted.
    let expense = SavedExpense::new(
        1,
        vec![
            SavedParticipant::new_creditor("c", None),
            SavedParticipant::new_debtor("c", None),
            SavedParticipant::new_debtor("x", None),
            SavedParticipant::new_debtor("y", None),
        ],
        4,
        None,
    );
    let balance = compute_debts_and_credits(vec![expense.clone()]);
    assert_eq!(balance_of(&balance, "x"), Some(-1_333_333));
    assert_eq!(balance_of(&balance, "y"), Some(-1_333_333));
    assert_eq!(balance_of(&balance, "c"), Some(2_666_666));
    let exchanges = compute_exchanges(vec![expense]);
    assert_eq!(
        triples(&exchanges),
        vec![
            ("x".to_string(), "c".to_string(), 1),
            ("y".to_string(), "c".to_string(), 1)
        ]
    );
}

#[test]
fn balances_within_one_unit_of_zero_are_settled() {
    let balances = vec![
        ("a".to_string(), -SCALE),
        ("b".to_string(), SCALE),
        ("c".to_string(), -SCALE - 1),
        ("d".to_string(), SCALE + 1),
    ];
    assert_eq!(triples(&settle(&balances)), vec![("c".to_string(), "d".to_string(), 1)]);
}

#[test]
fn even_balances_that_net_to_zero_settle_exactly() {
    let balances = vec![
        ("a".to_string(), -700 * SCALE),
        ("b".to_string(), -300 * SCALE),
        ("c".to_string(), 450 * SCALE),
        ("d".to_string(), 250 * SCALE),
        ("e".to_string(), 300 * SCALE),
        ("f".to_string(), 0),
    ];
    let plan = settle_with_leftover(&balances);
    assert!(plan.unsettled_debtors.is_empty());
    assert!(plan.unsettled_creditors.is_empty());
    for (name, scaled) in &balances {
        let balance = (*scaled / SCALE) as i64;
        let paid: i64 = plan.exchanges.iter().filter(|e| &e.debtor == name).map(|e| e.amount).sum();
        let received: i64 = plan
            .exchanges
            .iter()
            .filter(|e| &e.creditor == name)
            .map(|e| e.amount)
            .sum();
        assert_eq!(received - paid, balance);
    }
}
