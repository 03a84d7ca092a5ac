use treasurer::paging::list_page;
use treasurer::records::{parse_active_expenses_query, ActiveExpenseQuery};
use treasurer::types::SavedExpense;

fn rows() -> Vec<ActiveExpenseQuery> {
    vec![
        ActiveExpenseQuery {
            id: 1,
            e_amount: 300,
            e_message: None,
            p_name: "name1".to_string(),
            p_is_creditor: true,
            p_amount: None,
        },
        ActiveExpenseQuery {
            id: 1,
            e_amount: 300,
            e_message: None,
            p_name: "name2".to_string(),
            p_is_creditor: false,
            p_amount: None,
        },
        ActiveExpenseQuery {
            id: 1,
            e_amount: 300,
            e_message: None,
            p_name: "name3".to_string(),
            p_is_creditor: false,
            p_amount: Some(100),
        },
        ActiveExpenseQuery {
            id: 2,
            e_amount: 5400,
            e_message: None,
            p_name: "name1".to_string(),
            p_is_creditor: true,
            p_amount: None,
        },
        ActiveExpenseQuery {
            id: 2,
            e_amount: 5400,
            e_message: None,
            p_name: "name2".to_string(),
            p_is_creditor: false,
            p_amount: None,
        },
    ]
}

fn find(expenses: &[SavedExpense], id: i64) -> &SavedExpense {
    expenses.iter().find(|e| e.id == id).expect("expense present")
}

#[test]
fn mod_test_conversion() {
    let expenses = rows();
    let result = parse_active_expenses_query(expenses);
    println!("{:?}", result);
    assert_eq!(result.len(), 2);
}

#[test]
fn sqlite_test_conversion() {
    let result = parse_active_expenses_query(rows());
    println!("{:?}", result);

    let first = find(&result, 1);
    assert_eq!(first.amount, 300);
    assert_eq!(first.participants.len(), 3);
    assert_eq!(first.participants[0].name, "name1");
    assert!(first.participants[0].is_creditor());
    assert_eq!(first.participants[2].name, "name3");
    assert!(first.participants[2].is_debtor());
    assert_eq!(first.participants[2].amount, Some(100));

    let second = find(&result, 2);
    assert_eq!(second.amount, 5400);
    assert_eq!(second.participants.len(), 2);
}

#[test]
fn rows_are_grouped_in_order_of_first_appearance() {
    let mut all = rows();
    let late = ActiveExpenseQuery {
        id: 1,
        e_amount: 300,
        e_message: None,
        p_name: "name4".to_string(),
        p_is_creditor: false,
        p_amount: None,
    };
    all.push(late);
    let result = parse_active_expenses_query(all);
    let ids: Vec<i64> = result.iter().map(|e| e.id).collect();
    assert_eq!(ids, vec![1, 2]);
    assert_eq!(result[0].participants.len(), 4);
    assert_eq!(result[0].participants[3].name, "name4");
    assert!(parse_active_expenses_query(vec![]).is_empty());
}

#[test]
fn message_comes_from_the_first_row() {
    let rows = vec![ActiveExpenseQuery {
        id: 9,
        e_amount: 10,
        e_message: Some("pizza".to_string()),
        p_name: "x".to_string(),
        p_is_creditor: true,
        p_amount: Some(10),
    }];
    let result = parse_active_expenses_query(rows);
    assert_eq!(result[0].message, Some("pizza".to_string()));
    assert_eq!(result[0].participants[0].amount, Some(10));
}

#[test]
fn pages_link_to_their_neighbours() {
    let expenses: Vec<SavedExpense> = (0..25).map(|i| SavedExpense::new(i, vec![], 1, None)).collect();

    let (page, links) = list_page(expenses.clone(), 0, 10);
    assert_eq!(page.iter().map(|e| e.id).collect::<Vec<_>>(), (0..10).collect::<Vec<_>>());
    assert_eq!(links.previous, None);
    assert_eq!(links.next, Some(10));

    let (page, links) = list_page(expenses.clone(), 5, 10);
    assert_eq!(page.first().map(|e| e.id), Some(5));
    assert_eq!(links.previous, Some(0));
    assert_eq!(links.next, Some(15));

    let (page, links) = list_page(expenses.clone(), 20, 10);
    assert_eq!(page.len(), 5);
    assert_eq!(links.previous, Some(10));
    assert_eq!(links.next, None);

    let (page, links) = list_page(expenses, 40, 10);
    assert!(page.is_empty());
    assert_eq!(links.previous, Some(30));
    assert_eq!(links.next, None);
}
