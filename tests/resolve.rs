use receipts::{find_person, resolve, BalanceTable, Item, Person, Receipt, Receipts, ResolveError};

fn persons(names: &[&str]) -> Vec<Person> {
    names.iter().map(|n| Person { name: n.to_string() }).collect()
}

fn item(cost: u64, shared_by: &[&str]) -> Item {
    Item {
        name: "item".to_string(),
        cost,
        shared_by: shared_by.iter().map(|n| n.to_string()).collect(),
    }
}

fn receipt(paid_by: &str, items: Vec<Item>) -> Receipt {
    Receipt { name: "receipt".to_string(), paid_by: paid_by.to_string(), items }
}

fn owed(table: &BalanceTable, debtor: usize, creditor: usize) -> Option<f64> {
    table.rows[debtor][creditor].map(|v| v as f64 / table.denominator as f64)
}

#[test]
fn single_person_no_receipts() {
    let db = Receipts { persons: persons(&["Alice"]), receipts: vec![] };
    let table = resolve(&db).unwrap();
    assert_eq!(table.names, vec!["Alice".to_string()]);
    assert_eq!(table.denominator, 1);
    assert_eq!(table.rows, vec![vec![None]]);
}

#[test]
fn empty_shared_by_means_everyone() {
    let db = Receipts {
        persons: persons(&["Alice", "Bob"]),
        receipts: vec![receipt("Alice", vec![item(10, &[])])],
    };
    let table = resolve(&db).unwrap();
    assert_eq!(owed(&table, 1, 0), Some(5.0));
    assert_eq!(table.rows[0], vec![None, None]);
    assert_eq!(table.denominator, 2);
    assert_eq!(table.rows[1][0], Some(10));
}

#[test]
fn explicit_sharers_same_as_everyone() {
    let db = Receipts {
        persons: persons(&["Alice", "Bob"]),
        receipts: vec![receipt("Alice", vec![item(10, &["Alice", "Bob"])])],
    };
    let table = resolve(&db).unwrap();
    assert_eq!(owed(&table, 1, 0), Some(5.0));
    assert_eq!(table.rows[0], vec![None, None]);
}

#[test]
fn three_way_split() {
    let db = Receipts {
        persons: persons(&["Alice", "Bob", "Carol"]),
        receipts: vec![receipt("Bob", vec![item(9, &["Alice", "Bob", "Carol"])])],
    };
    let table = resolve(&db).unwrap();
    assert_eq!(owed(&table, 0, 1), Some(3.0));
    assert_eq!(owed(&table, 2, 1), Some(3.0));
    assert_eq!(table.rows[1], vec![None, None, None]);
    assert_eq!(owed(&table, 0, 2), None);
    assert_eq!(owed(&table, 2, 0), None);
}

#[test]
fn zero_cost_item() {
    let db = Receipts {
        persons: persons(&["Alice", "Bob", "Carol"]),
        receipts: vec![receipt("Alice", vec![item(0, &["Bob", "Carol"])])],
    };
    let table = resolve(&db).unwrap();
    for row in &table.rows {
        for entry in row {
            assert!(entry.unwrap_or(0) == 0);
        }
    }
    assert_eq!(table.rows[1][0], Some(0));
}

#[test]
fn receipt_without_items() {
    let db = Receipts {
        persons: persons(&["Alice", "Bob"]),
        receipts: vec![receipt("Alice", vec![])],
    };
    let table = resolve(&db).unwrap();
    assert_eq!(table.rows, vec![vec![None, None], vec![None, None]]);
}

#[test]
fn duplicate_listing_doubles_share() {
    let db = Receipts {
        persons: persons(&["Alice", "Bob", "Carol"]),
        receipts: vec![receipt("Alice", vec![item(12, &["Bob", "Bob", "Carol"])])],
    };
    let table = resolve(&db).unwrap();
    assert_eq!(table.denominator, 3);
    assert_eq!(table.rows[1][0], Some(24));
    assert_eq!(table.rows[2][0], Some(12));
    assert_eq!(owed(&table, 1, 0), Some(8.0));
    assert_eq!(owed(&table, 2, 0), Some(4.0));
}

#[test]
fn shares_sum_back_to_cost() {
    let db = Receipts {
        persons: persons(&["Alice", "Bob", "Carol", "Dave"]),
        receipts: vec![receipt("Carol", vec![item(7, &["Alice", "Bob", "Carol"])])],
    };
    let table = resolve(&db).unwrap();
    let d = table.denominator;
    let to_carol: u64 = table.rows.iter().map(|row| row[2].unwrap_or(0)).sum();
    let own_share = 7 * (d / 3);
    assert_eq!(to_carol + own_share, 7 * d);
}

#[test]
fn nobody_owes_themselves() {
    let db = Receipts {
        persons: persons(&["Alice", "Bob"]),
        receipts: vec![
            receipt("Alice", vec![item(10, &["Alice", "Alice", "Bob"])]),
            receipt("Bob", vec![item(4, &[])]),
        ],
    };
    let table = resolve(&db).unwrap();
    assert_eq!(table.rows[0][0], None);
    assert_eq!(table.rows[1][1], None);
    assert_eq!(owed(&table, 1, 0), Some(10.0 / 3.0));
    assert_eq!(owed(&table, 0, 1), Some(2.0));
}

#[test]
fn every_person_has_a_row() {
    let db = Receipts {
        persons: persons(&["Alice", "Bob", "Carol"]),
        receipts: vec![receipt("Alice", vec![item(10, &["Bob"])])],
    };
    let table = resolve(&db).unwrap();
    assert_eq!(table.names, vec!["Alice".to_string(), "Bob".to_string(), "Carol".to_string()]);
    assert_eq!(table.rows.len(), 3);
    assert!(table.rows.iter().all(|row| row.len() == 3));
    assert_eq!(table.rows[2], vec![None, None, None]);
}

#[test]
fn resolving_twice_gives_same_table() {
    let db = Receipts {
        persons: persons(&["Alice", "Bob", "Carol"]),
        receipts: vec![
            receipt("Alice", vec![item(10, &[]), item(5, &["Bob", "Carol"])]),
            receipt("Carol", vec![item(3, &["Alice"])]),
        ],
    };
    let first = resolve(&db).unwrap();
    let second = resolve(&db).unwrap();
    assert_eq!(first.names, second.names);
    assert_eq!(first.denominator, second.denominator);
    assert_eq!(first.rows, second.rows);
}

#[test]
fn mixed_splits_share_a_denominator() {
    let db = Receipts {
        persons: persons(&["Alice", "Bob", "Carol"]),
        receipts: vec![
            receipt("Alice", vec![item(10, &["Alice", "Bob"])]),
            receipt("Alice", vec![item(9, &[])]),
        ],
    };
    let table = resolve(&db).unwrap();
    assert_eq!(table.denominator, 6);
    // Bob: 10/2 + 9/3 = 8, that is 48 sixths; Carol: 9/3 = 3, that is 18 sixths.
    assert_eq!(table.rows[1][0], Some(48));
    assert_eq!(table.rows[2][0], Some(18));
}

#[test]
fn accumulates_over_receipts() {
    let db = Receipts {
        persons: persons(&["Alice", "Bob"]),
        receipts: vec![
            receipt("Alice", vec![item(10, &[])]),
            receipt("Alice", vec![item(4, &["Bob"])]),
        ],
    };
    let table = resolve(&db).unwrap();
    assert_eq!(owed(&table, 1, 0), Some(9.0));
}

#[test]
fn unknown_payer_is_an_error() {
    let db = Receipts {
        persons: persons(&["Alice", "Bob"]),
        receipts: vec![receipt("Mallory", vec![item(10, &["Alice"])])],
    };
    assert_eq!(resolve(&db).err(), Some(ResolveError::UnknownPerson));
}

#[test]
fn unknown_sharer_is_an_error() {
    let db = Receipts {
        persons: persons(&["Alice", "Bob"]),
        receipts: vec![receipt("Alice", vec![item(10, &["Bob", "Eve"])])],
    };
    assert_eq!(resolve(&db).err(), Some(ResolveError::UnknownPerson));
}

#[test]
fn no_persons_with_a_receipt_is_an_error() {
    let db = Receipts { persons: vec![], receipts: vec![receipt("Alice", vec![item(10, &[])])] };
    assert_eq!(resolve(&db).err(), Some(ResolveError::UnknownPerson));
}

#[test]
fn no_persons_no_receipts() {
    let db = Receipts { persons: vec![], receipts: vec![] };
    let table = resolve(&db).unwrap();
    assert!(table.names.is_empty());
    assert!(table.rows.is_empty());
}

#[test]
fn duplicate_person_is_an_error() {
    let db = Receipts { persons: persons(&["Alice", "Bob", "Alice"]), receipts: vec![] };
    assert_eq!(resolve(&db).err(), Some(ResolveError::DuplicatePerson));
}

#[test]
fn duplicate_person_comes_before_unknown_reference() {
    let db = Receipts {
        persons: persons(&["Alice", "Alice"]),
        receipts: vec![receipt("Eve", vec![])],
    };
    assert_eq!(resolve(&db).err(), Some(ResolveError::DuplicatePerson));
}

#[test]
fn too_large_amount_is_an_overflow() {
    let db = Receipts {
        persons: persons(&["Alice", "Bob"]),
        receipts: vec![receipt("Alice", vec![item(u64::MAX, &["Alice", "Bob"])])],
    };
    assert_eq!(resolve(&db).err(), Some(ResolveError::Overflow));
}

#[test]
fn total_cost_overflow() {
    let db = Receipts {
        persons: persons(&["Alice", "Bob"]),
        receipts: vec![receipt("Alice", vec![item(u64::MAX, &["Bob"]), item(1, &["Bob"])])],
    };
    assert_eq!(resolve(&db).err(), Some(ResolveError::Overflow));
}

#[test]
fn largest_amount_that_fits() {
    let db = Receipts {
        persons: persons(&["Alice", "Bob"]),
        receipts: vec![receipt("Alice", vec![item(u64::MAX, &["Bob"])])],
    };
    let table = resolve(&db).unwrap();
    assert_eq!(table.rows[1][0], Some(u64::MAX));
}

#[test]
fn find_person_by_name() {
    let people = persons(&["Alice", "Bob"]);
    assert_eq!(find_person(&people, &"Bob".to_string()), Some(1));
    assert_eq!(find_person(&people, &"Eve".to_string()), None);
}
