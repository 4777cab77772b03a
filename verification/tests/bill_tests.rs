//! Bill computation, payout suggestion, and settlement.

use fishsticks::bill::{generate_bill, settle_plan, suggest_rows, Error};
use fishsticks::rational::Rational;
use fishsticks::state::State;

fn order_for_two() -> State {
    let mut s = State::new();
    let rid = s.create_restaurant("Corner Grill").unwrap();
    let mid = s
        .ingest_menu(
            rid,
            &vec![
                (1, "Burger".to_string(), 500),
                (2, "Fries".to_string(), 200),
            ],
            1000,
        )
        .unwrap();
    s.create_order(mid, 10).unwrap();
    let oid = s.current_open_order().unwrap().id;
    s.set_overhead(oid, 100).unwrap();
    let menu = s.menu(mid);
    s.add_order_item(oid, "alice", menu[0].id).unwrap();
    s.add_order_item(oid, "bob", menu[1].id).unwrap();
    s
}

#[test]
fn bill_end_to_end() {
    let mut s = order_for_two();
    s.set_association("alice", "acct-a").unwrap();
    s.set_association("bob", "acct-b").unwrap();
    let bill = generate_bill(&s).unwrap();
    // burger 5.00 + half the 1.00 overhead; fries 2.00 + the other half
    assert_eq!(bill.len(), 2);
    assert_eq!(bill[0].0, "acct-a");
    assert_eq!(bill[0].1, Rational::from_cents(550));
    assert_eq!(bill[1].0, "acct-b");
    assert_eq!(bill[1].1, Rational::from_cents(250));
}

#[test]
fn bill_sums_to_prices_plus_overhead() {
    let mut s = order_for_two();
    s.set_association("alice", "acct-a").unwrap();
    s.set_association("bob", "acct-b").unwrap();
    // share one account: the two debits fold into one entry
    s.set_association("bob", "acct-a").unwrap();
    let bill = generate_bill(&s).unwrap();
    assert_eq!(bill.len(), 1);
    assert_eq!(bill[0].1, Rational::from_cents(800));
    // odd split: three persons, overhead 1.00 -> thirds, still exact
    let oid = s.current_open_order().unwrap().id;
    let menu_item = {
        let open = s.current_open_order().unwrap();
        s.menu(open.menu)[0].id
    };
    s.add_order_item(oid, "carol", menu_item).unwrap();
    s.set_association("carol", "acct-c").unwrap();
    let bill = generate_bill(&s).unwrap();
    let mut total = Rational::zero();
    for (_, v) in &bill {
        total = total.add(v).unwrap();
    }
    assert_eq!(total, Rational::from_cents(500 + 200 + 500 + 100));
}

#[test]
fn empty_order_is_a_division_error() {
    let mut s = State::new();
    let rid = s.create_restaurant("R").unwrap();
    let mid = s.ingest_menu(rid, &vec![(1, "X".to_string(), 100)], 1).unwrap();
    s.create_order(mid, 10).unwrap();
    let oid = s.current_open_order().unwrap().id;
    s.set_overhead(oid, 500).unwrap();
    assert!(matches!(generate_bill(&s), Err(Error::DivisionByZero)));
}

#[test]
fn missing_association_fails_whole_bill() {
    let mut s = order_for_two();
    s.set_association("alice", "acct-a").unwrap();
    match generate_bill(&s) {
        Err(Error::MissingAssociation(p)) => assert_eq!(p, "bob"),
        other => panic!("expected MissingAssociation, got {:?}", other),
    }
}

#[test]
fn no_open_order_is_reported() {
    let s = State::new();
    assert!(matches!(
        generate_bill(&s),
        Err(Error::StateError(fishsticks::state::Error::NoOpenOrder))
    ));
}

#[test]
fn suggest_ranks_the_poorest() {
    let debits = vec![
        ("a".to_string(), Rational::from_cents(550)),
        ("b".to_string(), Rational::from_cents(250)),
    ];
    let balances = vec![
        ("a".to_string(), Rational::from_cents(1000)),
        ("b".to_string(), Rational::from_cents(300)),
        ("c".to_string(), Rational::from_cents(700)),
    ];
    let rows = suggest_rows(&debits, &balances).unwrap();
    assert_eq!(rows.len(), 2);
    assert_eq!(rows[0].0, "b");
    assert_eq!(rows[0].1, Rational::from_cents(300));
    assert_eq!(rows[0].2, Rational::from_cents(50));
    assert_eq!(rows[1].0, "a");
    assert_eq!(rows[1].1, Rational::from_cents(1000));
    assert_eq!(rows[1].2, Rational::from_cents(450));
}

#[test]
fn suggest_keeps_three() {
    let debits = vec![
        ("a".to_string(), Rational::from_cents(100)),
        ("b".to_string(), Rational::from_cents(100)),
        ("c".to_string(), Rational::from_cents(100)),
        ("d".to_string(), Rational::from_cents(100)),
    ];
    let balances = vec![
        ("a".to_string(), Rational::from_cents(400)),
        ("b".to_string(), Rational::from_cents(300)),
        ("c".to_string(), Rational::from_cents(200)),
        ("d".to_string(), Rational::from_cents(100)),
    ];
    let rows = suggest_rows(&debits, &balances).unwrap();
    assert_eq!(rows.len(), 3);
    assert_eq!(rows[0].0, "d");
    assert_eq!(rows[1].0, "c");
    assert_eq!(rows[2].0, "b");
}

#[test]
fn settlement_is_balanced() {
    let mut s = order_for_two();
    s.set_association("alice", "acct-a").unwrap();
    s.set_association("bob", "acct-b").unwrap();
    let plan = settle_plan(&s, "", "alice").unwrap();
    assert_eq!(plan.description, "Corner Grill");
    assert_eq!(plan.credits.len(), 1);
    assert_eq!(plan.credits[0].0, "acct-a");
    assert_eq!(plan.credits[0].1, Rational::from_cents(800));
    // explicit credit account wins
    let plan = settle_plan(&s, "acct-x", "alice").unwrap();
    assert_eq!(plan.credits[0].0, "acct-x");
    // a user without an association cannot settle implicitly
    match settle_plan(&s, "", "mallory") {
        Err(Error::MissingAssociation(p)) => assert_eq!(p, "mallory"),
        other => panic!("expected MissingAssociation, got {:?}", other),
    }
}
