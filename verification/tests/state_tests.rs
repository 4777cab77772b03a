//! Order lifecycle, catalog, and associations.

use fishsticks::models::RestaurantId;
use fishsticks::state::{Error, State};

fn state_with_menu() -> (State, fishsticks::models::MenuId) {
    let mut s = State::new();
    let rid = s.create_restaurant("Pizzeria Luigi").unwrap();
    let mid = s
        .ingest_menu(
            rid,
            &vec![
                (1, "Burger".to_string(), 500),
                (2, "Fries".to_string(), 200),
            ],
            1000,
        )
        .unwrap();
    (s, mid)
}

#[test]
fn open_order_is_single() {
    let (mut s, mid) = state_with_menu();
    assert!(s.current_open_order().is_none());
    assert_eq!(s.close_current_order(5), Err(Error::NoOpenOrder));
    s.create_order(mid, 10).unwrap();
    let open = s.current_open_order().unwrap();
    assert_eq!(open.menu, mid);
    assert_eq!(open.overhead_in_cents, 0);
    assert_eq!(open.opened, 10);
    // a second open order is refused, naming the existing one
    match s.create_order(mid, 11) {
        Err(Error::OrderAlreadyOpen(o)) => assert_eq!(o.id, open.id),
        other => panic!("expected OrderAlreadyOpen, got {:?}", other),
    }
    s.close_current_order(20).unwrap();
    assert!(s.current_open_order().is_none());
    assert_eq!(s.close_current_order(21), Err(Error::NoOpenOrder));
    // and a new order may open afterwards
    s.create_order(mid, 30).unwrap();
    assert!(s.current_open_order().is_some());
}

#[test]
fn overhead_is_overwritten() {
    let (mut s, mid) = state_with_menu();
    s.create_order(mid, 10).unwrap();
    let oid = s.current_open_order().unwrap().id;
    s.set_overhead(oid, 250).unwrap();
    assert_eq!(s.current_open_order().unwrap().overhead_in_cents, 250);
    s.set_overhead(oid, 100).unwrap();
    assert_eq!(s.current_open_order().unwrap().overhead_in_cents, 100);
}

#[test]
fn items_join_and_sort_by_person_then_item() {
    let (mut s, mid) = state_with_menu();
    s.create_order(mid, 10).unwrap();
    let oid = s.current_open_order().unwrap().id;
    let menu = s.menu(mid);
    let burger = menu[0].id;
    let fries = menu[1].id;
    s.add_order_item(oid, "zoe", fries).unwrap();
    s.add_order_item(oid, "alice", fries).unwrap();
    s.add_order_item(oid, "alice", burger).unwrap();
    s.add_order_item(oid, "alice", burger).unwrap();
    let items = s.items_in_order(oid).unwrap();
    let names: Vec<(String, String)> = items
        .iter()
        .map(|(m, o)| (o.person_name.clone(), m.name.clone()))
        .collect();
    assert_eq!(
        names,
        vec![
            ("alice".to_string(), "Burger".to_string()),
            ("alice".to_string(), "Burger".to_string()),
            ("alice".to_string(), "Fries".to_string()),
            ("zoe".to_string(), "Fries".to_string()),
        ]
    );
    // clearing one person removes exactly that person's lines
    s.clear_orders_for_person(oid, "alice").unwrap();
    let rest = s.items_in_order(oid).unwrap();
    assert_eq!(rest.len(), 1);
    assert_eq!(rest[0].1.person_name, "zoe");
}

#[test]
fn add_order_item_checks_the_menu() {
    let (mut s, mid) = state_with_menu();
    let rid2 = s.create_restaurant("Other").unwrap();
    let mid2 = s
        .ingest_menu(rid2, &vec![(9, "Soup".to_string(), 300)], 2000)
        .unwrap();
    s.create_order(mid, 10).unwrap();
    let oid = s.current_open_order().unwrap().id;
    let foreign = s.menu(mid2)[0].id;
    assert_eq!(s.add_order_item(oid, "alice", foreign), Err(Error::NotFound));
}

#[test]
fn associations_upsert_and_sort() {
    let mut s = State::new();
    s.set_association("walter", "acct-w").unwrap();
    s.set_association("alice", "acct-a").unwrap();
    s.set_association("mike", "acct-m").unwrap();
    s.set_association("alice", "acct-a2").unwrap();
    let all = s.all_associations();
    let pairs: Vec<(String, String)> = all
        .iter()
        .map(|a| (a.slack_name.clone(), a.sharebill_account.clone()))
        .collect();
    assert_eq!(
        pairs,
        vec![
            ("alice".to_string(), "acct-a2".to_string()),
            ("mike".to_string(), "acct-m".to_string()),
            ("walter".to_string(), "acct-w".to_string()),
        ]
    );
}

#[test]
fn catalog_lookup() {
    let (s, mid) = state_with_menu();
    let r = s.restaurant_by_name("Pizzeria Luigi").unwrap();
    assert_eq!(r.id, RestaurantId(1));
    assert!(s.restaurant_by_name("Nowhere").is_none());
    let current = s.current_menu_for_restaurant(r.id).unwrap();
    assert_eq!(current.id, mid);
    assert_eq!(s.menu(mid).len(), 2);
    assert_eq!(s.restaurants().len(), 1);
}

#[test]
fn newest_menu_wins() {
    let mut s = State::new();
    let rid = s.create_restaurant("R").unwrap();
    let m1 = s.ingest_menu(rid, &vec![(1, "Old".to_string(), 100)], 100).unwrap();
    let m2 = s.ingest_menu(rid, &vec![(1, "New".to_string(), 150)], 200).unwrap();
    assert_eq!(s.current_menu_for_restaurant(rid).unwrap().id, m2);
    let menus = s.menus_for_restaurant(rid);
    assert_eq!(menus.len(), 2);
    assert_eq!(menus[0].id, m2);
    assert_eq!(menus[1].id, m1);
}
