//! Menu lookup, the similarity metric, commands, and flavour words.

use fishsticks::commands::{exec_cmd, CommandOutcome, Response};
use fishsticks::config::{write_help, Config};
use fishsticks::menu_query::Query;
use fishsticks::similarity::jw_distance;
use fishsticks::state::State;
use fishsticks::words::{adjective, affirm, noun};

fn fuzzy_menu() -> (State, fishsticks::models::MenuId) {
    let mut s = State::new();
    let rid = s.create_restaurant("Trattoria").unwrap();
    let mid = s
        .ingest_menu(
            rid,
            &vec![
                (1, "Spaghetti".to_string(), 900),
                (2, "Spaghetti Bolognese".to_string(), 1100),
                (3, "Pizza".to_string(), 800),
            ],
            1000,
        )
        .unwrap();
    (s, mid)
}

#[test]
fn fuzzy_match_ranks_near_names_first() {
    let (s, mid) = fuzzy_menu();
    let q = Query::interpret_string("spagetti");
    let ranked = s.query_menu(mid, &q).unwrap();
    assert_eq!(ranked.len(), 3);
    // both spaghetti dishes come strictly ahead of the pizza
    assert_eq!(ranked[2].name, "Pizza");
    assert!(ranked[0].name.starts_with("Spaghetti"));
    assert!(ranked[1].name.starts_with("Spaghetti"));
    let d0 = jw_distance("spagetti", &ranked[0].name.to_lowercase());
    let d2 = jw_distance("spagetti", &ranked[2].name.to_lowercase());
    assert!(d0 < d2);
}

#[test]
fn exact_query_finds_by_number() {
    let (s, mid) = fuzzy_menu();
    let q = Query::interpret_string("2");
    let hits = s.query_menu(mid, &q).unwrap();
    assert_eq!(hits.len(), 1);
    assert_eq!(hits[0].name, "Spaghetti Bolognese");
    let none = s.query_menu(mid, &Query::interpret_string("9")).unwrap();
    assert_eq!(none.len(), 0);
}

#[test]
fn interpretation_of_free_text() {
    assert!(matches!(Query::interpret_string("12"), Query::ExactInteger(12)));
    assert!(matches!(Query::interpret_string("-3"), Query::ExactInteger(-3)));
    assert!(matches!(Query::interpret_string("pizza"), Query::FuzzyString(_)));
    assert!(matches!(Query::interpret_string("1 2"), Query::FuzzyString(_)));
    assert!(matches!(
        Query::interpret_string("99999999999"),
        Query::FuzzyString(_)
    ));
}

#[test]
fn metric_agrees_with_the_floating_point_reference() {
    for (a, b) in [
        ("spagetti", "spaghetti"),
        ("spagetti", "spaghetti bolognese"),
        ("spagetti", "pizza"),
        ("", ""),
        ("a", ""),
        ("martha", "marhta"),
        ("dixon", "dicksonx"),
        ("same", "same"),
    ] {
        let exact = jw_distance(a, b) as f64;
        let reference = (1000.0 * (1.0 - strsim::jaro_winkler(a, b))).round();
        assert!(
            (exact - reference).abs() <= 1.0,
            "{} vs {}: {} != {}",
            a,
            b,
            exact,
            reference
        );
    }
}

#[test]
fn matching_ignores_case() {
    // lowercasing both sides is what lets an upper-case menu win
    let mut s = State::new();
    let rid = s.create_restaurant("Diner").unwrap();
    let mid = s
        .ingest_menu(
            rid,
            &vec![(1, "BURGER".to_string(), 500), (2, "Fries".to_string(), 200)],
            1000,
        )
        .unwrap();
    let ranked = s
        .query_menu(mid, &Query::interpret_string("burger"))
        .unwrap();
    assert_eq!(ranked[0].name, "BURGER");
}

#[test]
fn identical_names_have_zero_distance() {
    assert_eq!(jw_distance("pizza", "pizza"), 0);
    assert_eq!(jw_distance("", ""), 0);
    assert_eq!(jw_distance("pizza", ""), 1000);
}

#[test]
fn words_come_from_their_lists() {
    let adjectives = [
        "awesome", "edible", "delicious", "sick", "tasty", "yummy", "savory", "nourishing",
        "nutritious", "calorific", "soylent",
    ];
    for _ in 0..20 {
        assert!(adjectives.contains(&adjective().as_str()));
    }
    assert!(!noun().is_empty());
    assert!(!affirm().is_empty());
}

#[test]
fn commands_drive_a_whole_order() {
    let mut s = State::new();
    let rid = s.create_restaurant("Corner Grill").unwrap();
    s.ingest_menu(
        rid,
        &vec![(1, "Burger".to_string(), 500), (2, "Fries".to_string(), 200)],
        1000,
    )
    .unwrap();
    let base = "http://localhost:3000/";
    let r = exec_cmd(&mut s, "openorder", "Corner Grill", "alice", base, 10).unwrap();
    match r {
        CommandOutcome::Done(Response::OpenedOrder { menu_url, restaurant_name }) => {
            assert_eq!(restaurant_name, "Corner Grill");
            assert_eq!(menu_url, "http://localhost:3000/menu/1");
        },
        other => panic!("unexpected outcome {:?}", other),
    }
    exec_cmd(&mut s, "order", "burger", "alice", base, 11).unwrap();
    exec_cmd(&mut s, "sudo", "bob order fries", "alice", base, 12).unwrap();
    exec_cmd(&mut s, "overhead", "1.00", "alice", base, 13).unwrap();
    exec_cmd(&mut s, "associate", "acct-a", "alice", base, 14).unwrap();
    exec_cmd(&mut s, "associate", "bob acct-b", "alice", base, 15).unwrap();
    match exec_cmd(&mut s, "summary", "", "alice", base, 16).unwrap() {
        CommandOutcome::Done(Response::Summary { orders }) => {
            assert_eq!(orders.len(), 2);
            assert_eq!(orders[0].0, "alice");
            assert_eq!(orders[0].1[0].name, "Burger");
            assert_eq!(orders[1].0, "bob");
        },
        other => panic!("unexpected outcome {:?}", other),
    }
    match exec_cmd(&mut s, "sharebill", "", "alice", base, 17).unwrap() {
        CommandOutcome::NeedPost(plan) => {
            assert_eq!(plan.credits[0].0, "acct-a");
            assert_eq!(
                plan.credits[0].1,
                fishsticks::rational::Rational::from_cents(800)
            );
            assert_eq!(plan.debits.len(), 2);
        },
        other => panic!("unexpected outcome {:?}", other),
    }
    // the order is still open until the shell confirms the posting
    assert!(s.current_open_order().is_some());
    fishsticks::commands::settlement_posted(&mut s, "http://ledger/post/1".to_string(), 18)
        .unwrap();
    assert!(s.current_open_order().is_none());
}

#[test]
fn unknown_commands_are_reported() {
    let mut s = State::new();
    match exec_cmd(&mut s, "dance", "", "alice", "base/", 1).unwrap() {
        CommandOutcome::Done(Response::NotUnderstood { command, .. }) => {
            assert_eq!(command, "dance");
        },
        other => panic!("unexpected outcome {:?}", other),
    }
}

#[test]
fn help_text_and_defaults() {
    assert!(write_help().starts_with("Usage: fishsticks"));
    let c = Config::new();
    assert_eq!(c.database.connection_string, ":memory:");
    assert_eq!(c.web.bind, "localhost:3000");
    assert!(c.web.sharebill_url.is_none());
}
