use card_connect::card_set::CardSet;
use card_connect::render::{check_connect, render};
use card_connect::forest::build;
use card_connect::Card;

fn card(id: i32, name: &str, five_stats: [i32; 5]) -> Card {
    Card { id, name: name.to_string(), five_stats }
}

/// The concrete three-card scenario: A-B connected through one matching
/// position, A-C through none, B-C through four.
fn abc_set() -> CardSet {
    let mut set = CardSet::new();
    set.insert(card(1, "A", [1, 2, 3, 4, 5]));
    set.insert(card(2, "B", [1, 9, 9, 9, 9]));
    set.insert(card(3, "C", [9, 9, 9, 9, 9]));
    set
}

#[test]
fn connected_exactly_one_match() {
    let a = card(1, "A", [1, 2, 3, 4, 5]);
    let b = card(2, "B", [1, 9, 9, 9, 9]);
    let c = card(3, "C", [9, 9, 9, 9, 9]);
    assert!(a.is_connected(&b));
    assert!(!a.is_connected(&c));
    assert!(!b.is_connected(&c));
}

#[test]
fn connected_symmetric() {
    let a = card(1, "A", [1, 2, 3, 4, 5]);
    let b = card(2, "B", [1, 9, 9, 9, 9]);
    assert_eq!(a.is_connected(&b), b.is_connected(&a));
    let c = card(3, "C", [9, 9, 9, 9, 9]);
    assert_eq!(a.is_connected(&c), c.is_connected(&a));
    assert_eq!(b.is_connected(&c), c.is_connected(&b));
}

#[test]
fn connected_irreflexive() {
    let a = card(1, "A", [1, 2, 3, 4, 5]);
    assert!(!a.is_connected(&a));
    // A fully equal but distinct card value fares no better.
    let twin = card(1, "A", [1, 2, 3, 4, 5]);
    assert!(!a.is_connected(&twin));
}

#[test]
fn concrete_scenario_report() {
    let out = check_connect(abc_set());
    assert_eq!(out, "A\n    └──B\nB\n    └──A\nC\n");
}

#[test]
fn root_a_fragment() {
    let out = check_connect(abc_set());
    assert!(out.starts_with("A\n    └──B\n"));
}

#[test]
fn empty_set_renders_empty() {
    let out = check_connect(CardSet::new());
    assert_eq!(out, "");
}

#[test]
fn unconnected_card_one_line() {
    // C matches no other card in exactly one position: its tree is one line.
    let out = check_connect(abc_set());
    assert!(out.ends_with("\nC\n"));
    assert!(!out.contains("C\n    "));
}

#[test]
fn deterministic_output() {
    let first = check_connect(abc_set());
    let second = check_connect(abc_set());
    assert_eq!(first, second);
}

#[test]
fn render_after_build_matches_check_connect() {
    let forest = build(abc_set());
    assert_eq!(render(&forest), check_connect(abc_set()));
}

#[test]
fn full_glyph_report() {
    // A-B, A-C and B-D are the only connections, so root A carries two
    // children and B carries a grandchild under a continuation bar.
    let mut set = CardSet::new();
    set.insert(card(1, "A", [1, 2, 3, 4, 5]));
    set.insert(card(2, "B", [1, 9, 9, 9, 9]));
    set.insert(card(3, "C", [8, 2, 9, 9, 9]));
    set.insert(card(4, "D", [1, 8, 8, 8, 5]));
    let out = check_connect(set);
    let expected = "A\n    ├──B\n    │    └──D\n    └──C\n\
                    B\n    ├──A\n    │    └──C\n    └──D\n\
                    C\n    └──A\n         └──B\n\
                    D\n    └──B\n         └──A\n";
    assert_eq!(out, expected);
}

#[test]
fn canonical_order_by_id() {
    // Insertion order does not matter: roots come out ascending by id.
    let mut set = CardSet::new();
    set.insert(card(30, "z", [11, 12, 13, 14, 15]));
    set.insert(card(10, "x", [1, 2, 3, 4, 5]));
    set.insert(card(20, "y", [6, 7, 8, 9, 10]));
    let out = check_connect(set);
    assert_eq!(out, "x\ny\nz\n");
}

#[test]
fn duplicate_insert_collapses() {
    let mut set = CardSet::new();
    assert!(set.insert(card(1, "A", [1, 2, 3, 4, 5])));
    assert!(!set.insert(card(1, "A", [1, 2, 3, 4, 5])));
    assert_eq!(set.len(), 1);
    assert!(!set.is_empty());
}

#[test]
fn label_prefers_name() {
    let named = card(7, "Blue-Eyes", [1, 2, 3, 4, 5]);
    assert_eq!(named.display_label(), "Blue-Eyes");
}

#[test]
fn label_falls_back_to_id() {
    let unnamed = card(4007, "", [1, 2, 3, 4, 5]);
    assert_eq!(unnamed.display_label(), "4007");
    let negative = card(-25, "", [1, 2, 3, 4, 5]);
    assert_eq!(negative.display_label(), "-25");
    let zero = card(0, "", [1, 2, 3, 4, 5]);
    assert_eq!(zero.display_label(), "0");
}

#[test]
fn nameless_cards_render_by_id() {
    let mut set = CardSet::new();
    set.insert(card(1, "", [1, 2, 3, 4, 5]));
    set.insert(card(2, "", [1, 9, 9, 9, 9]));
    let out = check_connect(set);
    assert_eq!(out, "1\n    └──2\n2\n    └──1\n");
}
