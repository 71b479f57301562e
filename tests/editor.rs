use bommie::document::{entries_of, parse_json, prints_from_entries, to_json, DocumentError};
use bommie::models::{Print, Unit};
use bommie::order::{compare_names, compare_print_names, parse_quantity, print_sort};
use bommie::sorting::{sort_prints, sort_units};
use bommie::state::BommieApp;
use std::cmp::Ordering;

fn names(prints: &[Print]) -> Vec<String> {
    prints.iter().map(|p| p.name.clone()).collect()
}

fn units(print: &Print) -> Vec<(String, u32)> {
    print.units.iter().map(|u| (u.name.clone(), u.quantity)).collect()
}

fn pairs(list: &[(&str, u32)]) -> Vec<(String, u32)> {
    list.iter().map(|(n, q)| (n.to_string(), *q)).collect()
}

fn print_of(name: &str) -> Print {
    Print::new(name.to_string())
}

fn add_print(app: &mut BommieApp, name: &str) -> bool {
    app.potential_print = name.to_string();
    app.add_print()
}

fn add_unit(app: &mut BommieApp, name: &str, quantity: &str) -> bool {
    app.potential_unit.name = name.to_string();
    assert!(app.set_pending_quantity(quantity));
    app.add_unit()
}

#[test]
fn load_edit_save_reload() {
    let mut app = BommieApp::new();
    let text = r#"{"1":{"BFO24I":234,"BFO COIL":150}}"#.to_string();
    assert_eq!(app.open_document(Some(text)), Ok(()));
    assert_eq!(names(&app.prints), vec!["1"]);
    assert_eq!(units(&app.prints[0]), pairs(&[("BFO COIL", 150), ("BFO24I", 234)]));

    app.select_print(0);
    assert!(add_unit(&mut app, "CAP1", "5"));
    assert_eq!(
        units(&app.prints[0]),
        pairs(&[("BFO COIL", 150), ("BFO24I", 234), ("CAP1", 5)])
    );
    assert_eq!(app.potential_unit.name, "");
    assert_eq!(app.potential_unit.quantity, 0);

    app.remove_unit(0);
    assert_eq!(units(&app.prints[0]), pairs(&[("BFO24I", 234), ("CAP1", 5)]));

    let saved = app.save_text();
    let mut other = BommieApp::new();
    assert_eq!(other.open_document(Some(saved)), Ok(()));
    assert_eq!(names(&other.prints), vec!["1"]);
    assert_eq!(units(&other.prints[0]), pairs(&[("BFO24I", 234), ("CAP1", 5)]));
}

#[test]
fn negative_quantity_is_a_parse_error() {
    let mut app = BommieApp::new();
    assert!(add_print(&mut app, "old"));
    let r = app.open_document(Some(r#"{"a": {"x": -1}}"#.to_string()));
    assert_eq!(r, Err(DocumentError::Parse));
    assert!(app.prints.is_empty());
    assert_eq!(app.current_print, 0);
    assert_eq!(app.error_message, Some("Error reading file".to_string()));
    app.clear_error();
    assert_eq!(app.error_message, None);
}

#[test]
fn unreadable_file_is_a_read_error() {
    let mut app = BommieApp::new();
    assert!(add_print(&mut app, "old"));
    assert_eq!(app.open_document(None), Err(DocumentError::Read));
    assert!(app.prints.is_empty());
    assert_eq!(app.error_message, Some("Error reading file".to_string()));
}

#[test]
fn numeric_names_sort_numerically_on_add() {
    let mut app = BommieApp::new();
    assert!(add_print(&mut app, "5"));
    assert!(add_print(&mut app, "10"));
    assert!(add_print(&mut app, "2"));
    assert_eq!(names(&app.prints), vec!["2", "5", "10"]);
    assert_eq!(app.potential_print, "");
}

#[test]
fn empty_names_are_rejected() {
    let mut app = BommieApp::new();
    assert!(!add_print(&mut app, ""));
    assert!(app.prints.is_empty());
    assert_eq!(app.error_message, None);

    assert!(add_print(&mut app, "P"));
    app.potential_unit.name = String::new();
    app.potential_unit.quantity = 3;
    assert!(!app.add_unit());
    assert!(app.prints[0].units.is_empty());
    assert_eq!(app.potential_unit.quantity, 3);
    assert_eq!(app.error_message, None);
}

#[test]
fn duplicate_names_are_rejected() {
    let mut app = BommieApp::new();
    assert!(add_print(&mut app, "A"));
    assert!(!add_print(&mut app, "A"));
    assert_eq!(names(&app.prints), vec!["A"]);
    assert_eq!(app.potential_print, "A");

    assert!(add_unit(&mut app, "u", "1"));
    assert!(!add_unit(&mut app, "u", "2"));
    assert_eq!(units(&app.prints[0]), pairs(&[("u", 1)]));
}

#[test]
fn add_unit_needs_a_print() {
    let mut app = BommieApp::new();
    app.potential_unit.name = "x".to_string();
    assert!(!app.add_unit());
    assert_eq!(app.potential_unit.name, "x");
}

#[test]
fn mixed_names_sort_lexicographically() {
    let mut app = BommieApp::new();
    for n in ["b", "10", "a", "9"] {
        assert!(add_print(&mut app, n));
    }
    assert_eq!(names(&app.prints), vec!["9", "10", "a", "b"]);
}

#[test]
fn print_order_comparator() {
    let p = |n: &str| print_of(n);
    assert_eq!(print_sort(&p("2"), &p("10")), Ordering::Less);
    assert_eq!(print_sort(&p("10"), &p("2")), Ordering::Greater);
    assert_eq!(print_sort(&p("7"), &p("7")), Ordering::Equal);
    assert_eq!(print_sort(&p("+5"), &p("5")), Ordering::Less);
    assert_eq!(print_sort(&p("a"), &p("b")), Ordering::Less);
    assert_eq!(print_sort(&p("10"), &p("9a")), Ordering::Less);
    assert_eq!(print_sort(&p("4294967296"), &p("5")), Ordering::Greater);
    assert_eq!(
        print_sort(&p("123456789012345678901234567890"), &p("99")),
        Ordering::Greater
    );
    assert_eq!(
        print_sort(&p("123456789012345678901234567890"), &p("123456789012345678901234567891")),
        Ordering::Less
    );
    assert_eq!(print_sort(&p("007"), &p("7")), Ordering::Equal);
    assert_eq!(print_sort(&p("0010"), &p("9")), Ordering::Greater);
    assert_eq!(print_sort(&p("0"), &p("00")), Ordering::Equal);
    assert_eq!(print_sort(&p("00"), &p("1")), Ordering::Less);
    assert_eq!(compare_print_names(&"100".to_string(), &"20".to_string()), Ordering::Greater);
}

#[test]
fn lexicographic_names() {
    assert_eq!(compare_names(&"BFO COIL".to_string(), &"BFO24I".to_string()), Ordering::Less);
    assert_eq!(compare_names(&"10".to_string(), &"9".to_string()), Ordering::Less);
    assert_eq!(compare_names(&"ab".to_string(), &"a".to_string()), Ordering::Greater);
    assert_eq!(compare_names(&"é".to_string(), &"z".to_string()), Ordering::Greater);
    assert_eq!(compare_names(&"".to_string(), &"".to_string()), Ordering::Equal);
}

#[test]
fn quantities_parse_as_u32() {
    assert_eq!(parse_quantity("7"), Some(7));
    assert_eq!(parse_quantity("+7"), Some(7));
    assert_eq!(parse_quantity("4294967295"), Some(u32::MAX));
    assert_eq!(parse_quantity("4294967296"), None);
    assert_eq!(parse_quantity(""), None);
    assert_eq!(parse_quantity("+"), None);
    assert_eq!(parse_quantity("-1"), None);
    assert_eq!(parse_quantity(" 1"), None);
    assert_eq!(parse_quantity("1.5"), None);
}

#[test]
fn sorting_twice_is_sorting_once() {
    let input = vec![print_of("b"), print_of("10"), print_of("2"), print_of("a")];
    let once = sort_prints(input);
    assert_eq!(names(&once), vec!["2", "10", "a", "b"]);
    let twice = sort_prints(once);
    assert_eq!(names(&twice), vec!["2", "10", "a", "b"]);

    let us = vec![
        Unit { name: "z".to_string(), quantity: 1 },
        Unit { name: "a".to_string(), quantity: 2 },
        Unit { name: "m".to_string(), quantity: 3 },
    ];
    let once = sort_units(us);
    let expected = pairs(&[("a", 2), ("m", 3), ("z", 1)]);
    let once_pairs: Vec<(String, u32)> = once.iter().map(|u| (u.name.clone(), u.quantity)).collect();
    assert_eq!(once_pairs, expected);
    let twice = sort_units(once);
    let twice_pairs: Vec<(String, u32)> = twice.iter().map(|u| (u.name.clone(), u.quantity)).collect();
    assert_eq!(twice_pairs, expected);
}

#[test]
fn parse_sorts_prints_and_units() {
    let prints = parse_json(r#"{"b":{"y":2,"x":1},"10":{},"9":{"q":0}}"#.to_string()).unwrap();
    assert_eq!(names(&prints), vec!["9", "10", "b"]);
    assert_eq!(units(&prints[2]), pairs(&[("x", 1), ("y", 2)]));
    assert!(prints[1].units.is_empty());
    assert_eq!(units(&prints[0]), pairs(&[("q", 0)]));
}

#[test]
fn parse_rejects_other_shapes() {
    for text in [
        "",
        "not json",
        "[]",
        r#"{"a": 1}"#,
        r#"{"a": {"x": 1.5}}"#,
        r#"{"a": {"x": "1"}}"#,
        r#"{"a": {"x": 4294967296}}"#,
        r#"{"a": {"x": {"y": 1}}}"#,
    ] {
        assert!(matches!(parse_json(text.to_string()), Err(DocumentError::Parse)), "{}", text);
    }
    assert_eq!(parse_json(r#"{"a": {"x": 4294967295}}"#.to_string()).unwrap()[0].units[0].quantity, u32::MAX);
    assert!(parse_json("{}".to_string()).unwrap().is_empty());
}

#[test]
fn json_round_trip() {
    let mut app = BommieApp::new();
    assert!(add_print(&mut app, "10"));
    assert!(add_print(&mut app, "2"));
    assert!(add_print(&mut app, "x"));
    app.select_print(1);
    assert!(add_unit(&mut app, "b", "2"));
    assert!(add_unit(&mut app, "a \"quoted\"", "1"));
    let text = to_json(&app.prints);
    assert_ne!(text, "");
    let back = parse_json(text).unwrap();
    assert_eq!(names(&back), vec!["2", "10", "x"]);
    for i in 0..3 {
        assert_eq!(units(&back[i]), units(&app.prints[i]));
    }
    assert_eq!(units(&back[1]), pairs(&[("a \"quoted\"", 1), ("b", 2)]));
}

#[test]
fn new_document_clears_everything() {
    let mut app = BommieApp::new();
    assert!(add_print(&mut app, "a"));
    app.report_error(DocumentError::Write);
    assert_eq!(app.error_message, Some("Error writing file".to_string()));
    app.report_error(DocumentError::Parse);
    assert_eq!(app.error_message, Some("Error reading file".to_string()));
    assert_eq!(DocumentError::Read.message(), "Error reading file");
    app.new_document();
    assert!(app.prints.is_empty());
    assert_eq!(app.error_message, None);
    assert_eq!(app.current_print, 0);
}

#[test]
fn removing_prints_keeps_selection_in_bounds() {
    let mut app = BommieApp::new();
    for n in ["1", "2", "3"] {
        assert!(add_print(&mut app, n));
    }
    app.select_print(2);
    assert_eq!(app.current_print, 2);
    app.select_print(7);
    assert_eq!(app.current_print, 2);
    app.remove_print(2);
    assert_eq!(names(&app.prints), vec!["1", "2"]);
    assert_eq!(app.current_print, 1);
    app.remove_print(5);
    assert_eq!(names(&app.prints), vec!["1", "2"]);
    app.remove_print(0);
    assert_eq!(names(&app.prints), vec!["2"]);
    assert_eq!(app.current_print, 0);
    app.remove_print(0);
    assert!(app.prints.is_empty());
    assert_eq!(app.current_print, 0);
}

#[test]
fn editing_units_in_place() {
    let mut app = BommieApp::new();
    assert!(add_print(&mut app, "p"));
    assert!(add_unit(&mut app, "a", "1"));
    assert!(add_unit(&mut app, "b", "2"));
    assert!(app.set_unit_quantity(1, "9"));
    assert!(!app.set_unit_quantity(1, "nine"));
    assert!(!app.set_unit_quantity(5, "3"));
    assert_eq!(units(&app.prints[0]), pairs(&[("a", 1), ("b", 9)]));
    assert!(app.rename_unit(0, "c".to_string()));
    assert!(app.rename_unit(0, "c".to_string()));
    assert_eq!(units(&app.prints[0]), pairs(&[("c", 1), ("b", 9)]));
    assert!(app.rename_unit(1, "c".to_string()));
    assert_eq!(units(&app.prints[0]), pairs(&[("c", 1), ("c", 9)]));
    assert!(!app.rename_unit(2, "d".to_string()));
    assert_eq!(units(&app.prints[0]), pairs(&[("c", 1), ("c", 9)]));
    assert!(!app.set_pending_quantity("x"));
    assert_eq!(app.potential_unit.quantity, 0);
}

#[test]
fn unit_copies_keep_their_fields() {
    let u = Unit { name: "n".to_string(), quantity: 4 };
    let c = u.duplicate();
    assert_eq!(c.name, "n");
    assert_eq!(c.quantity, 4);
    let d = u.clone();
    assert_eq!(d.name, "n");
    assert_eq!(d.quantity, 4);
    let e = Unit::new();
    assert_eq!(e.name, "");
    assert_eq!(e.quantity, 0);
}

#[test]
fn entries_become_sorted_prints_and_back() {
    let entries = vec![
        ("b".to_string(), pairs(&[("z", 3), ("k", 4)])),
        ("20".to_string(), Vec::new()),
        ("3".to_string(), pairs(&[("q", 1)])),
    ];
    let prints = prints_from_entries(entries);
    assert_eq!(names(&prints), vec!["3", "20", "b"]);
    assert_eq!(units(&prints[2]), pairs(&[("k", 4), ("z", 3)]));
    let back = entries_of(&prints);
    assert_eq!(
        back,
        vec![
            ("3".to_string(), pairs(&[("q", 1)])),
            ("20".to_string(), Vec::new()),
            ("b".to_string(), pairs(&[("k", 4), ("z", 3)])),
        ]
    );
    let again = prints_from_entries(back);
    assert_eq!(names(&again), names(&prints));
    assert_eq!(units(&again[2]), units(&prints[2]));
}

#[test]
fn saved_text_is_a_json_object() {
    let mut app = BommieApp::new();
    assert_eq!(app.save_text(), "{}");
    assert!(add_print(&mut app, "p"));
    assert!(add_unit(&mut app, "u", "3"));
    assert_eq!(app.save_text(), r#"{"p":{"u":3}}"#);
}

#[test]
fn large_numeric_names_sort_by_value() {
    let mut app = BommieApp::new();
    for n in ["99999999999", "5", "4294967296", "x"] {
        assert!(add_print(&mut app, n));
    }
    assert_eq!(names(&app.prints), vec!["5", "4294967296", "99999999999", "x"]);
}
