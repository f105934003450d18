use sql_entity_graph::graph::{key_before, schedule, DepGraph, SortKey};
use sql_entity_graph::text::{chars_less, chars_of, decimal, same_chars, same_text};

fn key(file: &str, line: u32, name: &str) -> SortKey {
    SortKey { file: file.chars().collect(), line, name: name.chars().collect() }
}

fn less(a: &str, b: &str) -> bool {
    chars_less(&chars_of(a), &chars_of(b))
}

#[test]
fn decimal_writes_numerals() {
    assert_eq!(decimal(0), "0");
    assert_eq!(decimal(7), "7");
    assert_eq!(decimal(10), "10");
    assert_eq!(decimal(307), "307");
    assert_eq!(decimal(1234567890), "1234567890");
    assert_eq!(decimal(u32::MAX), "4294967295");
}

#[test]
fn texts_are_the_same_by_their_characters() {
    assert!(same_text("", ""));
    assert!(same_text("abc", "abc"));
    assert!(!same_text("abc", "abd"));
    assert!(!same_text("abc", "ab"));
    assert!(!same_text("ab", "abc"));
    assert!(same_text("é", "é"));
    assert!(same_chars(&['a', 'b'], &['a', 'b']));
    assert!(!same_chars(&['a', 'b'], &['b', 'a']));
    assert_eq!(chars_of("aé<"), vec!['a', 'é', '<']);
}

#[test]
fn lexicographic_order_is_that_of_strings() {
    let words = ["", "a", "ab", "abc", "abd", "b", "B", "é", "z", "a::b", "a:b", "src/lib.rs"];
    for a in words {
        for b in words {
            assert_eq!(less(a, b), a < b, "{:?} {:?}", a, b);
        }
    }
}

#[test]
fn keys_go_by_file_then_line_then_name() {
    assert!(key_before(&key("a.rs", 9, "z"), &key("b.rs", 1, "a")));
    assert!(!key_before(&key("b.rs", 1, "a"), &key("a.rs", 9, "z")));
    assert!(key_before(&key("a.rs", 1, "z"), &key("a.rs", 2, "a")));
    assert!(!key_before(&key("a.rs", 2, "a"), &key("a.rs", 1, "z")));
    assert!(key_before(&key("a.rs", 1, "a"), &key("a.rs", 1, "b")));
    assert!(!key_before(&key("a.rs", 1, "b"), &key("a.rs", 1, "a")));
    assert!(!key_before(&key("a.rs", 1, "a"), &key("a.rs", 1, "a")));
    assert!(key_before(&key("a.rs", 2, "a"), &key("a.rs", 10, "a")));
}

#[test]
fn schedule_picks_the_smallest_ready_key() {
    let graph = DepGraph { preds: vec![vec![], vec![0], vec![], vec![2, 1]] };
    let keys = vec![key("f", 4, "a"), key("f", 1, "b"), key("f", 3, "c"), key("f", 0, "d")];
    assert_eq!(schedule(&graph, &keys), Ok(vec![2, 0, 1, 3]));
}

#[test]
fn schedule_of_nothing_is_empty() {
    let graph = DepGraph { preds: vec![] };
    assert_eq!(schedule(&graph, &vec![]), Ok(vec![]));
}

#[test]
fn schedule_reports_a_cycle_in_the_order_of_its_edges() {
    let graph = DepGraph { preds: vec![vec![], vec![3, 0], vec![1], vec![2], vec![3]] };
    let keys = vec![
        key("f", 0, "a"),
        key("f", 1, "b"),
        key("f", 2, "c"),
        key("f", 3, "d"),
        key("f", 4, "e"),
    ];
    let cycle = schedule(&graph, &keys).unwrap_err();
    assert_eq!(cycle.len(), 3);
    for i in 0..cycle.len() {
        let u = cycle[i];
        let v = cycle[(i + 1) % cycle.len()];
        assert!(graph.preds[v].contains(&u), "{} must come before {}", u, v);
    }
}

#[test]
fn schedule_reports_a_loop_on_one_node() {
    let graph = DepGraph { preds: vec![vec![], vec![1]] };
    let keys = vec![key("f", 0, "a"), key("f", 1, "b")];
    assert_eq!(schedule(&graph, &keys), Err(vec![1]));
}
