use fighter_graph::export::dot_id;
use fighter_graph::caesar::decrypt;
use fighter_graph::fruits::sort_fruits;
use fighter_graph::queue::PriorityQueue;
use fighter_graph::words::{count_fruits, word_count};

#[test]
fn decrypt_wraps_and_keeps_others() {
    assert_eq!(decrypt("xyz XYZ", 3), "abc ABC");
    assert_eq!(decrypt("", 5), "");
    assert_eq!(decrypt("é-1", 7), "é-1");
}

#[test]
fn word_count_ignores_case_and_spacing() {
    let t = word_count("  The the\tTHE\ncat  ");
    assert_eq!(t.get("the"), Some(&3));
    assert_eq!(t.get("cat"), Some(&1));
    assert_eq!(t.get("The"), None);
    assert_eq!(t.len(), 2);
    assert_eq!(word_count("").len(), 0);
}

#[test]
fn sort_orders_by_code_points() {
    let mut v = vec!["b", "B", "ab", "a", "", "é", "z"];
    sort_fruits(&mut v);
    assert_eq!(v, vec!["", "B", "a", "ab", "b", "z", "é"]);
}

#[test]
fn tally_counts_names() {
    let t = count_fruits(&vec!["kiwi", "fig", "kiwi"]);
    assert_eq!((t.get("kiwi"), t.get("fig"), t.get("lime"), t.len()), (Some(&2), Some(&1), None, 2));
}

#[test]
fn queue_keeps_duplicates_and_negatives() {
    let mut q = PriorityQueue::new();
    assert_eq!(q.pop(), None);
    assert_eq!(q.peek(), None);
    for x in [-4, 7, 7, 0] {
        q.push(x);
    }
    assert_eq!(q.len(), 4);
    assert_eq!(q.pop(), Some(7));
    assert_eq!(q.pop(), Some(7));
    assert_eq!(q.pop(), Some(0));
    assert_eq!(q.pop(), Some(-4));
    assert!(q.is_empty());
}

#[test]
fn diagram_ids_have_no_whitespace() {
    assert_eq!(dot_id("Conor McGregor"), "Conor_McGregor");
    assert_eq!(dot_id(" a\tb\nc "), "_a_b_c_");
    assert_eq!(dot_id("José"), "José");
}
