use fighter_graph::words::word_count;

#[test]
fn test_word_count() {
    let text = "Hello world hello";
    let result = word_count(text);
    assert_eq!(result.get("hello"), Some(&2));
    assert_eq!(result.get("world"), Some(&1));
}
