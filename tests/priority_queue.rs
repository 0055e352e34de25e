use fighter_graph::queue::PriorityQueue;

#[test]
fn test_priority_queue() {
    let mut pq = PriorityQueue::new();
    pq.push(3);
    pq.push(5);
    pq.push(1);

    assert_eq!(pq.len(), 3);

    assert_eq!(pq.peek(), Some(&5));
    assert_eq!(pq.pop(), Some(5));
    assert_eq!(pq.pop(), Some(3));
    assert_eq!(pq.pop(), Some(1));
    assert!(pq.is_empty());
}
