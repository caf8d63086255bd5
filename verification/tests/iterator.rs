use trine_kv::iterator::{prefix_successor, Direction, SourceHeap};

#[test]
fn source_heap_orders_forward_and_reverse_keys() {
    let mut forward = SourceHeap::new(Direction::Forward);
    forward.push(b"c".to_vec(), 0);
    forward.push(b"a".to_vec(), 1);
    forward.push(b"b".to_vec(), 2);

    assert_eq!(forward.pop().expect("entry").user_key, b"a");
    assert_eq!(forward.pop().expect("entry").user_key, b"b");
    assert_eq!(forward.pop().expect("entry").user_key, b"c");

    let mut reverse = SourceHeap::new(Direction::Reverse);
    reverse.push(b"c".to_vec(), 0);
    reverse.push(b"a".to_vec(), 1);
    reverse.push(b"b".to_vec(), 2);

    assert_eq!(reverse.pop().expect("entry").user_key, b"c");
    assert_eq!(reverse.pop().expect("entry").user_key, b"b");
    assert_eq!(reverse.pop().expect("entry").user_key, b"a");
}

#[test]
fn equal_keys_come_out_by_source_index() {
    let mut heap = SourceHeap::new(Direction::Forward);
    heap.push(b"k".to_vec(), 3);
    heap.push(b"k".to_vec(), 1);
    assert_eq!(heap.pop().expect("entry").source_index, 1);
    assert_eq!(heap.pop().expect("entry").source_index, 3);
    assert!(heap.pop().is_none());
}

#[test]
fn prefix_successor_increments_the_last_byte_below_max() {
    assert_eq!(prefix_successor(b"ab"), Some(b"ac".to_vec()));
    assert_eq!(prefix_successor(&[1, 255, 255]), Some(vec![2]));
    assert_eq!(prefix_successor(&[255, 255]), None);
    assert_eq!(prefix_successor(b""), None);
}
