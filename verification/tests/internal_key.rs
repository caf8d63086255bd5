use trine_kv::internal_key::{
    compare_internal_keys, first_internal_key_for_user, last_internal_key_for_user,
    sort_internal_keys, InternalKey, ValueKind,
};
use trine_kv::bytes::Order;
use trine_kv::types::Sequence;

fn key(user_key: &[u8], sequence: u64, kind: ValueKind, batch_index: u32) -> InternalKey {
    InternalKey::new(user_key.to_vec(), Sequence::new(sequence), kind, batch_index)
}

#[test]
fn internal_keys_sort_user_key_ascending_then_sequence_descending() {
    let keys = vec![
        key(b"b", 1, ValueKind::Put, 0),
        key(b"a", 1, ValueKind::Put, 0),
        key(b"a", 3, ValueKind::Put, 0),
        key(b"a", 2, ValueKind::Put, 0),
    ];

    let keys = sort_internal_keys(keys);

    let ordered = keys
        .iter()
        .map(|key| (key.user_key().to_vec(), key.sequence().get()))
        .collect::<Vec<_>>();
    assert_eq!(
        ordered,
        vec![
            (b"a".to_vec(), 3),
            (b"a".to_vec(), 2),
            (b"a".to_vec(), 1),
            (b"b".to_vec(), 1),
        ]
    );
}

#[test]
fn batch_index_sorts_later_batch_operations_first() {
    let keys = vec![
        key(b"a", 1, ValueKind::Put, 0),
        key(b"a", 1, ValueKind::PointDelete, 1),
    ];

    let keys = sort_internal_keys(keys);

    assert_eq!(keys[0].batch_index(), 1);
    assert_eq!(keys[0].kind(), ValueKind::PointDelete);
}

#[test]
fn first_and_last_keys_bracket_every_version() {
    let first = first_internal_key_for_user(b"k");
    let last = last_internal_key_for_user(b"k");
    let middle = key(b"k", 5, ValueKind::PointDelete, 3);
    assert_eq!(compare_internal_keys(&first, &middle), Order::Less);
    assert_eq!(compare_internal_keys(&middle, &last), Order::Less);
    assert_eq!(compare_internal_keys(&middle, &middle), Order::Equal);
    let other = key(b"j", 0, ValueKind::Put, 0);
    assert_eq!(compare_internal_keys(&other, &first), Order::Less);
}

#[test]
fn kind_breaks_ties_between_equal_versions() {
    let put = key(b"a", 1, ValueKind::Put, 0);
    let delete = key(b"a", 1, ValueKind::RangeDelete, 0);
    assert_eq!(compare_internal_keys(&put, &delete), Order::Less);
    assert_eq!(compare_internal_keys(&delete, &put), Order::Greater);
}
