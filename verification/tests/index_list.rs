use pikarust_core::nnue::features::index_list::IndexList;

#[test]
fn test_index_list_basic() {
    let mut list = IndexList::new();
    assert!(list.is_empty());
    assert_eq!(list.len(), 0);

    list.push(42);
    assert_eq!(list.len(), 1);
    assert_eq!(list.as_slice(), &[42]);

    list.push(100);
    assert_eq!(list.len(), 2);
    assert_eq!(list.as_slice(), &[42, 100]);
}

#[test]
fn test_index_list_push_if_lt() {
    let mut list = IndexList::new();
    list.push_if_lt(10, 100);
    assert_eq!(list.len(), 1);

    list.push_if_lt(200, 100);
    assert_eq!(list.len(), 1);

    list.push_if_lt(99, 100);
    assert_eq!(list.len(), 2);
}

#[test]
fn test_index_list_clear() {
    let mut list = IndexList::new();
    list.push(1);
    list.push(2);
    list.clear();
    assert!(list.is_empty());
}
