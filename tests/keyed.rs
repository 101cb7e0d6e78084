use sycamore_keyed::{KeyedList, Op, ScopeArena};

#[test]
fn replace_tail_keeps_first_scope() {
    let mut list = KeyedList::new();
    list.update(&vec![1, 2]);
    let s1 = list.scopes[0];
    let s2 = list.scopes[1];
    let ops = list.update(&vec![1, 3]);
    assert_eq!(list.keys, vec![1, 3]);
    assert_eq!(list.scopes[0], s1);
    assert!(!list.arena.is_alive(s2));
    assert!(list.arena.is_alive(list.scopes[1]));
    assert_ne!(list.scopes[1], s1);
    assert_ne!(list.scopes[1], s2);
    assert_eq!(ops, vec![Op::Remove { key: 2 }, Op::Insert { key: 3, before: None }]);
}

#[test]
fn swap_twice_leaks_no_scope() {
    let mut list = KeyedList::new();
    list.update(&vec![1, 2, 3]);
    let first = list.scopes.clone();
    list.update(&vec![3, 2, 1]);
    assert_eq!(list.scopes, vec![first[2], first[1], first[0]]);
    list.update(&vec![1, 2, 3]);
    assert_eq!(list.scopes, first);
    assert!(first.iter().all(|h| list.arena.is_alive(*h)));
    assert!(!list.arena.is_alive(3));
}

#[test]
fn clear_disposes_all_scopes() {
    let mut list = KeyedList::new();
    list.update(&vec![1, 2, 3]);
    let scopes = list.scopes.clone();
    let ops = list.update(&vec![]);
    assert!(list.keys.is_empty());
    assert_eq!(ops.len(), 3);
    assert!(scopes.iter().all(|h| !list.arena.is_alive(*h)));
}

#[test]
fn same_data_changes_nothing() {
    let mut list = KeyedList::new();
    list.update(&vec![1, 2]);
    let scopes = list.scopes.clone();
    let ops = list.update(&vec![1, 2]);
    assert!(ops.is_empty());
    assert_eq!(list.scopes, scopes);
}

#[test]
fn arena_create_and_dispose() {
    let mut arena = ScopeArena::new();
    let a = arena.create();
    let b = arena.create();
    assert_eq!((a, b), (0, 1));
    arena.dispose(a);
    assert!(!arena.is_alive(a));
    assert!(arena.is_alive(b));
    assert!(!arena.is_alive(5));
}

#[test]
fn scopes_opened_only_for_new_rows() {
    let mut list = KeyedList::new();
    list.update(&vec![1, 2]);
    assert_eq!(list.arena.is_alive(2), false);
    list.update(&vec![1, 2]);
    assert!(!list.arena.is_alive(2));
    list.update(&vec![2, 3, 4, 1]);
    assert_eq!(list.scopes, vec![1, 2, 3, 0]);
    assert!(!list.arena.is_alive(4));
    list.update(&vec![]);
    assert!(!list.arena.is_alive(4));
}

#[test]
fn readded_key_gets_fresh_scope() {
    let mut list = KeyedList::new();
    list.update(&vec![1, 2]);
    let old_scope = list.scopes[1];
    list.update(&vec![1]);
    list.update(&vec![1, 2]);
    assert_ne!(list.scopes[1], old_scope);
    assert!(!list.arena.is_alive(old_scope));
    assert!(list.arena.is_alive(list.scopes[1]));
}
