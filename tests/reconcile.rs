use sycamore_keyed::{longest_chain, reconcile, NodeRef, Op};

/// Carries out the script on a row order, as a rendering backend would.
fn apply(order: &[u64], ops: &[Op]) -> Vec<u64> {
    let mut rows: Vec<u64> = order.to_vec();
    for op in ops {
        match *op {
            Op::Remove { key } => {
                let i = rows.iter().position(|r| *r == key).expect("row to remove");
                rows.remove(i);
            }
            Op::Insert { key, before } | Op::Move { key, before } => {
                if let Op::Move { .. } = op {
                    let i = rows.iter().position(|r| *r == key).expect("row to move");
                    rows.remove(i);
                } else {
                    assert!(!rows.contains(&key));
                }
                match before {
                    Some(b) => {
                        let i = rows.iter().position(|r| *r == b).expect("anchor row");
                        rows.insert(i, key);
                    }
                    None => rows.push(key),
                }
            }
        }
    }
    rows
}

fn text(rows: &[u64]) -> String {
    rows.iter().map(|r| r.to_string()).collect()
}

fn moves(ops: &[Op]) -> usize {
    ops.iter().filter(|op| matches!(op, Op::Move { .. })).count()
}

fn step(old: &[u64], new: &[u64]) -> (Vec<Op>, String) {
    let ops = reconcile(&old.to_vec(), &new.to_vec());
    let rows = apply(old, &ops);
    assert_eq!(rows, new.to_vec());
    (ops, text(&rows))
}

#[test]
fn append() {
    let (ops, out) = step(&[1, 2], &[1, 2, 3]);
    assert_eq!(out, "123");
    assert_eq!(ops, vec![Op::Insert { key: 3, before: None }]);
    let (_, out) = step(&[1, 2, 3], &[2, 3]);
    assert_eq!(out, "23");
}

#[test]
fn swap_rows() {
    let (ops, out) = step(&[1, 2, 3], &[3, 2, 1]);
    assert_eq!(out, "321");
    assert_eq!(moves(&ops), 2);
    assert!(ops.iter().all(|op| matches!(op, Op::Move { .. })));
    let (ops, out) = step(&[3, 2, 1], &[1, 2, 3]);
    assert_eq!(out, "123");
    assert!(ops.iter().all(|op| matches!(op, Op::Move { .. })));
}

#[test]
fn update_row() {
    let (ops, out) = step(&[1, 2], &[1, 3]);
    assert_eq!(out, "13");
    assert_eq!(ops, vec![Op::Remove { key: 2 }, Op::Insert { key: 3, before: None }]);
}

#[test]
fn trigger_with_same_data() {
    let (ops, out) = step(&[1, 2], &[1, 2]);
    assert_eq!(out, "12");
    assert!(ops.is_empty());
}

#[test]
fn delete_row() {
    let (ops, out) = step(&[1, 2, 3], &[1, 3]);
    assert_eq!(out, "13");
    assert_eq!(ops, vec![Op::Remove { key: 2 }]);
}

#[test]
fn delete_row_from_start() {
    let (ops, out) = step(&[1, 2], &[2]);
    assert_eq!(out, "2");
    assert_eq!(ops, vec![Op::Remove { key: 1 }]);
}

#[test]
fn delete_row_from_end() {
    let (ops, out) = step(&[1, 2], &[1]);
    assert_eq!(out, "1");
    assert_eq!(ops, vec![Op::Remove { key: 2 }]);
}

#[test]
fn clear() {
    let (ops, out) = step(&[1, 2, 3], &[]);
    assert_eq!(out, "");
    assert_eq!(ops.len(), 3);
    assert!(ops.iter().all(|op| matches!(op, Op::Remove { .. })));
}

#[test]
fn insert_front() {
    let (ops, out) = step(&[1, 2, 3], &[4, 1, 2, 3]);
    assert_eq!(out, "4123");
    assert_eq!(ops, vec![Op::Insert { key: 4, before: Some(1) }]);
}

#[test]
fn insert_in_middle() {
    let (ops, out) = step(&[1, 2, 3], &[1, 5, 2, 3]);
    assert_eq!(out, "1523");
    assert_eq!(ops, vec![Op::Insert { key: 5, before: Some(2) }]);
}

#[test]
fn create_all_from_empty() {
    let (ops, out) = step(&[], &[1, 2, 3]);
    assert_eq!(out, "123");
    assert_eq!(moves(&ops), 0);
    assert_eq!(ops.len(), 3);
}

#[test]
fn entirely_new_rows() {
    let (ops, out) = step(&[1, 2], &[3, 4]);
    assert_eq!(out, "34");
    assert_eq!(moves(&ops), 0);
    assert_eq!(ops.len(), 4);
}

#[test]
fn reverse_moves_all_but_one() {
    let (ops, out) = step(&[1, 2, 3, 4, 5], &[5, 4, 3, 2, 1]);
    assert_eq!(out, "54321");
    assert_eq!(moves(&ops), 4);
}

#[test]
fn shuffle_moves_off_longest_chain() {
    // Old positions in new order: 1 3 0 2 4; a longest chain has length 3.
    let (ops, out) = step(&[1, 2, 3, 4, 5], &[2, 4, 1, 3, 5]);
    assert_eq!(out, "24135");
    assert_eq!(moves(&ops), 2);
}

#[test]
fn move_one_row_to_front() {
    let (ops, out) = step(&[1, 2, 3, 4], &[4, 1, 2, 3]);
    assert_eq!(out, "4123");
    assert_eq!(ops, vec![Op::Move { key: 4, before: Some(1) }]);
}

#[test]
fn each_key_named_once() {
    let (ops, _) = step(&[1, 2, 3, 4, 5, 6], &[6, 7, 2, 1, 8, 4]);
    let mut keys: Vec<u64> = ops
        .iter()
        .map(|op| match *op {
            Op::Remove { key } | Op::Insert { key, .. } | Op::Move { key, .. } => key,
        })
        .collect();
    let n = keys.len();
    keys.sort();
    keys.dedup();
    assert_eq!(keys.len(), n);
    assert!(ops.contains(&Op::Remove { key: 3 }));
    assert!(ops.contains(&Op::Remove { key: 5 }));
    assert!(!ops.iter().any(|op| matches!(op, Op::Remove { key: 1 } | Op::Insert { key: 1, .. })));
}

#[test]
fn longest_chain_marks_increasing_run() {
    let a = vec![Some(1), Some(3), None, Some(0), Some(2), Some(4)];
    let m = longest_chain(&a);
    assert_eq!(m.iter().filter(|b| **b).count(), 3);
    let vals: Vec<usize> = a
        .iter()
        .zip(m.iter())
        .filter(|(_, k)| **k)
        .map(|(v, _)| v.unwrap())
        .collect();
    assert!(vals.windows(2).all(|w| w[0] < w[1]));
    assert!(!m[2]);
}

#[test]
fn longest_chain_empty_and_absent() {
    assert!(longest_chain(&vec![]).is_empty());
    assert_eq!(longest_chain(&vec![None, None]), vec![false, false]);
}

#[test]
fn node_ref_unset_then_set() {
    let mut r: NodeRef<u64> = NodeRef::new();
    assert_eq!(r.try_get(), None);
    assert_eq!(r.try_get_raw(), None);
    r.set(7);
    assert_eq!(r.try_get(), Some(7));
    assert_eq!(r.get(), 7);
    assert_eq!(r.get_raw(), 7);
    r.set(9);
    assert_eq!(r.get(), 9);
    let d: NodeRef<u64> = NodeRef::default();
    assert_eq!(d.try_get(), None);
}

#[test]
fn duplicate_keys_first_wins() {
    assert_eq!(sycamore_keyed::dedup_keys(&vec![3, 1, 3, 2, 1]), vec![3, 1, 2]);
    assert_eq!(sycamore_keyed::dedup_keys(&vec![]), Vec::<u64>::new());
    assert_eq!(sycamore_keyed::dedup_keys(&vec![5, 5, 5]), vec![5]);
}

#[test]
fn node_ref_debug_shows_content() {
    let mut r: NodeRef<u64> = NodeRef::new();
    assert_eq!(format!("{:?}", r), "NodeRef(None)");
    r.set(3);
    assert_eq!(format!("{:?}", r), "NodeRef(Some(3))");
}

#[test]
fn removes_come_first() {
    let ops = reconcile(&vec![1, 2, 3, 4], &vec![5, 4, 1]);
    let first_other = ops
        .iter()
        .position(|op| !matches!(op, Op::Remove { .. }))
        .unwrap();
    assert!(ops[first_other..].iter().all(|op| !matches!(op, Op::Remove { .. })));
    assert_eq!(first_other, 2);
}
