use std::collections::HashMap;
use vstd::prelude::*;

use crate::chain::{count_true, is_chain, longest_chain, mask_is_chain};
use crate::script::{
    op_ok, apply_op, apply_ops, count_moves, insert_key, is_insert_of, is_remove_of, lemma_index_of_in,
    lemma_index_of_unique, lemma_insert_key, lemma_push_op, lemma_remove_key, op_key, remove_key,
    runs, Op,
};

verus! {

broadcast use vstd::std_specs::hash::group_hash_axioms;

/// For each new position, the old position of its key, if the key was there before.
pub open spec fn old_positions(old: Seq<u64>, new: Seq<u64>) -> Seq<Option<usize>> {
    Seq::new(
        new.len(),
        |q: int|
            if old.contains(new[q]) {
                Some(old.index_of(new[q]) as usize)
            } else {
                None
            },
    )
}

/// For each new position, whether its key was there before (the row is retained).
pub open spec fn retained_mask(old: Seq<u64>, new: Seq<u64>) -> Seq<bool> {
    Seq::new(new.len(), |q: int| old.contains(new[q]))
}

/// What each kind of operation may name: removed keys were only in the old
/// order, inserted keys only in the new one, moved keys in both.
pub open spec fn op_fits(old: Seq<u64>, new: Seq<u64>, op: Op) -> bool {
    match op {
        Op::Remove { key } => old.contains(key) && !new.contains(key),
        Op::Insert { key, .. } => !old.contains(key) && new.contains(key),
        Op::Move { key, .. } => old.contains(key) && new.contains(key),
    }
}

proof fn lemma_count_front(s: Seq<bool>, j: int)
    requires
        0 <= j < s.len(),
    ensures
        count_true(s.subrange(j, s.len() as int)) == count_true(s.subrange(j + 1, s.len() as int))
            + if s[j] {
            1nat
        } else {
            0nat
        },
    decreases s.len() - j,
{
    let a = s.subrange(j, s.len() as int);
    let b = s.subrange(j + 1, s.len() as int);
    if j == s.len() - 1 {
        assert(a.drop_last() =~= Seq::<bool>::empty());
        assert(b =~= Seq::<bool>::empty());
    } else {
        let s2 = s.drop_last();
        lemma_count_front(s2, j);
        assert(a.drop_last() =~= s2.subrange(j, s2.len() as int));
        assert(b.drop_last() =~= s2.subrange(j + 1, s2.len() as int));
    }
}

proof fn lemma_index_lower(cur: Seq<u64>, new: Seq<u64>, q: int)
    requires
        0 <= q < new.len(),
        forall|p: int| 0 <= p < new.len() ==> cur.contains(#[trigger] new[p]),
        forall|p: int|
            0 <= p < new.len() - 1 ==> cur.index_of(#[trigger] new[p]) < cur.index_of(new[p + 1]),
    ensures
        cur.index_of(new[q]) >= q,
    decreases q,
{
    if q > 0 {
        lemma_index_lower(cur, new, q - 1);
        assert(cur.index_of(new[q - 1]) < cur.index_of(new[q]));
    } else {
        lemma_index_of_in(cur, new[q]);
    }
}

proof fn lemma_index_upper(cur: Seq<u64>, new: Seq<u64>, q: int)
    requires
        0 <= q < new.len(),
        cur.len() == new.len(),
        forall|p: int| 0 <= p < new.len() ==> cur.contains(#[trigger] new[p]),
        forall|p: int|
            0 <= p < new.len() - 1 ==> cur.index_of(#[trigger] new[p]) < cur.index_of(new[p + 1]),
    ensures
        cur.index_of(new[q]) <= q,
    decreases new.len() - q,
{
    lemma_index_of_in(cur, new[q]);
    if q < new.len() - 1 {
        lemma_index_upper(cur, new, q + 1);
    }
}

/// Two duplicate-free orders over the same keys, where each key of `new` sits
/// before the next one in `cur`, are the same order.
proof fn lemma_same_order(cur: Seq<u64>, new: Seq<u64>)
    requires
        cur.no_duplicates(),
        new.no_duplicates(),
        forall|z: u64| #[trigger] cur.contains(z) <==> new.contains(z),
        forall|p: int|
            0 <= p < new.len() - 1 ==> cur.index_of(#[trigger] new[p]) < cur.index_of(new[p + 1]),
    ensures
        cur == new,
{
    assert(cur.to_set() =~= new.to_set());
    cur.unique_seq_to_set();
    new.unique_seq_to_set();
    assert forall|p: int| 0 <= p < new.len() implies cur.contains(#[trigger] new[p]) by {
        assert(new.contains(new[p]));
    }
    assert forall|q: int| 0 <= q < new.len() implies cur[q] == new[q] by {
        lemma_index_lower(cur, new, q);
        lemma_index_upper(cur, new, q);
        lemma_index_of_in(cur, new[q]);
    }
    assert(cur =~= new);
}

proof fn lemma_chain_index(a: Seq<Option<usize>>, js: Seq<int>, t: int)
    requires
        is_chain(a, js),
        0 <= t < js.len(),
    ensures
        js[t] >= t,
    decreases t,
{
    if t > 0 {
        lemma_chain_index(a, js, t - 1);
        assert(js[t - 1] < js[t]);
    }
}

proof fn lemma_count_all_true(m: Seq<bool>)
    requires
        forall|i: int| 0 <= i < m.len() ==> m[i],
    ensures
        count_true(m) == m.len(),
    decreases m.len(),
{
    if m.len() > 0 {
        lemma_count_all_true(m.drop_last());
    }
}

/// When nothing changes, no chain is longer than the number of rows.
proof fn lemma_unchanged_bound(s: Seq<u64>)
    ensures
        forall|js: Seq<int>|
            #[trigger] is_chain(old_positions(s, s), js) ==> js.len() <= count_true(
                retained_mask(s, s),
            ),
{
    let rm = retained_mask(s, s);
    assert forall|i: int| 0 <= i < rm.len() implies rm[i] by {
        assert(s.contains(s[i]));
    }
    lemma_count_all_true(rm);
    assert forall|js: Seq<int>| #[trigger] is_chain(old_positions(s, s), js) implies js.len()
        <= count_true(rm) by {
        if js.len() > 0 {
            lemma_chain_index(old_positions(s, s), js, js.len() - 1);
        }
    }
}

/// `s` with each key after its first occurrence dropped.
pub open spec fn first_occurrences(s: Seq<u64>) -> Seq<u64>
    decreases s.len(),
{
    if s.len() == 0 {
        s
    } else {
        let r = first_occurrences(s.drop_last());
        if r.contains(s.last()) {
            r
        } else {
            r.push(s.last())
        }
    }
}

proof fn lemma_first_occurrences(s: Seq<u64>)
    ensures
        first_occurrences(s).no_duplicates(),
        forall|k: u64| #[trigger] first_occurrences(s).contains(k) <==> s.contains(k),
    decreases s.len(),
{
    if s.len() > 0 {
        let d = s.drop_last();
        lemma_first_occurrences(d);
        let r = first_occurrences(d);
        assert forall|k: u64| #[trigger] first_occurrences(s).contains(k) <==> s.contains(k) by {
            if s.contains(k) && k != s.last() {
                let i = s.index_of(k);
                lemma_index_of_in(s, k);
                assert(d[i] == k);
                assert(d.contains(k));
            }
            if d.contains(k) {
                let i = d.index_of(k);
                lemma_index_of_in(d, k);
                assert(s[i] == k);
            }
            if !r.contains(s.last()) {
                assert(r.push(s.last())[r.len() as int] == s.last());
                if r.push(s.last()).contains(k) && k != s.last() {
                    let i = r.push(s.last()).index_of(k);
                    lemma_index_of_in(r.push(s.last()), k);
                    assert(r[i] == k);
                }
                if r.contains(k) {
                    let i = r.index_of(k);
                    lemma_index_of_in(r, k);
                    assert(r.push(s.last())[i] == k);
                }
            }
            assert(s[s.len() - 1] == s.last());
        }
    }
}

/// The keys with duplicates removed, the first occurrence of each winning.
pub fn dedup_keys(keys: &Vec<u64>) -> (r: Vec<u64>)
    ensures
        r@ == first_occurrences(keys@),
        r@.no_duplicates(),
        forall|k: u64| #[trigger] r@.contains(k) <==> keys@.contains(k),
{
    let mut r: Vec<u64> = Vec::new();
    let mut seen: HashMap<u64, usize> = HashMap::new();
    let mut i: usize = 0;
    while i < keys.len()
        invariant
            i <= keys.len(),
            r@ == first_occurrences(keys@.take(i as int)),
            forall|k: u64| #[trigger] seen@.contains_key(k) <==> r@.contains(k),
        decreases keys.len() - i,
    {
        let k = keys[i];
        assert(keys@.take(i as int + 1).drop_last() =~= keys@.take(i as int));
        if !seen.contains_key(&k) {
            let ghost r_before = r@;
            let ghost seen_before = seen@;
            seen.insert(k, i);
            r.push(k);
            proof {
                assert forall|kk: u64| #[trigger] seen@.contains_key(kk) <==> r@.contains(kk) by {
                    let r0 = r@.drop_last();
                    assert(r0 =~= r_before);
                    assert(seen@ == seen_before.insert(k, i));
                    assert(seen_before.contains_key(kk) <==> r_before.contains(kk));
                    assert(r@[r@.len() - 1] == k);
                    if r@.contains(kk) && kk != k {
                        let j = r@.index_of(kk);
                        lemma_index_of_in(r@, kk);
                        assert(r0[j] == kk);
                    }
                    if r0.contains(kk) {
                        let j = r0.index_of(kk);
                        lemma_index_of_in(r0, kk);
                        assert(r@[j] == kk);
                    }
                }
            }
        }
        i = i + 1;
    }
    assert(keys@.take(keys.len() as int) =~= keys@);
    proof {
        lemma_first_occurrences(keys@);
    }
    r
}

/// Positions of the keys of `v`, by key.
pub(crate) fn position_index(v: &Vec<u64>) -> (m: HashMap<u64, usize>)
    requires
        v@.no_duplicates(),
    ensures
        forall|k: u64| #[trigger] m@.contains_key(k) <==> v@.contains(k),
        forall|k: u64| v@.contains(k) ==> m@[k] as int == v@.index_of(k),
{
    let mut m: HashMap<u64, usize> = HashMap::new();
    let mut i: usize = 0;
    while i < v.len()
        invariant
            i <= v.len(),
            v@.no_duplicates(),
            forall|t: int| 0 <= t < i ==> #[trigger] m@.contains_key(v@[t]) && m@[v@[t]] == t,
            forall|k: u64|
                #[trigger] m@.contains_key(k) ==> m@[k] < i && v@[m@[k] as int] == k,
        decreases v.len() - i,
    {
        m.insert(v[i], i);
        i = i + 1;
    }
    proof {
        assert forall|k: u64| v@.contains(k) implies m@.contains_key(k) && m@[k] as int
            == #[trigger] v@.index_of(k) by {
            lemma_index_of_in(v@, k);
            assert(m@.contains_key(v@[v@.index_of(k)]));
        }
        assert forall|k: u64| #[trigger] m@.contains_key(k) implies v@.contains(k) by {
            lemma_index_of_unique(v@, m@[k] as int, k);
        }
    }
    m
}

/// Whether two key orders are the same.
fn same_keys(a: &Vec<u64>, b: &Vec<u64>) -> (r: bool)
    ensures
        r == (a@ == b@),
{
    if a.len() != b.len() {
        return false;
    }
    let mut i: usize = 0;
    while i < a.len()
        invariant
            a.len() == b.len(),
            i <= a.len(),
            forall|t: int| 0 <= t < i ==> a@[t] == b@[t],
        decreases a.len() - i,
    {
        if a[i] != b[i] {
            return false;
        }
        i = i + 1;
    }
    assert(a@ =~= b@);
    true
}

/// The state of the walk over the new order, once positions `j..` are placed.
#[verifier::opaque]
pub open spec fn walk_inv(
    old: Seq<u64>,
    new: Seq<u64>,
    keep: Seq<bool>,
    rm: Seq<bool>,
    cur: Seq<u64>,
    ops: Seq<Op>,
    next: Option<u64>,
    j: int,
) -> bool {
    let n = new.len() as int;
    &&& 0 <= j <= n
    &&& keep.len() == n
    &&& mask_is_chain(old_positions(old, new), keep)
    &&& rm == retained_mask(old, new)
    &&& old.no_duplicates()
    &&& new.no_duplicates()
    &&& next == if j < n {
        Some(new[j])
    } else {
        None
    }
    &&& runs(old, ops)
    &&& apply_ops(old, ops) == cur
    &&& cur.no_duplicates()
    &&& forall|z: u64|
        #[trigger] cur.contains(z) <==> new.contains(z) && (old.contains(z) || new.index_of(z) >= j)
    &&& forall|q: int| j <= q < n - 1 ==> cur.index_of(#[trigger] new[q]) < cur.index_of(new[q + 1])
    &&& forall|q: int, p: int|
        0 <= q < j <= p < n && keep[q] ==> cur.index_of(#[trigger] new[q]) < cur.index_of(
            #[trigger] new[p],
        )
    &&& forall|q: int, p: int|
        0 <= q < p < n && #[trigger] keep[q] && #[trigger] keep[p] ==> cur.index_of(new[q])
            < cur.index_of(new[p])
    &&& forall|t: int|
        0 <= t < ops.len() ==> op_fits(old, new, #[trigger] ops[t]) && (!(ops[t] is Remove)
            ==> new.index_of(op_key(ops[t])) >= j)
    &&& forall|t: int, u: int|
        0 <= t < u < ops.len() ==> op_key(#[trigger] ops[t]) != op_key(#[trigger] ops[u])
    &&& forall|k: u64|
        old.contains(k) && !new.contains(k) ==> exists|t: int|
            0 <= t < ops.len() && #[trigger] is_remove_of(ops[t], k)
    &&& forall|k: u64|
        new.contains(k) && !old.contains(k) && new.index_of(k) >= j ==> exists|t: int|
            0 <= t < ops.len() && #[trigger] is_insert_of(ops[t], k)
    &&& forall|t: int, u: int|
        0 <= t < u < ops.len() && (#[trigger] ops[u]) is Remove ==> (#[trigger] ops[t]) is Remove
    &&& count_moves(ops) + count_true(keep.subrange(j, n)) == count_true(rm.subrange(j, n))
}

/// A row on the chain stays where it is.
proof fn lemma_walk_keep(
    old: Seq<u64>,
    new: Seq<u64>,
    keep: Seq<bool>,
    rm: Seq<bool>,
    cur: Seq<u64>,
    ops: Seq<Op>,
    next: Option<u64>,
    jj: int,
)
    requires
        0 <= jj,
        walk_inv(old, new, keep, rm, cur, ops, next, jj + 1),
        jj < new.len(),
        keep[jj],
    ensures
        walk_inv(old, new, keep, rm, cur, ops, Some(new[jj]), jj),
{
    reveal(walk_inv);
    let n = new.len() as int;
    let j = jj + 1;
    let k = new[jj];
    lemma_index_of_unique(new, jj, k);
    lemma_count_front(keep, jj);
    lemma_count_front(rm, jj);
    assert(old.contains(k));
    assert forall|z: u64| #[trigger] cur.contains(z) <==> new.contains(z) && (old.contains(z)
        || new.index_of(z) >= jj) by {
        if new.contains(z) {
            lemma_index_of_in(new, z);
        }
    }
    assert forall|q: int| jj <= q < n - 1 implies cur.index_of(#[trigger] new[q]) < cur.index_of(
        new[q + 1],
    ) by {
        if q == jj {
            assert(0 <= jj < j <= j < n && keep[jj]);
            assert(cur.index_of(new[jj]) < cur.index_of(new[j]));
            assert(new[q + 1] == new[j]);
        } else {
            assert(j <= q < n - 1);
            assert(cur.index_of(new[q]) < cur.index_of(new[q + 1]));
        }
    }
    assert forall|q: int, p: int|
        0 <= q < jj <= p < n && keep[q] implies cur.index_of(#[trigger] new[q]) < cur.index_of(
        #[trigger] new[p],
    ) by {
        if p == jj {
            assert(keep[q] && keep[p]);
        }
    }
    assert forall|t: int| 0 <= t < ops.len() implies op_fits(old, new, #[trigger] ops[t]) && (!(
    ops[t] is Remove) ==> new.index_of(op_key(ops[t])) >= jj) by {}
}

/// An insert or a move keeps the relative order of the other rows.
proof fn lemma_step_order(cur0: Seq<u64>, op: Op, x: u64, y: u64)
    requires
        cur0.no_duplicates(),
        op_ok(cur0, op),
        !(op is Remove),
        cur0.contains(x),
        cur0.contains(y),
        x != op_key(op),
        y != op_key(op),
    ensures
        (apply_op(cur0, op).index_of(x) < apply_op(cur0, op).index_of(y)) == (cur0.index_of(x)
            < cur0.index_of(y)),
{
    match op {
        Op::Move { key, before } => {
            lemma_remove_key(cur0, key);
            let c1 = remove_key(cur0, key);
            assert(c1.contains(x) && c1.contains(y));
            if let Some(b) = before {
                assert(c1.contains(b));
            }
            lemma_insert_key(c1, key, before);
        },
        Op::Insert { key, before } => {
            lemma_insert_key(cur0, key, before);
        },
        Op::Remove { .. } => {},
    }
}

/// An insert or a move puts its row after every row that was before `before`,
/// and right before `before`.
proof fn lemma_step_place(cur0: Seq<u64>, op: Op, before: Option<u64>, x: u64)
    requires
        cur0.no_duplicates(),
        op_ok(cur0, op),
        op == (Op::Move { key: op_key(op), before }) || op == (Op::Insert {
            key: op_key(op),
            before,
        }),
    ensures
        cur0.contains(x) && x != op_key(op) && (before matches Some(b) ==> cur0.index_of(x)
            < cur0.index_of(b)) ==> apply_op(cur0, op).index_of(x) < apply_op(cur0, op).index_of(
            op_key(op),
        ),
        before matches Some(b) ==> apply_op(cur0, op).index_of(op_key(op)) < apply_op(
            cur0,
            op,
        ).index_of(b),
{
    let k = op_key(op);
    if op is Move {
        lemma_remove_key(cur0, k);
        let c1 = remove_key(cur0, k);
        if let Some(b) = before {
            assert(c1.contains(b));
        }
        if cur0.contains(x) && x != k {
            assert(c1.contains(x));
            if let Some(b) = before {
                if cur0.index_of(x) < cur0.index_of(b) {
                    assert(b != k && cur0.contains(b));
                    assert(c1.index_of(x) < c1.index_of(b));
                }
            }
        }
        lemma_insert_key(c1, k, before);
    } else {
        lemma_insert_key(cur0, k, before);
    }
}

/// The order part of placing a row off the chain right before the row after it.
proof fn lemma_walk_op_order(
    old: Seq<u64>,
    new: Seq<u64>,
    keep: Seq<bool>,
    cur0: Seq<u64>,
    next: Option<u64>,
    jj: int,
    op: Op,
)
    requires
        0 <= jj < new.len(),
        old.no_duplicates(),
        new.no_duplicates(),
        keep.len() == new.len(),
        !keep[jj],
        mask_is_chain(old_positions(old, new), keep),
        next == if jj + 1 < new.len() {
            Some(new[jj + 1])
        } else {
            None
        },
        cur0.no_duplicates(),
        forall|z: u64|
            #[trigger] cur0.contains(z) <==> new.contains(z) && (old.contains(z) || new.index_of(z)
                >= jj + 1),
        forall|q: int|
            jj + 1 <= q < new.len() - 1 ==> cur0.index_of(#[trigger] new[q]) < cur0.index_of(
                new[q + 1],
            ),
        forall|q: int, p: int|
            0 <= q < jj + 1 <= p < new.len() && keep[q] ==> cur0.index_of(#[trigger] new[q])
                < cur0.index_of(#[trigger] new[p]),
        forall|q: int, p: int|
            0 <= q < p < new.len() && #[trigger] keep[q] && #[trigger] keep[p] ==> cur0.index_of(
                new[q],
            ) < cur0.index_of(new[p]),
        op == if old.contains(new[jj]) {
            Op::Move { key: new[jj], before: next }
        } else {
            Op::Insert { key: new[jj], before: next }
        },
    ensures
        op_ok(cur0, op),
        apply_op(cur0, op).no_duplicates(),
        forall|z: u64|
            #[trigger] apply_op(cur0, op).contains(z) <==> new.contains(z) && (old.contains(z)
                || new.index_of(z) >= jj),
        forall|q: int|
            jj <= q < new.len() - 1 ==> apply_op(cur0, op).index_of(#[trigger] new[q]) < apply_op(
                cur0,
                op,
            ).index_of(new[q + 1]),
        forall|q: int, p: int|
            0 <= q < jj <= p < new.len() && keep[q] ==> apply_op(cur0, op).index_of(
                #[trigger] new[q],
            ) < apply_op(cur0, op).index_of(#[trigger] new[p]),
        forall|q: int, p: int|
            0 <= q < p < new.len() && #[trigger] keep[q] && #[trigger] keep[p] ==> apply_op(
                cur0,
                op,
            ).index_of(new[q]) < apply_op(cur0, op).index_of(new[p]),
{
    let n = new.len() as int;
    let j = jj + 1;
    let k = new[jj];
    let cur = apply_op(cur0, op);
    lemma_index_of_unique(new, jj, k);
    if j < n {
        lemma_index_of_unique(new, j, new[j]);
        assert(cur0.contains(new[j]));
    }
    if old.contains(k) {
        lemma_remove_key(cur0, k);
        lemma_insert_key(remove_key(cur0, k), k, next);
        assert(cur == insert_key(remove_key(cur0, k), k, next));
    } else {
        lemma_insert_key(cur0, k, next);
        assert(cur == insert_key(cur0, k, next));
    }
    assert(op_ok(cur0, op));
    assert forall|z: u64| #[trigger] cur.contains(z) <==> new.contains(z) && (old.contains(z)
        || new.index_of(z) >= jj) by {
        if new.contains(z) {
            lemma_index_of_in(new, z);
        }
    }
    assert forall|q: int| jj <= q < n - 1 implies cur.index_of(#[trigger] new[q]) < cur.index_of(
        new[q + 1],
    ) by {
        lemma_index_of_unique(new, q, new[q]);
        lemma_index_of_unique(new, q + 1, new[q + 1]);
        if q == jj {
            assert(cur0.contains(new[j]));
            lemma_step_place(cur0, op, next, new[j]);
            assert(new[q + 1] == new[j]);
        } else {
            assert(cur0.contains(new[q]) && cur0.contains(new[q + 1]));
            assert(cur0.index_of(new[q]) < cur0.index_of(new[q + 1]));
            lemma_step_order(cur0, op, new[q], new[q + 1]);
        }
    }
    assert forall|q: int, p: int|
        0 <= q < jj <= p < n && keep[q] implies cur.index_of(#[trigger] new[q]) < cur.index_of(
        #[trigger] new[p],
    ) by {
        lemma_index_of_unique(new, q, new[q]);
        lemma_index_of_unique(new, p, new[p]);
        assert(old_positions(old, new)[q].is_some());
        assert(old.contains(new[q]));
        assert(cur0.contains(new[q]));
        if p > jj {
            assert(cur0.contains(new[p]));
            assert(cur0.index_of(new[q]) < cur0.index_of(new[p]));
            lemma_step_order(cur0, op, new[q], new[p]);
        } else {
            if j < n {
                assert(cur0.index_of(new[q]) < cur0.index_of(new[j]));
            }
            lemma_step_place(cur0, op, next, new[q]);
        }
    }
    assert forall|q: int, p: int|
        0 <= q < p < n && #[trigger] keep[q] && #[trigger] keep[p] implies cur.index_of(new[q])
        < cur.index_of(new[p]) by {
        lemma_index_of_unique(new, q, new[q]);
        lemma_index_of_unique(new, p, new[p]);
        assert(old_positions(old, new)[q].is_some() && old_positions(old, new)[p].is_some());
        assert(old.contains(new[q]) && old.contains(new[p]));
        assert(cur0.contains(new[q]) && cur0.contains(new[p]));
        assert(cur0.index_of(new[q]) < cur0.index_of(new[p]));
        lemma_step_order(cur0, op, new[q], new[p]);
    }
}

/// A row off the chain is inserted, or moved, right before the row after it.
proof fn lemma_walk_op(
    old: Seq<u64>,
    new: Seq<u64>,
    keep: Seq<bool>,
    rm: Seq<bool>,
    cur: Seq<u64>,
    ops: Seq<Op>,
    next: Option<u64>,
    jj: int,
    op: Op,
)
    requires
        0 <= jj,
        walk_inv(old, new, keep, rm, cur, ops, next, jj + 1),
        jj < new.len(),
        !keep[jj],
        op == if old.contains(new[jj]) {
            Op::Move { key: new[jj], before: next }
        } else {
            Op::Insert { key: new[jj], before: next }
        },
    ensures
        walk_inv(old, new, keep, rm, apply_op(cur, op), ops.push(op), Some(new[jj]), jj),
{
    reveal(walk_inv);
    let j = jj + 1;
    let k = new[jj];
    let ops0 = ops;
    let ops = ops0.push(op);
    lemma_index_of_unique(new, jj, k);
    lemma_count_front(keep, jj);
    lemma_count_front(rm, jj);
    lemma_push_op(old, ops0, op);
    assert forall|t: int, u: int|
        0 <= t < u < ops.len() && (#[trigger] ops[u]) is Remove implies (#[trigger] ops[t]) is Remove by {
        assert(ops[t] == ops0[t]);
        if u < ops0.len() {
            assert(ops[u] == ops0[u]);
        }
    }
    lemma_walk_op_order(old, new, keep, cur, next, jj, op);
    assert forall|t: int| 0 <= t < ops.len() implies op_fits(old, new, #[trigger] ops[t]) && (!(
    ops[t] is Remove) ==> new.index_of(op_key(ops[t])) >= jj) by {
        if t < ops0.len() {
            assert(ops[t] == ops0[t]);
        }
    }
    assert forall|t: int, u: int| 0 <= t < u < ops.len() implies op_key(#[trigger] ops[t])
        != op_key(#[trigger] ops[u]) by {
        if u == ops0.len() {
            assert(ops[t] == ops0[t]);
            assert(op_fits(old, new, ops0[t]));
        }
    }
    assert forall|kk: u64| old.contains(kk) && !new.contains(kk) implies exists|t: int|
        0 <= t < ops.len() && #[trigger] is_remove_of(ops[t], kk) by {
        let t = choose|t: int| 0 <= t < ops0.len() && #[trigger] is_remove_of(ops0[t], kk);
        assert(ops[t] == ops0[t]);
    }
    assert forall|kk: u64|
        new.contains(kk) && !old.contains(kk) && new.index_of(kk) >= jj implies exists|t: int|
        0 <= t < ops.len() && #[trigger] is_insert_of(ops[t], kk) by {
        if new.index_of(kk) >= j {
            let t = choose|t: int| 0 <= t < ops0.len() && #[trigger] is_insert_of(ops0[t], kk);
            assert(ops[t] == ops0[t]);
        } else {
            lemma_index_of_in(new, kk);
            assert(is_insert_of(ops[ops0.len() as int], kk));
        }
    }
}

/// Once every position is placed, the order is the new one and the script has
/// every remove and insert, with the moves counted.
proof fn lemma_walk_done(
    old: Seq<u64>,
    new: Seq<u64>,
    keep: Seq<bool>,
    rm: Seq<bool>,
    cur: Seq<u64>,
    ops: Seq<Op>,
    next: Option<u64>,
)
    requires
        walk_inv(old, new, keep, rm, cur, ops, next, 0),
    ensures
        runs(old, ops),
        apply_ops(old, ops) == new,
        forall|t: int| 0 <= t < ops.len() ==> op_fits(old, new, #[trigger] ops[t]),
        forall|t: int, u: int|
            0 <= t < u < ops.len() ==> op_key(#[trigger] ops[t]) != op_key(#[trigger] ops[u]),
        forall|k: u64|
            old.contains(k) && !new.contains(k) ==> exists|t: int|
                0 <= t < ops.len() && #[trigger] is_remove_of(ops[t], k),
        forall|k: u64|
            new.contains(k) && !old.contains(k) ==> exists|t: int|
                0 <= t < ops.len() && #[trigger] is_insert_of(ops[t], k),
        count_moves(ops) + count_true(keep) == count_true(rm),
        forall|t: int, u: int|
            0 <= t < u < ops.len() && (#[trigger] ops[u]) is Remove ==> (#[trigger] ops[t]) is Remove,
{
    reveal(walk_inv);
    let n = new.len() as int;
    assert forall|z: u64| #[trigger] cur.contains(z) <==> new.contains(z) by {
        if new.contains(z) {
            lemma_index_of_in(new, z);
        }
    }
    lemma_same_order(cur, new);
    assert(keep.subrange(0, n) =~= keep);
    assert(rm.subrange(0, n) =~= rm);
    assert forall|k: u64| new.contains(k) && !old.contains(k) implies exists|t: int|
        0 <= t < ops.len() && #[trigger] is_insert_of(ops[t], k) by {
        lemma_index_of_in(new, k);
    }
}

/// The edit script that turns the rendered order `old` into `new`: removes of
/// the rows that left, first, then, walking `new` from its end, an insert for
/// each new row and a move for each retained row that is off a longest chain
/// of rows already in relative order. Rows on that chain are not touched.
#[verifier::rlimit(100)]
#[verifier::spinoff_prover]
pub fn reconcile(old: &Vec<u64>, new: &Vec<u64>) -> (ops: Vec<Op>)
    requires
        old@.no_duplicates(),
        new@.no_duplicates(),
    ensures
        runs(old@, ops@),
        apply_ops(old@, ops@) == new@,
        forall|t: int| 0 <= t < ops.len() ==> op_fits(old@, new@, #[trigger] ops@[t]),
        forall|t: int, u: int|
            0 <= t < u < ops.len() ==> op_key(#[trigger] ops@[t]) != op_key(#[trigger] ops@[u]),
        forall|k: u64|
            old@.contains(k) && !new@.contains(k) ==> exists|t: int|
                0 <= t < ops.len() && #[trigger] is_remove_of(ops@[t], k),
        forall|k: u64|
            new@.contains(k) && !old@.contains(k) ==> exists|t: int|
                0 <= t < ops.len() && #[trigger] is_insert_of(ops@[t], k),
        forall|js: Seq<int>|
            #[trigger] is_chain(old_positions(old@, new@), js) ==> count_moves(ops@) + js.len()
                <= count_true(retained_mask(old@, new@)),
        forall|t: int, u: int|
            0 <= t < u < ops.len() && (#[trigger] ops@[u]) is Remove ==> (#[trigger] ops@[t]) is Remove,
        old@ == new@ ==> ops@.len() == 0,
{
    if same_keys(old, new) {
        proof {
            lemma_unchanged_bound(old@);
        }
        return Vec::new();
    }
    let old_pos = position_index(old);
    let new_pos = position_index(new);
    let mut ops: Vec<Op> = Vec::new();
    let ghost mut cur: Seq<u64> = old@;
    // Rows that left go first.
    let mut i: usize = 0;
    while i < old.len()
        invariant
            i <= old.len(),
            old@.no_duplicates(),
            new@.no_duplicates(),
            forall|k: u64| #[trigger] new_pos@.contains_key(k) <==> new@.contains(k),
            runs(old@, ops@),
            apply_ops(old@, ops@) == cur,
            cur.no_duplicates(),
            forall|z: u64|
                #[trigger] cur.contains(z) <==> old@.contains(z) && (new@.contains(z)
                    || old@.index_of(z) >= i),
            forall|x: u64, y: u64|
                cur.contains(x) && cur.contains(y) ==> (#[trigger] cur.index_of(x)
                    < #[trigger] cur.index_of(y) <==> old@.index_of(x) < old@.index_of(y)),
            forall|t: int|
                0 <= t < ops.len() ==> (#[trigger] ops@[t]) is Remove && op_fits(old@, new@, ops@[t])
                    && old@.index_of(op_key(ops@[t])) < i,
            forall|t: int, u: int|
                0 <= t < u < ops.len() ==> op_key(#[trigger] ops@[t]) != op_key(#[trigger] ops@[u]),
            forall|k: u64|
                old@.contains(k) && !new@.contains(k) && old@.index_of(k) < i ==> exists|t: int|
                    0 <= t < ops.len() && #[trigger] is_remove_of(ops@[t], k),
            count_moves(ops@) == 0,
        decreases old.len() - i,
    {
        let k = old[i];
        proof {
            lemma_index_of_unique(old@, i as int, k);
        }
        if !new_pos.contains_key(&k) {
            let op = Op::Remove { key: k };
            let ghost ops0 = ops@;
            proof {
                lemma_remove_key(cur, k);
                lemma_push_op(old@, ops@, op);
            }
            ops.push(op);
            proof {
                cur = remove_key(cur, k);
                assert forall|kk: u64|
                    old@.contains(kk) && !new@.contains(kk) && old@.index_of(kk) < i + 1 implies exists|
                    t: int,
                | 0 <= t < ops.len() && #[trigger] is_remove_of(ops@[t], kk) by {
                    if old@.index_of(kk) < i {
                        let t = choose|t: int| 0 <= t < ops0.len() && #[trigger] is_remove_of(ops0[t], kk);
                        assert(ops@[t] == ops0[t]);
                    } else {
                        lemma_index_of_in(old@, kk);
                        assert(is_remove_of(ops@[ops0.len() as int], kk));
                    }
                }
                assert forall|t: int, u: int|
                    0 <= t < u < ops.len() implies op_key(#[trigger] ops@[t]) != op_key(
                    #[trigger] ops@[u],
                ) by {
                    if u == ops0.len() {
                        assert(ops@[t] == ops0[t]);
                    }
                }
            }
        }
        i = i + 1;
    }
    // For each new position, the old position of its row.
    let mut a: Vec<Option<usize>> = Vec::new();
    let mut q: usize = 0;
    while q < new.len()
        invariant
            q <= new.len(),
            a.len() == q,
            old@.no_duplicates(),
            forall|k: u64| #[trigger] old_pos@.contains_key(k) <==> old@.contains(k),
            forall|k: u64| old@.contains(k) ==> old_pos@[k] as int == old@.index_of(k),
            forall|r: int| 0 <= r < q ==> #[trigger] a@[r] == old_positions(old@, new@)[r],
        decreases new.len() - q,
    {
        match old_pos.get(&new[q]) {
            Some(p) => a.push(Some(*p)),
            None => a.push(None),
        }
        q = q + 1;
    }
    assert(a@ =~= old_positions(old@, new@));
    let keep = longest_chain(&a);
    let ghost rm = retained_mask(old@, new@);
    let n = new.len();
    proof {
        assert(keep@.subrange(n as int, n as int) =~= Seq::<bool>::empty());
        assert(rm.subrange(n as int, n as int) =~= Seq::<bool>::empty());
        assert forall|z: u64| #[trigger] cur.contains(z) <==> new@.contains(z) && (old@.contains(z)
            || new@.index_of(z) >= n) by {
            if new@.contains(z) {
                lemma_index_of_in(new@, z);
            }
        }
        assert forall|q: int, p: int|
            0 <= q < p < n && #[trigger] keep@[q] && #[trigger] keep@[p] implies cur.index_of(
            new@[q],
        ) < cur.index_of(new@[p]) by {
            lemma_index_of_unique(new@, q, new@[q]);
            lemma_index_of_unique(new@, p, new@[p]);
        }
    }
    proof {
        assert forall|k: u64| old@.contains(k) && !new@.contains(k) implies exists|t: int|
            0 <= t < ops.len() && #[trigger] is_remove_of(ops@[t], k) by {
            lemma_index_of_in(old@, k);
        }
        assert forall|k: u64| new@.contains(k) && !old@.contains(k) && new@.index_of(k) >= n
            implies exists|t: int| 0 <= t < ops.len() && #[trigger] is_insert_of(ops@[t], k) by {
            lemma_index_of_in(new@, k);
        }
    }
    // Walk the new order from its end; `next` is the row just after position j.
    let mut j: usize = n;
    let mut next: Option<u64> = None;
    proof {
        reveal(walk_inv);
    }
    while j > 0
        invariant
            j <= n,
            n == new.len(),
            keep.len() == n,
            rm == retained_mask(old@, new@),
            forall|k: u64| #[trigger] old_pos@.contains_key(k) <==> old@.contains(k),
            walk_inv(old@, new@, keep@, rm, cur, ops@, next, j as int),
        decreases j,
    {
        let k = new[j - 1];
        let ghost jj = (j - 1) as int;
        if keep[j - 1] {
            proof {
                lemma_walk_keep(old@, new@, keep@, rm, cur, ops@, next, jj);
            }
        } else {
            let op = if old_pos.contains_key(&k) {
                Op::Move { key: k, before: next }
            } else {
                Op::Insert { key: k, before: next }
            };
            proof {
                lemma_walk_op(old@, new@, keep@, rm, cur, ops@, next, jj, op);
                cur = apply_op(cur, op);
            }
            ops.push(op);
        }
        next = Some(k);
        j = j - 1;
    }
    proof {
        lemma_walk_done(old@, new@, keep@, rm, cur, ops@, next);
    }
    ops
}

} // verus!
