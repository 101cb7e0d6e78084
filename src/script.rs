use vstd::prelude::*;

verus! {

/// One structural mutation of the rendered list, naming rows by key.
#[derive(Clone, Copy, Debug, PartialEq, Eq, Structural)]
pub enum Op {
    /// Dispose the row and take its nodes out of the output.
    Remove { key: u64 },
    /// Render a fresh row and insert its nodes before the row `before`, or at the end.
    Insert { key: u64, before: Option<u64> },
    /// Move the nodes of an existing row before the row `before`, or to the end.
    Move { key: u64, before: Option<u64> },
}

pub open spec fn op_key(op: Op) -> u64 {
    match op {
        Op::Remove { key } => key,
        Op::Insert { key, .. } => key,
        Op::Move { key, .. } => key,
    }
}

pub open spec fn is_remove_of(op: Op, k: u64) -> bool {
    op matches Op::Remove { key } && key == k
}

pub open spec fn is_insert_of(op: Op, k: u64) -> bool {
    op matches Op::Insert { key, .. } && key == k
}

pub open spec fn is_move(op: Op) -> bool {
    op is Move
}

/// `s` with `k` taken out.
pub open spec fn remove_key(s: Seq<u64>, k: u64) -> Seq<u64> {
    s.remove(s.index_of(k))
}

/// `s` with `k` placed right before `before`, or at the end.
pub open spec fn insert_key(s: Seq<u64>, k: u64, before: Option<u64>) -> Seq<u64> {
    match before {
        Some(b) => s.insert(s.index_of(b), k),
        None => s.push(k),
    }
}

/// Whether `op` can be carried out on the row order `s`.
pub open spec fn op_ok(s: Seq<u64>, op: Op) -> bool {
    match op {
        Op::Remove { key } => s.contains(key),
        Op::Insert { key, before } => !s.contains(key) && (before matches Some(b) ==> s.contains(
            b,
        )),
        Op::Move { key, before } => s.contains(key) && (before matches Some(b) ==> b != key
            && s.contains(b)),
    }
}

pub open spec fn apply_op(s: Seq<u64>, op: Op) -> Seq<u64> {
    match op {
        Op::Remove { key } => remove_key(s, key),
        Op::Insert { key, before } => insert_key(s, key, before),
        Op::Move { key, before } => insert_key(remove_key(s, key), key, before),
    }
}

/// The row order after carrying out `ops` in turn on `s`.
pub open spec fn apply_ops(s: Seq<u64>, ops: Seq<Op>) -> Seq<u64>
    decreases ops.len(),
{
    if ops.len() == 0 {
        s
    } else {
        apply_op(apply_ops(s, ops.drop_last()), ops.last())
    }
}

/// Every operation of `ops` can be carried out when its turn comes.
pub open spec fn runs(s: Seq<u64>, ops: Seq<Op>) -> bool
    decreases ops.len(),
{
    if ops.len() == 0 {
        true
    } else {
        runs(s, ops.drop_last()) && op_ok(apply_ops(s, ops.drop_last()), ops.last())
    }
}

/// Number of moves in `ops`.
pub open spec fn count_moves(ops: Seq<Op>) -> nat
    decreases ops.len(),
{
    if ops.len() == 0 {
        0
    } else {
        count_moves(ops.drop_last()) + if is_move(ops.last()) {
            1nat
        } else {
            0nat
        }
    }
}

pub proof fn lemma_push_op(s: Seq<u64>, ops: Seq<Op>, op: Op)
    ensures
        apply_ops(s, ops.push(op)) == apply_op(apply_ops(s, ops), op),
        runs(s, ops.push(op)) == (runs(s, ops) && op_ok(apply_ops(s, ops), op)),
        count_moves(ops.push(op)) == count_moves(ops) + if is_move(op) {
            1nat
        } else {
            0nat
        },
{
    assert(ops.push(op).drop_last() =~= ops);
}

pub proof fn lemma_index_of_unique(s: Seq<u64>, i: int, x: u64)
    requires
        s.no_duplicates(),
        0 <= i < s.len(),
        s[i] == x,
    ensures
        s.index_of(x) == i,
        s.contains(x),
{
    assert(s.contains(x));
}

pub proof fn lemma_index_of_in(s: Seq<u64>, x: u64)
    requires
        s.contains(x),
    ensures
        0 <= s.index_of(x) < s.len(),
        s[s.index_of(x)] == x,
{
}

/// Taking a row out keeps the others and their relative order.
pub proof fn lemma_remove_key(s: Seq<u64>, k: u64)
    requires
        s.no_duplicates(),
        s.contains(k),
    ensures
        remove_key(s, k).no_duplicates(),
        remove_key(s, k).len() + 1 == s.len(),
        forall|z: u64| #[trigger] remove_key(s, k).contains(z) <==> s.contains(z) && z != k,
        forall|x: u64, y: u64|
            s.contains(x) && s.contains(y) && x != k && y != k ==> (remove_key(s, k).index_of(x)
                < remove_key(s, k).index_of(y) <==> s.index_of(x) < s.index_of(y)),
{
    let p = s.index_of(k);
    lemma_index_of_in(s, k);
    let t = remove_key(s, k);
    assert forall|z: u64| #[trigger] t.contains(z) <==> s.contains(z) && z != k by {
        if t.contains(z) {
            let i = t.index_of(z);
            lemma_index_of_in(t, z);
            if i < p {
                assert(s[i] == z);
            } else {
                assert(s[i + 1] == z);
            }
        }
        if s.contains(z) && z != k {
            let i = s.index_of(z);
            lemma_index_of_in(s, z);
            if i < p {
                assert(t[i] == z);
            } else {
                assert(t[i - 1] == z);
            }
        }
    }
    assert forall|x: u64, y: u64|
        s.contains(x) && s.contains(y) && x != k && y != k implies (t.index_of(x) < t.index_of(y)
        <==> s.index_of(x) < s.index_of(y)) by {
        lemma_index_of_in(s, x);
        lemma_index_of_in(s, y);
        let ix = s.index_of(x);
        let iy = s.index_of(y);
        let jx = if ix < p { ix } else { ix - 1 };
        let jy = if iy < p { iy } else { iy - 1 };
        lemma_index_of_unique(t, jx, x);
        lemma_index_of_unique(t, jy, y);
    }
}

/// Placing a new row keeps the others and their relative order, and puts the row right
/// before `before`, or after all others.
pub proof fn lemma_insert_key(s: Seq<u64>, k: u64, before: Option<u64>)
    requires
        s.no_duplicates(),
        !s.contains(k),
        before matches Some(b) ==> s.contains(b),
    ensures
        insert_key(s, k, before).no_duplicates(),
        insert_key(s, k, before).len() == s.len() + 1,
        forall|z: u64| #[trigger] insert_key(s, k, before).contains(z) <==> s.contains(z) || z == k,
        forall|x: u64, y: u64|
            s.contains(x) && s.contains(y) ==> (insert_key(s, k, before).index_of(x) < insert_key(
                s,
                k,
                before,
            ).index_of(y) <==> s.index_of(x) < s.index_of(y)),
        forall|x: u64|
            s.contains(x) && (before matches Some(b) ==> s.index_of(x) < s.index_of(b))
                ==> #[trigger] insert_key(s, k, before).index_of(x) < insert_key(
                s,
                k,
                before,
            ).index_of(k),
        before matches Some(b) ==> insert_key(s, k, before).index_of(k) < insert_key(
            s,
            k,
            before,
        ).index_of(b),
{
    let t = insert_key(s, k, before);
    let p = match before {
        Some(b) => s.index_of(b),
        None => s.len() as int,
    };
    if let Some(b) = before {
        lemma_index_of_in(s, b);
    }
    assert(t.len() == s.len() + 1);
    assert(t[p] == k);
    assert forall|i: int| 0 <= i < t.len() implies #[trigger] t[i] == if i < p {
        s[i]
    } else if i == p {
        k
    } else {
        s[i - 1]
    } by {}
    assert(t.no_duplicates()) by {
        assert forall|i: int, j: int|
            0 <= i < t.len() && 0 <= j < t.len() && i != j implies t[i] != t[j] by {
            if i != p && j != p {
                let si = if i < p { i } else { i - 1 };
                let sj = if j < p { j } else { j - 1 };
                assert(s[si] == t[i] && s[sj] == t[j]);
            } else if i == p {
                let sj = if j < p { j } else { j - 1 };
                assert(s[sj] == t[j]);
            } else {
                let si = if i < p { i } else { i - 1 };
                assert(s[si] == t[i]);
            }
        }
    }
    lemma_index_of_unique(t, p, k);
    assert forall|x: u64| s.contains(x) implies t.index_of(x) == if s.index_of(x) < p {
        s.index_of(x)
    } else {
        s.index_of(x) + 1
    } by {
        lemma_index_of_in(s, x);
        let ix = s.index_of(x);
        let jx = if ix < p { ix } else { ix + 1 };
        lemma_index_of_unique(t, jx, x);
    }
    assert forall|z: u64| #[trigger] t.contains(z) <==> s.contains(z) || z == k by {
        if t.contains(z) && z != k {
            let i = t.index_of(z);
            lemma_index_of_in(t, z);
            if i < p {
                assert(s[i] == z);
            } else {
                assert(s[i - 1] == z);
            }
        }
        if s.contains(z) {
            lemma_index_of_in(s, z);
            let ix = s.index_of(z);
            let jx = if ix < p { ix } else { ix + 1 };
            assert(t[jx] == z);
        }
        if z == k {
            assert(t[p] == k);
        }
    }
}

} // verus!
