use vstd::prelude::*;

use crate::chain::{count_true, is_chain, lemma_count_true_all_false};
use crate::reconcile::{old_positions, op_fits, position_index, reconcile, retained_mask};
use crate::script::{apply_ops, count_moves, is_insert_of, is_remove_of, op_key, runs, Op};

verus! {

broadcast use vstd::std_specs::hash::group_hash_axioms;

/// For each new position, whether its key is new (the row is created).
pub open spec fn created_mask(old: Seq<u64>, new: Seq<u64>) -> Seq<bool> {
    Seq::new(new.len(), |q: int| !old.contains(new[q]))
}

/// The child scopes of one list, by handle; a handle is never reused, so a
/// disposed scope stays dead.
pub struct ScopeArena {
    alive: Vec<bool>,
}

impl View for ScopeArena {
    type V = Seq<bool>;

    closed spec fn view(&self) -> Seq<bool> {
        self.alive@
    }
}

impl ScopeArena {
    pub fn new() -> (r: Self)
        ensures
            r@.len() == 0,
    {
        ScopeArena { alive: Vec::new() }
    }

    /// Opens a fresh scope.
    pub fn create(&mut self) -> (h: usize)
        ensures
            h == old(self)@.len(),
            final(self)@ == old(self)@.push(true),
    {
        let h = self.alive.len();
        self.alive.push(true);
        h
    }

    /// Disposes a live scope.
    pub fn dispose(&mut self, h: usize)
        requires
            h < old(self)@.len(),
            old(self)@[h as int],
        ensures
            final(self)@ == old(self)@.update(h as int, false),
    {
        self.alive.set(h, false);
    }

    pub fn is_alive(&self, h: usize) -> (r: bool)
        ensures
            r == (h < self@.len() && self@[h as int]),
    {
        h < self.alive.len() && self.alive[h]
    }
}

/// The rendered rows of a keyed list: their keys in rendered order, and the
/// scope that owns each row.
pub struct KeyedList {
    pub keys: Vec<u64>,
    pub scopes: Vec<usize>,
    pub arena: ScopeArena,
}

impl KeyedList {
    /// Distinct keys, one live scope per row, no scope shared by two rows.
    pub open spec fn wf(&self) -> bool {
        &&& self.keys@.no_duplicates()
        &&& self.scopes@.len() == self.keys@.len()
        &&& forall|i: int|
            0 <= i < self.scopes@.len() ==> #[trigger] self.scopes@[i] < self.arena@.len()
                && self.arena@[self.scopes@[i] as int]
        &&& forall|i: int, j: int|
            0 <= i < j < self.scopes@.len() ==> #[trigger] self.scopes@[i]
                != #[trigger] self.scopes@[j]
    }

    pub fn new() -> (r: Self)
        ensures
            r.wf(),
            r.keys@.len() == 0,
    {
        KeyedList { keys: Vec::new(), scopes: Vec::new(), arena: ScopeArena::new() }
    }

    /// Brings the rows in line with `new`: a retained row keeps its scope, a
    /// row that left has its scope disposed, a new row gets a fresh scope.
    /// Returns the script that brings the output nodes into the new order.
    pub fn update(&mut self, new: &Vec<u64>) -> (ops: Vec<Op>)
        requires
            old(self).wf(),
            new@.no_duplicates(),
        ensures
            final(self).wf(),
            final(self).keys@ == new@,
            runs(old(self).keys@, ops@),
            apply_ops(old(self).keys@, ops@) == new@,
            forall|q: int|
                0 <= q < new@.len() && old(self).keys@.contains(#[trigger] new@[q]) ==> final(self).scopes@[q] == old(self).scopes@[old(self).keys@.index_of(new@[q])],
            forall|q: int|
                0 <= q < new@.len() && !old(self).keys@.contains(#[trigger] new@[q]) ==> final(self).scopes@[q] >= old(self).arena@.len(),
            forall|i: int|
                0 <= i < old(self).keys@.len() && !new@.contains(#[trigger] old(self).keys@[i])
                    ==> !final(self).arena@[old(self).scopes@[i] as int],
            forall|h: int|
                0 <= h < old(self).arena@.len() && !old(self).arena@[h] ==> !final(self).arena@[h],
            final(self).arena@.len() >= old(self).arena@.len(),
            final(self).arena@.len() == old(self).arena@.len() + count_true(
                created_mask(old(self).keys@, new@),
            ),
            forall|h: int|
                old(self).arena@.len() <= h < final(self).arena@.len() ==> #[trigger] final(self).arena@[h] && exists|q: int|
                    0 <= q < new@.len() && !old(self).keys@.contains(new@[q])
                        && final(self).scopes@[q] == h,
            forall|t: int| 0 <= t < ops.len() ==> op_fits(old(self).keys@, new@, #[trigger] ops@[t]),
            forall|t: int, u: int|
                0 <= t < u < ops.len() ==> op_key(#[trigger] ops@[t]) != op_key(#[trigger] ops@[u]),
            forall|k: u64|
                old(self).keys@.contains(k) && !new@.contains(k) ==> exists|t: int|
                    0 <= t < ops.len() && #[trigger] is_remove_of(ops@[t], k),
            forall|k: u64|
                new@.contains(k) && !old(self).keys@.contains(k) ==> exists|t: int|
                    0 <= t < ops.len() && #[trigger] is_insert_of(ops@[t], k),
            forall|js: Seq<int>|
                #[trigger] is_chain(old_positions(old(self).keys@, new@), js) ==> count_moves(ops@)
                    + js.len() <= count_true(retained_mask(old(self).keys@, new@)),
            forall|t: int, u: int|
                0 <= t < u < ops.len() && (#[trigger] ops@[u]) is Remove ==> (
                #[trigger] ops@[t]) is Remove,
            old(self).keys@ == new@ ==> ops@.len() == 0 && final(self).arena@.len() == old(self).arena@.len(),
    {
        let ops = reconcile(&self.keys, new);
        let old_pos = position_index(&self.keys);
        let new_pos = position_index(new);
        let ghost a0 = self.arena@;
        let ghost keys0 = self.keys@;
        let ghost scopes0 = self.scopes@;
        let mut i: usize = 0;
        while i < self.keys.len()
            invariant
                i <= self.keys.len(),
                self.keys@ == keys0,
                self.scopes@ == scopes0,
                scopes0.len() == keys0.len(),
                forall|t: int|
                    0 <= t < scopes0.len() ==> #[trigger] scopes0[t] < a0.len() && a0[scopes0[t] as int],
                forall|t: int, u: int|
                    0 <= t < u < scopes0.len() ==> #[trigger] scopes0[t] != #[trigger] scopes0[u],
                forall|k: u64| #[trigger] new_pos@.contains_key(k) <==> new@.contains(k),
                self.arena@.len() == a0.len(),
                forall|t: int|
                    0 <= t < scopes0.len() ==> self.arena@[#[trigger] scopes0[t] as int] == !(t < i
                        && !new@.contains(keys0[t])),
                forall|h: int| 0 <= h < a0.len() && !a0[h] ==> !#[trigger] self.arena@[h],
            decreases self.keys.len() - i,
        {
            let k = self.keys[i];
            if !new_pos.contains_key(&k) {
                let h = self.scopes[i];
                self.arena.dispose(h);
                proof {
                    assert forall|t: int| 0 <= t < scopes0.len() implies self.arena@[
                        #[trigger] scopes0[t] as int] == !(t < i + 1 && !new@.contains(keys0[t])) by {
                        if t != i {
                            assert(scopes0[t] != scopes0[i as int]);
                        }
                    }
                }
            }
            i = i + 1;
        }
        let ghost a1 = self.arena@;
        let mut ns: Vec<usize> = Vec::new();
        let mut q: usize = 0;
        while q < new.len()
            invariant
                q <= new.len(),
                ns.len() == q,
                self.keys@ == keys0,
                self.scopes@ == scopes0,
                keys0.no_duplicates(),
                new@.no_duplicates(),
                scopes0.len() == keys0.len(),
                forall|t: int|
                    0 <= t < scopes0.len() ==> #[trigger] scopes0[t] < a0.len(),
                forall|t: int, u: int|
                    0 <= t < u < scopes0.len() ==> #[trigger] scopes0[t] != #[trigger] scopes0[u],
                forall|k: u64| #[trigger] old_pos@.contains_key(k) <==> keys0.contains(k),
                forall|k: u64| keys0.contains(k) ==> old_pos@[k] as int == keys0.index_of(k),
                a1.len() == a0.len(),
                self.arena@.len() >= a0.len(),
                forall|h: int| 0 <= h < a0.len() ==> #[trigger] self.arena@[h] == a1[h],
                forall|h: int| a0.len() <= h < self.arena@.len() ==> #[trigger] self.arena@[h],
                forall|t: int|
                    0 <= t < scopes0.len() && new@.contains(keys0[t]) ==> #[trigger] a1[
                        scopes0[t] as int],
                forall|r: int|
                    0 <= r < q && keys0.contains(new@[r]) ==> #[trigger] ns@[r]
                        == scopes0[keys0.index_of(new@[r])],
                forall|r: int|
                    0 <= r < q && !keys0.contains(new@[r]) ==> a0.len() <= #[trigger] ns@[r]
                        < self.arena@.len(),
                forall|r1: int, r2: int|
                    0 <= r1 < r2 < q && !keys0.contains(new@[r1]) && !keys0.contains(new@[r2])
                        ==> #[trigger] ns@[r1] < #[trigger] ns@[r2],
                self.arena@.len() == a0.len() + count_true(created_mask(keys0, new@).take(q as int)),
                forall|h: int|
                    a0.len() <= h < self.arena@.len() ==> #[trigger] self.arena@[h] && exists|r: int|
                        0 <= r < q && !keys0.contains(new@[r]) && ns@[r] == h,
            decreases new.len() - q,
        {
            let k = new[q];
            let ghost ns0 = ns@;
            let ghost len0 = self.arena@.len();
            let ghost arena0 = self.arena@;
            proof {
                let cm = created_mask(keys0, new@);
                assert(cm.take(q as int + 1).drop_last() =~= cm.take(q as int));
                assert(cm.take(q as int + 1).last() == !keys0.contains(k));
            }
            match old_pos.get(&k) {
                Some(p) => {
                    ns.push(self.scopes[*p]);
                },
                None => {
                    let h = self.arena.create();
                    ns.push(h);
                },
            }
            proof {
                assert(self.arena@.len() == len0 || (self.arena@.len() == len0 + 1
                    && self.arena@ == arena0.push(true) && ns@[q as int] == len0 && !keys0.contains(k)));
                assert forall|h: int| a0.len() <= h < self.arena@.len() implies #[trigger] self.arena@[h]
                    && exists|r: int| 0 <= r < q + 1 && !keys0.contains(new@[r]) && ns@[r] == h by {
                    if h < len0 {
                        assert(arena0[h]);
                        let r = choose|r: int| 0 <= r < q && !keys0.contains(new@[r]) && ns0[r] == h;
                        assert(ns@[r] == ns0[r]);
                    } else {
                        assert(ns@[q as int] == h);
                    }
                }
            }
            q = q + 1;
            assert forall|h: int| a0.len() <= h < self.arena@.len() implies #[trigger] self.arena@[h]
                && exists|r: int| 0 <= r < q && !keys0.contains(new@[r]) && ns@[r] == h by {
                assert(self.arena@[h]);
            }
        }
        proof {
            assert forall|r: int|
                0 <= r < new@.len() implies #[trigger] ns@[r] < self.arena@.len()
                && self.arena@[ns@[r] as int] by {
                if keys0.contains(new@[r]) {
                    let t = keys0.index_of(new@[r]);
                    assert(0 <= t < keys0.len() && keys0[t] == new@[r]);
                    assert(new@.contains(keys0[t]));
                    assert(a1[scopes0[t] as int]);
                }
            }
            assert forall|r1: int, r2: int|
                0 <= r1 < r2 < new@.len() implies #[trigger] ns@[r1] != #[trigger] ns@[r2] by {
                if keys0.contains(new@[r1]) && keys0.contains(new@[r2]) {
                    let t1 = keys0.index_of(new@[r1]);
                    let t2 = keys0.index_of(new@[r2]);
                    assert(keys0[t1] == new@[r1] && keys0[t2] == new@[r2]);
                    assert(new@[r1] != new@[r2]);
                    assert(t1 != t2);
                    if t1 < t2 {
                        assert(scopes0[t1] != scopes0[t2]);
                    } else {
                        assert(scopes0[t2] != scopes0[t1]);
                    }
                } else if keys0.contains(new@[r1]) {
                    let t1 = keys0.index_of(new@[r1]);
                    assert(0 <= t1 < keys0.len() && keys0[t1] == new@[r1]);
                    assert(scopes0[t1] < a0.len());
                } else if keys0.contains(new@[r2]) {
                    let t2 = keys0.index_of(new@[r2]);
                    assert(0 <= t2 < keys0.len() && keys0[t2] == new@[r2]);
                    assert(scopes0[t2] < a0.len());
                }
            }
        }
        let ghost nsf = ns@;
        let ghost af = self.arena@;
        assert forall|h: int| a0.len() <= h < af.len() implies #[trigger] af[h] && exists|r: int|
            0 <= r < new@.len() && !keys0.contains(new@[r]) && nsf[r] == h by {
            assert(self.arena@[h]);
            let r = choose|r: int| 0 <= r < new@.len() && !keys0.contains(new@[r]) && ns@[r] == h;
            assert(nsf[r] == h);
        }
        self.keys = new.clone();
        self.scopes = ns;
        proof {
            assert(self.keys@ =~= new@);
            assert forall|h: int| a0.len() <= h < self.arena@.len() implies #[trigger] self.arena@[h]
                && exists|r: int| 0 <= r < new@.len() && !keys0.contains(new@[r]) && self.scopes@[r] == h by {
                assert(af[h]);
                let r = choose|r: int| 0 <= r < new@.len() && !keys0.contains(new@[r]) && nsf[r] == h;
                assert(self.scopes@[r] == h);
            }
            assert(created_mask(keys0, new@).take(new@.len() as int) =~= created_mask(keys0, new@));
            if keys0 == new@ {
                assert forall|r: int| 0 <= r < new@.len() implies !created_mask(keys0, new@)[r] by {
                    assert(keys0.contains(new@[r]));
                }
                lemma_count_true_all_false(created_mask(keys0, new@));
            }
        }
        ops
    }
}

} // verus!
