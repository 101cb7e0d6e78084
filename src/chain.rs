use vstd::prelude::*;

verus! {

/// `js` lists positions of `a`, strictly increasing, each holding a value,
/// and the values at those positions are strictly increasing.
pub open spec fn is_chain(a: Seq<Option<usize>>, js: Seq<int>) -> bool {
    &&& forall|t: int| 0 <= t < js.len() ==> 0 <= #[trigger] js[t] < a.len() && a[js[t]].is_some()
    &&& forall|t: int, u: int|
        0 <= t < u < js.len() ==> #[trigger] js[t] < #[trigger] js[u] && a[js[t]].unwrap()
            < a[js[u]].unwrap()
}

/// Number of `true` entries.
pub open spec fn count_true(m: Seq<bool>) -> nat
    decreases m.len(),
{
    if m.len() == 0 {
        0
    } else {
        count_true(m.drop_last()) + if m.last() {
            1nat
        } else {
            0nat
        }
    }
}

/// The positions marked in `m`, in increasing order, form a chain of `a`.
pub open spec fn mask_is_chain(a: Seq<Option<usize>>, m: Seq<bool>) -> bool {
    &&& m.len() == a.len()
    &&& forall|i: int| 0 <= i < m.len() && #[trigger] m[i] ==> a[i].is_some()
    &&& forall|i: int, j: int|
        0 <= i < j < m.len() && #[trigger] m[i] && #[trigger] m[j] ==> a[i].unwrap()
            < a[j].unwrap()
}

/// Every chain ending at `j` is at most `d` long.
pub open spec fn bounded_at(a: Seq<Option<usize>>, j: int, d: int) -> bool {
    forall|js: Seq<int>|
        #[trigger] is_chain(a, js) && js.len() > 0 && js.last() == j ==> js.len() <= d
}

proof fn lemma_count_true_update(m: Seq<bool>, c: int)
    requires
        0 <= c < m.len(),
        !m[c],
    ensures
        count_true(m.update(c, true)) == count_true(m) + 1,
    decreases m.len(),
{
    let m2 = m.update(c, true);
    if c == m.len() - 1 {
        assert(m2.drop_last() =~= m.drop_last());
    } else {
        assert(m2.drop_last() =~= m.drop_last().update(c, true));
        lemma_count_true_update(m.drop_last(), c);
    }
}

pub(crate) proof fn lemma_count_true_all_false(m: Seq<bool>)
    requires
        forall|i: int| 0 <= i < m.len() ==> !m[i],
    ensures
        count_true(m) == 0,
    decreases m.len(),
{
    if m.len() > 0 {
        lemma_count_true_all_false(m.drop_last());
    }
}

/// Marks a longest chain of `a`: a longest run of positions whose values are
/// present and strictly increasing.
pub fn longest_chain(a: &Vec<Option<usize>>) -> (m: Vec<bool>)
    ensures
        mask_is_chain(a@, m@),
        forall|js: Seq<int>| #[trigger] is_chain(a@, js) ==> js.len() <= count_true(m@),
{
    let n = a.len();
    // dp[j]: length of the longest chain that ends at j; prev[j]: the position before j in it.
    let mut dp: Vec<usize> = Vec::new();
    let mut prev: Vec<Option<usize>> = Vec::new();
    let mut j: usize = 0;
    while j < n
        invariant
            n == a.len(),
            j <= n,
            dp.len() == j,
            prev.len() == j,
            forall|k: int| 0 <= k < j ==> #[trigger] dp@[k] <= k + 1,
            forall|k: int| 0 <= k < j && a@[k].is_none() ==> #[trigger] dp@[k] == 0,
            forall|k: int| 0 <= k < j && a@[k].is_some() ==> #[trigger] dp@[k] >= 1,
            forall|k: int| 0 <= k < j ==> bounded_at(a@, k, #[trigger] dp@[k] as int),
            forall|k: int|
                0 <= k < j && a@[k].is_some() && (#[trigger] prev@[k]).is_none() ==> dp@[k] == 1,
            forall|k: int|
                0 <= k < j && (#[trigger] prev@[k]).is_some() ==> {
                    let i = prev@[k].unwrap() as int;
                    &&& 0 <= i < k
                    &&& a@[i].is_some()
                    &&& a@[k].is_some()
                    &&& a@[i].unwrap() < a@[k].unwrap()
                    &&& dp@[i] + 1 == dp@[k]
                },
        decreases n - j,
    {
        match a[j] {
            None => {
                proof {
                    assert forall|js: Seq<int>|
                        #[trigger] is_chain(a@, js) && js.len() > 0 && js.last() == j implies js.len()
                        <= 0 by {
                        assert(a@[js[js.len() - 1]].is_some());
                    }
                }
                dp.push(0);
                prev.push(None);
            },
            Some(v) => {
                let mut best: usize = 0;
                let mut best_at: Option<usize> = None;
                let mut i: usize = 0;
                while i < j
                    invariant
                        n == a.len(),
                        j < n,
                        a@[j as int] == Some(v),
                        i <= j,
                        dp.len() == j,
                        prev.len() == j,
                        forall|k: int| 0 <= k < j ==> #[trigger] dp@[k] <= k + 1,
                        best <= i,
                        best_at.is_none() ==> best == 0,
                        best_at.is_some() ==> {
                            let b = best_at.unwrap() as int;
                            &&& 0 <= b < i
                            &&& a@[b].is_some()
                            &&& a@[b].unwrap() < v
                            &&& dp@[b] == best
                        },
                        forall|k: int|
                            0 <= k < i && a@[k].is_some() && a@[k].unwrap() < v ==> #[trigger] dp@[k]
                                <= best,
                    decreases j - i,
                {
                    if let Some(u) = a[i] {
                        if u < v && dp[i] > best {
                            best = dp[i];
                            best_at = Some(i);
                        }
                    }
                    i = i + 1;
                }
                proof {
                    assert forall|js: Seq<int>|
                        #[trigger] is_chain(a@, js) && js.len() > 0 && js.last() == j implies js.len()
                        <= best + 1 by {
                        if js.len() > 1 {
                            let l = js.len() - 1;
                            let p = js[l - 1];
                            let js2 = js.drop_last();
                            assert(js[l - 1] < js[l] && a@[js[l - 1]].unwrap() < a@[js[l]].unwrap());
                            assert(is_chain(a@, js2)) by {
                                assert forall|t: int, u: int|
                                    0 <= t < u < js2.len() implies #[trigger] js2[t] < #[trigger] js2[u]
                                    && a@[js2[t]].unwrap() < a@[js2[u]].unwrap() by {
                                    assert(js2[t] == js[t] && js2[u] == js[u]);
                                }
                            }
                            assert(bounded_at(a@, p, dp@[p] as int));
                            assert(js2.last() == p);
                        }
                    }
                }
                dp.push(best + 1);
                prev.push(best_at);
            },
        }
        j = j + 1;
    }
    // The position where the longest chain ends.
    let mut top: Option<usize> = None;
    let mut top_len: usize = 0;
    let mut k: usize = 0;
    while k < n
        invariant
            n == a.len(),
            dp.len() == n,
            k <= n,
            top.is_none() ==> top_len == 0,
            top.is_some() ==> top.unwrap() < k && dp@[top.unwrap() as int] == top_len && top_len
                >= 1,
            forall|q: int| 0 <= q < k ==> #[trigger] dp@[q] <= top_len,
        decreases n - k,
    {
        if dp[k] > top_len {
            top_len = dp[k];
            top = Some(k);
        }
        k = k + 1;
    }
    let mut m: Vec<bool> = Vec::new();
    let mut z: usize = 0;
    while z < n
        invariant
            z <= n,
            m.len() == z,
            forall|q: int| 0 <= q < z ==> !#[trigger] m@[q],
        decreases n - z,
    {
        m.push(false);
        z = z + 1;
    }
    proof {
        lemma_count_true_all_false(m@);
    }
    let mut cur = top;
    while cur.is_some()
        invariant
            n == a.len(),
            dp.len() == n,
            prev.len() == n,
            m.len() == n,
            forall|k: int| 0 <= k < n && a@[k].is_none() ==> #[trigger] dp@[k] == 0,
            forall|k: int|
                0 <= k < n && a@[k].is_some() && (#[trigger] prev@[k]).is_none() ==> dp@[k] == 1,
            forall|k: int|
                0 <= k < n && (#[trigger] prev@[k]).is_some() ==> {
                    let i = prev@[k].unwrap() as int;
                    &&& 0 <= i < k
                    &&& a@[i].is_some()
                    &&& a@[k].is_some()
                    &&& a@[i].unwrap() < a@[k].unwrap()
                    &&& dp@[i] + 1 == dp@[k]
                },
            mask_is_chain(a@, m@),
            cur.is_none() ==> count_true(m@) == top_len,
            cur.is_some() ==> {
                let c = cur.unwrap() as int;
                &&& 0 <= c < n
                &&& a@[c].is_some()
                &&& count_true(m@) + dp@[c] == top_len
                &&& forall|q: int|
                    0 <= q < n && #[trigger] m@[q] ==> c < q && a@[c].unwrap() < a@[q].unwrap()
            },
        decreases
            match cur {
                Some(c) => c + 1,
                None => 0,
            },
    {
        let c = cur.unwrap();
        proof {
            lemma_count_true_update(m@, c as int);
        }
        m.set(c, true);
        cur = prev[c];
    }
    proof {
        assert forall|js: Seq<int>| #[trigger] is_chain(a@, js) implies js.len() <= count_true(
            m@,
        ) by {
            if js.len() > 0 {
                let l = js.last();
                assert(bounded_at(a@, l, dp@[l] as int));
                assert(0 <= js[js.len() - 1] < a.len());
            }
        }
    }
    m
}

} // verus!
