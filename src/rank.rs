use vstd::prelude::*;

verus! {

/// In a ranking by descending key, index `x` comes before index `y`: its
/// key is larger, or the keys are equal and `x` is the smaller index.
pub open spec fn precedes(keys: Seq<u64>, x: int, y: int) -> bool {
    keys[x] > keys[y] || (keys[x] == keys[y] && x < y)
}

/// `r` lists every index into `keys` once, strictly ordered by `precedes`:
/// the stable ranking by descending key.
pub open spec fn is_rank_desc(keys: Seq<u64>, r: Seq<usize>) -> bool {
    &&& r.len() == keys.len()
    &&& forall|j: int| 0 <= j < r.len() ==> #[trigger] r[j] < keys.len()
    &&& forall|x: int| 0 <= x < keys.len() ==> #[trigger] r.contains(x as usize)
    &&& forall|a: int, b: int|
        0 <= a < b < r.len() ==> precedes(keys, #[trigger] r[a] as int, #[trigger] r[b] as int)
}

/// Ranks the indices `0..keys.len()` by descending key; equal keys keep
/// their input order.
pub fn rank_desc(keys: &Vec<u64>) -> (r: Vec<usize>)
    ensures
        is_rank_desc(keys@, r@),
{
    let n = keys.len();
    let mut r: Vec<usize> = Vec::new();
    let mut i: usize = 0;
    while i < n
        invariant
            n == keys.len(),
            i <= n,
            r@.len() == i,
            forall|j: int| 0 <= j < r@.len() ==> #[trigger] r@[j] < i,
            forall|x: int| 0 <= x < i ==> #[trigger] r@.contains(x as usize),
            forall|a: int, b: int|
                0 <= a < b < r@.len() ==> precedes(keys@, #[trigger] r@[a] as int, #[trigger] r@[b] as int),
        decreases n - i,
    {
        let ki = keys[i];
        let mut p: usize = 0;
        while p < r.len() && keys[r[p]] >= ki
            invariant
                n == keys.len(),
                i < n,
                p <= r@.len(),
                r@.len() == i,
                forall|j: int| 0 <= j < r@.len() ==> #[trigger] r@[j] < i,
                forall|q: int| 0 <= q < p ==> keys@[#[trigger] r@[q] as int] >= ki,
            decreases r@.len() - p,
        {
            p = p + 1;
        }
        proof {
            assert forall|q: int| p <= q < r@.len() implies keys@[#[trigger] r@[q] as int] < ki by {
                if q > p {
                    assert(precedes(keys@, r@[p as int] as int, r@[q] as int));
                }
            }
        }
        let ghost old_r = r@;
        r.insert(p, i);
        proof {
            assert(r@ == old_r.insert(p as int, i));
            assert forall|x: int| 0 <= x < i + 1 implies #[trigger] r@.contains(x as usize) by {
                if x == i {
                    assert(r@[p as int] == i);
                } else {
                    assert(old_r.contains(x as usize));
                    let q = choose|q: int| 0 <= q < old_r.len() && old_r[q] == x as usize;
                    if q < p {
                        assert(r@[q] == old_r[q]);
                    } else {
                        assert(r@[q + 1] == old_r[q]);
                    }
                }
            }
            assert forall|a: int, b: int|
                0 <= a < b < r@.len() implies precedes(keys@, #[trigger] r@[a] as int, #[trigger] r@[b] as int) by {
                if b < p {
                    assert(r@[a] == old_r[a] && r@[b] == old_r[b]);
                } else if b == p {
                    assert(r@[a] == old_r[a]);
                } else if a < p {
                    assert(r@[a] == old_r[a] && r@[b] == old_r[b - 1]);
                } else if a == p {
                    assert(r@[b] == old_r[b - 1]);
                } else {
                    assert(r@[a] == old_r[a - 1] && r@[b] == old_r[b - 1]);
                }
            }
        }
        i = i + 1;
    }
    r
}

/// Two sequences that hold the same elements, each strictly ascending in
/// one asymmetric order, are the same sequence.
pub proof fn lemma_sorted_unique<T>(a: Seq<T>, b: Seq<T>, lt: spec_fn(T, T) -> bool)
    requires
        forall|x: T, y: T| #[trigger] lt(x, y) ==> !lt(y, x),
        forall|i: int, j: int| 0 <= i < j < a.len() ==> lt(#[trigger] a[i], #[trigger] a[j]),
        forall|i: int, j: int| 0 <= i < j < b.len() ==> lt(#[trigger] b[i], #[trigger] b[j]),
        forall|x: T| a.contains(x) <==> b.contains(x),
    ensures
        a == b,
    decreases a.len(),
{
    if a.len() == 0 {
        if b.len() > 0 {
            assert(b.contains(b[0]));
        }
        assert(a =~= b);
    } else {
        assert(a.contains(a[0]));
        let k = choose|k: int| 0 <= k < b.len() && b[k] == a[0];
        assert(b.contains(b[0]));
        let m = choose|m: int| 0 <= m < a.len() && a[m] == b[0];
        if k > 0 && m > 0 {
            assert(lt(b[0], b[k]));
            assert(lt(a[0], a[m]));
        }
        if k > 0 && m == 0 {
            assert(lt(b[0], b[k]));
        }
        assert(a[0] == b[0]);
        let a1 = a.drop_first();
        let b1 = b.drop_first();
        assert forall|x: T| a1.contains(x) <==> b1.contains(x) by {
            if a1.contains(x) {
                let i = choose|i: int| 0 <= i < a1.len() && a1[i] == x;
                assert(lt(a[0], a[i + 1]));
                assert(b.contains(x));
                let j = choose|j: int| 0 <= j < b.len() && b[j] == x;
                if j == 0 {
                    assert(lt(x, x));
                }
                assert(b1[j - 1] == x);
            }
            if b1.contains(x) {
                let i = choose|i: int| 0 <= i < b1.len() && b1[i] == x;
                assert(lt(b[0], b[i + 1]));
                assert(a.contains(x));
                let j = choose|j: int| 0 <= j < a.len() && a[j] == x;
                if j == 0 {
                    assert(lt(x, x));
                }
                assert(a1[j - 1] == x);
            }
        }
        assert forall|i: int, j: int| 0 <= i < j < a1.len() implies lt(#[trigger] a1[i], #[trigger] a1[j]) by {
            assert(lt(a[i + 1], a[j + 1]));
        }
        assert forall|i: int, j: int| 0 <= i < j < b1.len() implies lt(#[trigger] b1[i], #[trigger] b1[j]) by {
            assert(lt(b[i + 1], b[j + 1]));
        }
        lemma_sorted_unique(a1, b1, lt);
        assert(a1.len() == b1.len());
        assert(a.len() == b.len());
        assert(a =~= b) by {
            assert forall|i: int| 0 <= i < a.len() implies a[i] == b[i] by {
                if i > 0 {
                    assert(a[i] == a1[i - 1] && b[i] == b1[i - 1]);
                }
            }
        }
    }
}

/// The stable ranking of a list of keys is unique: ranking the same model
/// scores twice orders a query the same way.
pub proof fn lemma_rank_unique(keys: Seq<u64>, r1: Seq<usize>, r2: Seq<usize>)
    requires
        is_rank_desc(keys, r1),
        is_rank_desc(keys, r2),
    ensures
        r1 == r2,
{
    let lt = |x: usize, y: usize| precedes(keys, x as int, y as int);
    assert forall|i: int, j: int| 0 <= i < j < r1.len() implies lt(#[trigger] r1[i], #[trigger] r1[j]) by {
        assert(precedes(keys, r1[i] as int, r1[j] as int));
    }
    assert forall|i: int, j: int| 0 <= i < j < r2.len() implies lt(#[trigger] r2[i], #[trigger] r2[j]) by {
        assert(precedes(keys, r2[i] as int, r2[j] as int));
    }
    assert forall|x: usize| r1.contains(x) <==> r2.contains(x) by {
        if r1.contains(x) {
            let i = choose|i: int| 0 <= i < r1.len() && r1[i] == x;
            assert(r2.contains(x as int as usize));
        }
        if r2.contains(x) {
            let i = choose|i: int| 0 <= i < r2.len() && r2[i] == x;
            assert(r1.contains(x as int as usize));
        }
    }
    lemma_sorted_unique(r1, r2, lt);
}

} // verus!
