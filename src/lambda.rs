use vstd::prelude::*;
use crate::rank::lemma_sorted_unique;

verus! {

/// Pair `p` comes strictly before pair `q` in lexicographic order.
pub open spec fn lex_lt(p: (usize, usize), q: (usize, usize)) -> bool {
    p.0 < q.0 || (p.0 == q.0 && p.1 < q.1)
}

/// `pairs` lists, in lexicographic order and once each, exactly the rank
/// pairs `(r1, r2)` whose first label is strictly greater than the second.
pub open spec fn is_label_pairs(labels: Seq<u64>, pairs: Seq<(usize, usize)>) -> bool {
    &&& forall|k: int|
        0 <= k < pairs.len() ==> {
            &&& (#[trigger] pairs[k]).0 < labels.len()
            &&& pairs[k].1 < labels.len()
            &&& labels[pairs[k].0 as int] > labels[pairs[k].1 as int]
        }
    &&& forall|a: int, b: int|
        0 <= a < labels.len() && 0 <= b < labels.len() && labels[a] > labels[b] ==> pairs.contains(
            (a as usize, b as usize),
        )
    &&& forall|k1: int, k2: int| 0 <= k1 < k2 < pairs.len() ==> lex_lt(#[trigger] pairs[k1], #[trigger] pairs[k2])
}

/// The ordered rank pairs of one query that carry a lambda: positions `r1`
/// and `r2` of the labels in predicted order with `labels[r1] > labels[r2]`.
/// Pairs with equal labels contribute nothing and are left out.
pub fn label_pairs(labels: &Vec<u64>) -> (pairs: Vec<(usize, usize)>)
    ensures
        is_label_pairs(labels@, pairs@),
{
    let n = labels.len();
    let mut pairs: Vec<(usize, usize)> = Vec::new();
    let mut a: usize = 0;
    while a < n
        invariant
            n == labels@.len(),
            a <= n,
            forall|k: int|
                0 <= k < pairs@.len() ==> {
                    &&& (#[trigger] pairs@[k]).0 < a
                    &&& pairs@[k].1 < n
                    &&& labels@[pairs@[k].0 as int] > labels@[pairs@[k].1 as int]
                },
            forall|x: int, y: int|
                0 <= x < a && 0 <= y < n && labels@[x] > labels@[y] ==> pairs@.contains((x as usize, y as usize)),
            forall|k1: int, k2: int| 0 <= k1 < k2 < pairs@.len() ==> lex_lt(#[trigger] pairs@[k1], #[trigger] pairs@[k2]),
        decreases n - a,
    {
        let mut b: usize = 0;
        let ghost start = pairs@.len();
        while b < n
            invariant
                n == labels@.len(),
                a < n,
                b <= n,
                start <= pairs@.len(),
                forall|k: int|
                    0 <= k < start ==> {
                        &&& (#[trigger] pairs@[k]).0 < a
                        &&& pairs@[k].1 < n
                        &&& labels@[pairs@[k].0 as int] > labels@[pairs@[k].1 as int]
                    },
                forall|k: int|
                    start <= k < pairs@.len() ==> {
                        &&& (#[trigger] pairs@[k]).0 == a
                        &&& pairs@[k].1 < b
                        &&& labels@[pairs@[k].0 as int] > labels@[pairs@[k].1 as int]
                    },
                forall|x: int, y: int|
                    0 <= x < a && 0 <= y < n && labels@[x] > labels@[y] ==> pairs@.contains((x as usize, y as usize)),
                forall|y: int| 0 <= y < b && labels@[a as int] > labels@[y] ==> pairs@.contains((a, y as usize)),
                forall|k1: int, k2: int|
                    0 <= k1 < k2 < pairs@.len() ==> lex_lt(#[trigger] pairs@[k1], #[trigger] pairs@[k2]),
            decreases n - b,
        {
            if labels[a] > labels[b] {
                let ghost pre = pairs@;
                pairs.push((a, b));
                proof {
                    assert forall|x: int, y: int|
                        0 <= x < a && 0 <= y < n && labels@[x] > labels@[y] implies pairs@.contains(
                            (x as usize, y as usize),
                        ) by {
                        let k = choose|k: int| 0 <= k < pre.len() && pre[k] == (x as usize, y as usize);
                        assert(pairs@[k] == pre[k]);
                    }
                    assert forall|y: int| 0 <= y < b + 1 && labels@[a as int] > labels@[y] implies pairs@.contains(
                        (a, y as usize),
                    ) by {
                        if y < b {
                            let k = choose|k: int| 0 <= k < pre.len() && pre[k] == (a, y as usize);
                            assert(pairs@[k] == pre[k]);
                        } else {
                            assert(pairs@[pre.len() as int] == (a, b));
                        }
                    }
                }
            }
            b = b + 1;
        }
        a = a + 1;
    }
    pairs
}

/// When every label of a query is the same, no pair carries a lambda.
pub proof fn lemma_equal_labels_no_pairs(labels: Seq<u64>, pairs: Seq<(usize, usize)>)
    requires
        is_label_pairs(labels, pairs),
        forall|a: int, b: int| 0 <= a < labels.len() && 0 <= b < labels.len() ==> labels[a] == labels[b],
    ensures
        pairs.len() == 0,
{
    if pairs.len() > 0 {
        let p = pairs[0];
        assert(labels[p.0 as int] > labels[p.1 as int]);
    }
}

/// The pairs of a query are determined by its labels in predicted order:
/// listing them twice for the same ranking gives the same pairs, in the
/// same order.
pub proof fn lemma_label_pairs_unique(labels: Seq<u64>, left: Seq<(usize, usize)>, right: Seq<(usize, usize)>)
    requires
        is_label_pairs(labels, left),
        is_label_pairs(labels, right),
    ensures
        left == right,
{
    let lt = |p: (usize, usize), q: (usize, usize)| lex_lt(p, q);
    assert forall|i: int, j: int| 0 <= i < j < left.len() implies lt(#[trigger] left[i], #[trigger] left[j]) by {
        assert(lex_lt(left[i], left[j]));
    }
    assert forall|i: int, j: int| 0 <= i < j < right.len() implies lt(#[trigger] right[i], #[trigger] right[j]) by {
        assert(lex_lt(right[i], right[j]));
    }
    assert forall|x: (usize, usize)| left.contains(x) <==> right.contains(x) by {
        if left.contains(x) {
            let i = choose|i: int| 0 <= i < left.len() && left[i] == x;
            assert(labels[left[i].0 as int] > labels[left[i].1 as int]);
            assert(right.contains((x.0 as int as usize, x.1 as int as usize)));
        }
        if right.contains(x) {
            let i = choose|i: int| 0 <= i < right.len() && right[i] == x;
            assert(labels[right[i].0 as int] > labels[right[i].1 as int]);
            assert(left.contains((x.0 as int as usize, x.1 as int as usize)));
        }
    }
    lemma_sorted_unique(left, right, lt);
}

} // verus!
