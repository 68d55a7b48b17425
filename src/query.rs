use vstd::prelude::*;

verus! {

/// A query segment: the start index and the length of one contiguous run
/// of instances that share a query identifier.
pub type Segment = (usize, usize);

/// The segments partition `0..qids.len()` into maximal runs of equal
/// query identifiers, in input order.
pub open spec fn is_segmentation(qids: Seq<u64>, segs: Seq<Segment>) -> bool {
    &&& qids.len() == 0 ==> segs.len() == 0
    &&& qids.len() > 0 ==> {
        &&& segs.len() > 0
        &&& segs[0].0 == 0
        &&& segs.last().0 + segs.last().1 == qids.len()
    }
    &&& forall|k: int| 0 <= k < segs.len() ==> #[trigger] segs[k].1 > 0
    &&& forall|k: int| 0 <= k < segs.len() - 1 ==> #[trigger] segs[k + 1].0 == segs[k].0 + segs[k].1
    &&& forall|k: int, i: int|
        0 <= k < segs.len() && segs[k].0 <= i < segs[k].0 + segs[k].1
            ==> #[trigger] qids[i] == #[trigger] qids[segs[k].0 as int]
    &&& forall|k: int| 0 < k < segs.len() ==> #[trigger] qids[segs[k].0 as int] != qids[segs[k].0 - 1]
}

/// Groups the instances, given by their query identifiers in input order,
/// into contiguous runs of equal identifiers.
pub fn query_segments(qids: &Vec<u64>) -> (segs: Vec<Segment>)
    ensures
        is_segmentation(qids@, segs@),
{
    let n = qids.len();
    let mut segs: Vec<Segment> = Vec::new();
    if n == 0 {
        return segs;
    }
    let mut start: usize = 0;
    let mut i: usize = 1;
    while i < n
        invariant
            n == qids.len(),
            0 <= start < i <= n,
            segs@.len() == 0 ==> start == 0,
            segs@.len() > 0 ==> segs@.last().0 + segs@.last().1 == start,
            segs@.len() > 0 ==> segs@[0].0 == 0,
            forall|k: int| 0 <= k < segs@.len() ==> #[trigger] segs@[k].1 > 0,
            forall|k: int| 0 <= k < segs@.len() - 1 ==> #[trigger] segs@[k + 1].0 == segs@[k].0 + segs@[k].1,
            forall|k: int, j: int|
                0 <= k < segs@.len() && segs@[k].0 <= j < segs@[k].0 + segs@[k].1
                    ==> #[trigger] qids@[j] == #[trigger] qids@[segs@[k].0 as int],
            forall|k: int| 0 < k < segs@.len() ==> #[trigger] qids@[segs@[k].0 as int] != qids@[segs@[k].0 - 1],
            forall|j: int| start <= j < i ==> qids@[j] == qids@[start as int],
            start > 0 ==> qids@[start as int] != qids@[start - 1],
        decreases n - i,
    {
        if qids[i] != qids[start] {
            segs.push((start, i - start));
            start = i;
        }
        i = i + 1;
    }
    segs.push((start, n - start));
    segs
}

/// Number of features of a data set: the largest number of feature
/// values that one instance stores (0 for no instance).
pub fn max_feature_count(lengths: &Vec<usize>) -> (r: usize)
    ensures
        forall|i: int| 0 <= i < lengths@.len() ==> lengths@[i] <= r,
        lengths@.len() == 0 ==> r == 0,
        lengths@.len() > 0 ==> exists|i: int| 0 <= i < lengths@.len() && lengths@[i] == r,
{
    let mut r: usize = 0;
    let mut i: usize = 0;
    while i < lengths.len()
        invariant
            i <= lengths@.len(),
            forall|j: int| 0 <= j < i ==> lengths@[j] <= r,
            i == 0 ==> r == 0,
            i > 0 ==> exists|j: int| 0 <= j < i && lengths@[j] == r,
        decreases lengths@.len() - i,
    {
        if lengths[i] > r {
            r = lengths[i];
        }
        i = i + 1;
    }
    r
}

} // verus!
