use vstd::prelude::*;
use vstd::seq_lib::to_multiset_insert;

verus! {

/// The order key of the `+∞` sentinel that closes every threshold list.
pub const INF_KEY: u64 = 0xFFFF_FFFF_FFFF_FFFF;

/// `s` is sorted in ascending order (equal neighbours allowed).
pub open spec fn sorted_asc(s: Seq<u64>) -> bool {
    forall|i: int, j: int| 0 <= i < j < s.len() ==> s[i] <= s[j]
}

/// `b` is the bin of value `v` under thresholds `t`: the smallest index
/// whose threshold is at least `v`.
pub open spec fn is_bin(t: Seq<u64>, v: u64, b: int) -> bool {
    &&& 0 <= b < t.len()
    &&& v <= t[b]
    &&& forall|c: int| 0 <= c < b ==> t[c] < v
}

/// Per-feature pre-discretization: the ascending thresholds, closed by
/// the `+∞` sentinel, and the bin of every instance.
pub struct ThresholdMap {
    pub thresholds: Vec<u64>,
    pub bin_of: Vec<usize>,
}

impl ThresholdMap {
    /// The thresholds ascend and end with the sentinel; every bin is a
    /// valid index into them.
    pub open spec fn wf(&self) -> bool {
        &&& self.thresholds@.len() >= 1
        &&& sorted_asc(self.thresholds@)
        &&& self.thresholds@.last() == INF_KEY
        &&& forall|i: int| 0 <= i < self.bin_of@.len() ==> #[trigger] self.bin_of@[i] < self.thresholds@.len()
    }

    /// The map assigns to every instance the bin of its value.
    pub open spec fn discretizes(&self, values: Seq<u64>) -> bool {
        &&& self.bin_of@.len() == values.len()
        &&& forall|i: int| 0 <= i < values.len() ==> is_bin(self.thresholds@, values[i], #[trigger] self.bin_of@[i] as int)
    }

    /// Number of bins (thresholds, the sentinel included).
    pub fn len(&self) -> (r: usize)
        ensures
            r == self.thresholds@.len(),
    {
        self.thresholds.len()
    }

    /// Builds the map of one feature from the values of all instances and
    /// the bin budget. With at most `max_bins` values the thresholds are
    /// the sorted values themselves, duplicates kept; otherwise they are
    /// `even_cuts`, the `max_bins` evenly spaced cut points `min + i·step`,
    /// put in ascending order. The `+∞` sentinel closes the list in both
    /// cases.
    pub fn new(values: &Vec<u64>, max_bins: usize, even_cuts: Vec<u64>) -> (r: ThresholdMap)
        requires
            values@.len() > max_bins ==> even_cuts@.len() == max_bins,
        ensures
            r.wf(),
            r.discretizes(values@),
            values@.len() <= max_bins ==> r.thresholds@.drop_last().to_multiset() == values@.to_multiset(),
            values@.len() > max_bins ==> r.thresholds@.drop_last().to_multiset() == even_cuts@.to_multiset()
                && r.thresholds@.len() == max_bins + 1,
    {
        let mut thresholds = if values.len() <= max_bins {
            sorted_keys(values)
        } else {
            sorted_keys(&even_cuts)
        };
        let ghost cuts = thresholds@;
        thresholds.push(INF_KEY);
        proof {
            assert(thresholds@.drop_last() == cuts);
            cuts.to_multiset_ensures();
            even_cuts@.to_multiset_ensures();
        }
        let mut bin_of: Vec<usize> = Vec::new();
        let mut i: usize = 0;
        while i < values.len()
            invariant
                thresholds@.len() >= 1,
                sorted_asc(thresholds@),
                thresholds@.last() == INF_KEY,
                bin_of@.len() == i,
                i <= values@.len(),
                forall|j: int| 0 <= j < i ==> is_bin(thresholds@, values@[j], #[trigger] bin_of@[j] as int),
            decreases values@.len() - i,
        {
            let b = bin_search(&thresholds, values[i]);
            bin_of.push(b);
            i = i + 1;
        }
        ThresholdMap { thresholds, bin_of }
    }
}

/// Over a feature whose values are distinct (and below the sentinel) and
/// whose thresholds are those values, the thresholds ascend strictly. With
/// repeated values they do not: each value is kept as often as it occurs.
pub proof fn lemma_thresholds_strict(map: ThresholdMap, values: Seq<u64>)
    requires
        map.wf(),
        map.thresholds@.drop_last().to_multiset() == values.to_multiset(),
        values.no_duplicates(),
        forall|i: int| 0 <= i < values.len() ==> #[trigger] values[i] < INF_KEY,
    ensures
        forall|i: int, j: int| 0 <= i < j < map.thresholds@.len() ==> map.thresholds@[i] < map.thresholds@[j],
{
    let t = map.thresholds@;
    let cuts = t.drop_last();
    values.lemma_multiset_has_no_duplicates();
    cuts.lemma_multiset_has_no_duplicates_conv();
    assert forall|i: int, j: int| 0 <= i < j < t.len() implies t[i] < t[j] by {
        if j == t.len() - 1 {
            assert(cuts[i] == t[i]);
            cuts.to_multiset_ensures();
            values.to_multiset_ensures();
            assert(cuts.contains(cuts[i]));
            assert(cuts.to_multiset().count(t[i]) > 0);
            assert(values.to_multiset().count(t[i]) > 0);
            assert(values.contains(t[i]));
            let k = choose|k: int| 0 <= k < values.len() && values[k] == t[i];
            assert(values[k] < INF_KEY);
        } else {
            assert(cuts[i] == t[i] && cuts[j] == t[j]);
        }
    }
}

/// The bin of `v`: binary search for the first threshold at least `v`.
fn bin_search(t: &Vec<u64>, v: u64) -> (b: usize)
    requires
        t@.len() >= 1,
        sorted_asc(t@),
        t@.last() == INF_KEY,
    ensures
        is_bin(t@, v, b as int),
{
    let mut lo: usize = 0;
    let mut hi: usize = t.len() - 1;
    while lo < hi
        invariant
            lo <= hi < t@.len(),
            sorted_asc(t@),
            v <= t@[hi as int],
            forall|c: int| 0 <= c < lo ==> t@[c] < v,
        decreases hi - lo,
    {
        let mid = lo + (hi - lo) / 2;
        if v <= t[mid] {
            hi = mid;
        } else {
            lo = mid + 1;
        }
    }
    lo
}

/// The values in ascending order, each kept as often as it occurs.
pub fn sorted_keys(values: &Vec<u64>) -> (r: Vec<u64>)
    ensures
        sorted_asc(r@),
        r@.to_multiset() == values@.to_multiset(),
{
    let n = values.len();
    let mut r: Vec<u64> = Vec::new();
    let mut i: usize = 0;
    assert(r@ =~= values@.subrange(0, 0));
    while i < n
        invariant
            n == values@.len(),
            i <= n,
            sorted_asc(r@),
            r@.to_multiset() == values@.subrange(0, i as int).to_multiset(),
        decreases n - i,
    {
        let v = values[i];
        let mut p: usize = 0;
        while p < r.len() && r[p] <= v
            invariant
                p <= r@.len(),
                sorted_asc(r@),
                forall|q: int| 0 <= q < p ==> r@[q] <= v,
            decreases r@.len() - p,
        {
            p = p + 1;
        }
        let ghost old_r = r@;
        r.insert(p, v);
        proof {
            old_r.insert_ensures(p as int, v);
            to_multiset_insert(old_r, p as int, v);
            assert(values@.subrange(0, i + 1) == values@.subrange(0, i as int).push(v));
            values@.subrange(0, i as int).to_multiset_ensures();
            assert forall|a: int, b: int| 0 <= a < b < r@.len() implies r@[a] <= r@[b] by {
                if a < p && b > p {
                    assert(r@[b] == old_r[b - 1]);
                    assert(old_r[p as int] > v);
                }
                if a > p {
                    assert(r@[a] == old_r[a - 1] && r@[b] == old_r[b - 1]);
                }
                if a == p && b > p {
                    assert(r@[b] == old_r[b - 1]);
                    assert(old_r[p as int] > v);
                }
            }
        }
        i = i + 1;
    }
    assert(values@.subrange(0, n as int) == values@);
    r
}

} // verus!
