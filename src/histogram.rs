use vstd::prelude::*;

verus! {

/// The instances whose bin is at most `b`: the left side of a split after bin `b`.
pub open spec fn at_most(bin_of: Seq<usize>, b: int) -> spec_fn(usize) -> bool {
    |i: usize| bin_of[i as int] <= b
}

/// The instances whose bin is above `b`: the right side of a split after bin `b`.
pub open spec fn above(bin_of: Seq<usize>, b: int) -> spec_fn(usize) -> bool {
    |i: usize| bin_of[i as int] > b
}

/// The instances whose bin is exactly `b`.
pub open spec fn equal_to(bin_of: Seq<usize>, b: int) -> spec_fn(usize) -> bool {
    |i: usize| bin_of[i as int] == b
}

/// How many instances of `sample` (counted with repetition) fall in a bin
/// at most `b`.
pub open spec fn count_le(bin_of: Seq<usize>, sample: Seq<usize>, b: int) -> nat {
    sample.filter(at_most(bin_of, b)).len()
}

/// All indices of `sample` address an instance of `bin_of`.
pub open spec fn in_range(bin_of: Seq<usize>, sample: Seq<usize>) -> bool {
    forall|j: int| 0 <= j < sample.len() ==> #[trigger] sample[j] < bin_of.len()
}

/// Splitting `sample` after bin `b` leaves at least `m` instances on each side.
pub open spec fn admissible_split(bin_of: Seq<usize>, sample: Seq<usize>, m: int, b: int) -> bool {
    &&& count_le(bin_of, sample, b) >= m
    &&& sample.len() - count_le(bin_of, sample, b) >= m
}

/// Bin `b` of a prefix-count histogram leaves at least `m` instances on
/// each side; the last entry holds the total.
pub open spec fn admissible(counts: Seq<usize>, m: int, b: int) -> bool {
    &&& 0 <= b < counts.len()
    &&& counts[b] >= m
    &&& counts.last() - counts[b] >= m
}

/// Filtering an empty sequence leaves it empty.
pub proof fn lemma_filter_empty(p: spec_fn(usize) -> bool)
    ensures
        Seq::<usize>::empty().filter(p) == Seq::<usize>::empty(),
{
    reveal(Seq::filter);
}

/// Counting up to bin `b` is counting up to `b - 1` and then bin `b` itself.
pub proof fn lemma_count_step(bin_of: Seq<usize>, s: Seq<usize>, b: int)
    requires
        in_range(bin_of, s),
    ensures
        count_le(bin_of, s, b) == count_le(bin_of, s, b - 1) + s.filter(equal_to(bin_of, b)).len(),
    decreases s.len(),
{
    if s.len() == 0 {
        lemma_filter_empty(at_most(bin_of, b));
        lemma_filter_empty(at_most(bin_of, b - 1));
        lemma_filter_empty(equal_to(bin_of, b));
    } else {
        let t = s.drop_last();
        let x = s.last();
        assert(s == t.push(x));
        assert(in_range(bin_of, t)) by {
            assert forall|j: int| 0 <= j < t.len() implies #[trigger] t[j] < bin_of.len() by {
                assert(t[j] == s[j]);
            }
        }
        lemma_count_step(bin_of, t, b);
        t.lemma_filter_push(x, at_most(bin_of, b));
        t.lemma_filter_push(x, at_most(bin_of, b - 1));
        t.lemma_filter_push(x, equal_to(bin_of, b));
    }
}

/// No instance has a negative bin.
pub proof fn lemma_count_below_zero(bin_of: Seq<usize>, s: Seq<usize>)
    ensures
        count_le(bin_of, s, -1) == 0,
    decreases s.len(),
{
    if s.len() == 0 {
        lemma_filter_empty(at_most(bin_of, -1));
    } else {
        let t = s.drop_last();
        assert(s == t.push(s.last()));
        lemma_count_below_zero(bin_of, t);
        t.lemma_filter_push(s.last(), at_most(bin_of, -1));
    }
}

/// Counting up to a bin that no instance exceeds counts the whole sample.
pub proof fn lemma_count_all(bin_of: Seq<usize>, s: Seq<usize>, b: int)
    requires
        in_range(bin_of, s),
        forall|j: int| 0 <= j < s.len() ==> bin_of[#[trigger] s[j] as int] <= b,
    ensures
        count_le(bin_of, s, b) == s.len(),
    decreases s.len(),
{
    if s.len() == 0 {
        lemma_filter_empty(at_most(bin_of, b));
    } else {
        let t = s.drop_last();
        assert(s == t.push(s.last()));
        assert forall|j: int| 0 <= j < t.len() implies #[trigger] t[j] < bin_of.len() && bin_of[t[j] as int] <= b by {
            assert(t[j] == s[j]);
        }
        lemma_count_all(bin_of, t, b);
        t.lemma_filter_push(s.last(), at_most(bin_of, b));
    }
}

/// A count never exceeds the size of the sample.
pub proof fn lemma_count_bounded(bin_of: Seq<usize>, s: Seq<usize>, b: int)
    ensures
        count_le(bin_of, s, b) <= s.len(),
{
    s.lemma_filter_len(at_most(bin_of, b));
}

/// Builds the prefix-count histogram of `sample`: entry `b` is the number
/// of instances whose bin is at most `b`. Instances are first tallied per
/// bin, then one left-to-right prefix sum runs over the bins.
pub fn count_histogram(bin_of: &Vec<usize>, sample: &Vec<usize>, nbins: usize) -> (r: Vec<usize>)
    requires
        in_range(bin_of@, sample@),
        forall|i: int| 0 <= i < bin_of@.len() ==> #[trigger] bin_of@[i] < nbins,
    ensures
        r@.len() == nbins,
        forall|b: int| 0 <= b < nbins ==> #[trigger] r@[b] == count_le(bin_of@, sample@, b),
{
    let mut tally: Vec<usize> = Vec::new();
    let mut b: usize = 0;
    while b < nbins
        invariant
            b <= nbins,
            tally@.len() == b,
            forall|c: int| 0 <= c < b ==> #[trigger] tally@[c] == 0,
        decreases nbins - b,
    {
        tally.push(0);
        b = b + 1;
    }
    proof {
        assert forall|c: int| 0 <= c < nbins implies #[trigger] tally@[c] == sample@.subrange(0, 0).filter(
            equal_to(bin_of@, c),
        ).len() by {
            assert(sample@.subrange(0, 0) == Seq::<usize>::empty());
            lemma_filter_empty(equal_to(bin_of@, c));
        }
    }
    let mut j: usize = 0;
    while j < sample.len()
        invariant
            in_range(bin_of@, sample@),
            forall|i: int| 0 <= i < bin_of@.len() ==> #[trigger] bin_of@[i] < nbins,
            j <= sample@.len(),
            tally@.len() == nbins,
            forall|c: int|
                0 <= c < nbins ==> #[trigger] tally@[c] == sample@.subrange(0, j as int).filter(
                    equal_to(bin_of@, c),
                ).len(),
        decreases sample@.len() - j,
    {
        let x = sample[j];
        let bx = bin_of[x];
        let ghost pre = sample@.subrange(0, j as int);
        proof {
            assert(sample@.subrange(0, j + 1) == pre.push(x));
            pre.lemma_filter_len(equal_to(bin_of@, bx as int));
            pre.lemma_filter_push(x, equal_to(bin_of@, bx as int));
        }
        let t = tally[bx];
        tally.set(bx, t + 1);
        proof {
            assert forall|c: int| 0 <= c < nbins implies #[trigger] tally@[c] == sample@.subrange(
                0,
                j + 1,
            ).filter(equal_to(bin_of@, c)).len() by {
                pre.lemma_filter_push(x, equal_to(bin_of@, c));
            }
        }
        j = j + 1;
    }
    assert(sample@.subrange(0, sample@.len() as int) == sample@);
    let slen = sample.len();
    let mut r: Vec<usize> = Vec::new();
    let mut run: usize = 0;
    let mut b: usize = 0;
    proof {
        lemma_count_below_zero(bin_of@, sample@);
    }
    while b < nbins
        invariant
            in_range(bin_of@, sample@),
            slen == sample@.len(),
            b <= nbins,
            tally@.len() == nbins,
            forall|c: int| 0 <= c < nbins ==> #[trigger] tally@[c] == sample@.filter(equal_to(bin_of@, c)).len(),
            r@.len() == b,
            run == count_le(bin_of@, sample@, b - 1),
            forall|c: int| 0 <= c < b ==> #[trigger] r@[c] == count_le(bin_of@, sample@, c),
        decreases nbins - b,
    {
        proof {
            lemma_count_step(bin_of@, sample@, b as int);
            lemma_count_bounded(bin_of@, sample@, b as int);
        }
        run = run + tally[b];
        r.push(run);
        b = b + 1;
    }
    r
}

/// The admissible bin with the highest score; among equal scores the
/// first. `None` when no bin leaves `m` instances on each side.
pub fn best_bin(counts: &Vec<usize>, scores: &Vec<u64>, m: usize) -> (r: Option<usize>)
    requires
        counts@.len() == scores@.len(),
    ensures
        r is None <==> forall|b: int| 0 <= b < counts@.len() ==> !admissible(counts@, m as int, b),
        r matches Some(b) ==> {
            &&& admissible(counts@, m as int, b as int)
            &&& forall|c: int| admissible(counts@, m as int, c) ==> scores@[c] <= scores@[b as int]
            &&& forall|c: int| 0 <= c < b && admissible(counts@, m as int, c) ==> scores@[c] < scores@[b as int]
        },
{
    let n = counts.len();
    if n == 0 {
        return None;
    }
    let total = counts[n - 1];
    let mut best: Option<usize> = None;
    let mut b: usize = 0;
    while b < n
        invariant
            n == counts@.len(),
            n == scores@.len(),
            n > 0,
            total == counts@.last(),
            b <= n,
            best is None <==> forall|c: int| 0 <= c < b ==> !admissible(counts@, m as int, c),
            best matches Some(k) ==> {
                &&& k < b
                &&& admissible(counts@, m as int, k as int)
                &&& forall|c: int| 0 <= c < b && admissible(counts@, m as int, c) ==> scores@[c] <= scores@[k as int]
                &&& forall|c: int| 0 <= c < k && admissible(counts@, m as int, c) ==> scores@[c] < scores@[k as int]
            },
        decreases n - b,
    {
        let left = counts[b];
        let ok = left >= m && left <= total && total - left >= m;
        assert(ok == admissible(counts@, m as int, b as int));
        if ok {
            match best {
                None => {
                    best = Some(b);
                },
                Some(k) => {
                    if scores[b] > scores[k] {
                        best = Some(b);
                    }
                },
            }
        }
        proof {
            assert forall|c: int| 0 <= c < b + 1 && best is None implies !admissible(counts@, m as int, c) by {
                if c < b {
                }
            }
        }
        b = b + 1;
    }
    best
}

} // verus!
