use vstd::prelude::*;
use crate::histogram::{
    above, admissible_split, at_most, count_le, in_range, lemma_count_all, lemma_filter_empty,
};
use crate::threshold::{is_bin, ThresholdMap};

verus! {

/// Splits a sample after bin `b` of one feature: the left side keeps the
/// instances whose bin is at most `b`, the right side the others, both in
/// sample order.
pub fn partition(sample: &Vec<usize>, bin_of: &Vec<usize>, b: usize) -> (r: (Vec<usize>, Vec<usize>))
    requires
        in_range(bin_of@, sample@),
    ensures
        r.0@ == sample@.filter(at_most(bin_of@, b as int)),
        r.1@ == sample@.filter(above(bin_of@, b as int)),
{
    let mut left: Vec<usize> = Vec::new();
    let mut right: Vec<usize> = Vec::new();
    let mut j: usize = 0;
    proof {
        assert(sample@.subrange(0, 0) == Seq::<usize>::empty());
        lemma_filter_empty(at_most(bin_of@, b as int));
        lemma_filter_empty(above(bin_of@, b as int));
    }
    while j < sample.len()
        invariant
            in_range(bin_of@, sample@),
            j <= sample@.len(),
            left@ == sample@.subrange(0, j as int).filter(at_most(bin_of@, b as int)),
            right@ == sample@.subrange(0, j as int).filter(above(bin_of@, b as int)),
        decreases sample@.len() - j,
    {
        let x = sample[j];
        let ghost pre = sample@.subrange(0, j as int);
        proof {
            assert(sample@.subrange(0, j + 1) == pre.push(x));
            pre.lemma_filter_push(x, at_most(bin_of@, b as int));
            pre.lemma_filter_push(x, above(bin_of@, b as int));
        }
        if bin_of[x] <= b {
            left.push(x);
        } else {
            right.push(x);
        }
        j = j + 1;
    }
    assert(sample@.subrange(0, sample@.len() as int) == sample@);
    (left, right)
}

/// The two sides of a split together hold as many instances as the sample.
pub proof fn lemma_sides_len(bin_of: Seq<usize>, s: Seq<usize>, b: int)
    ensures
        s.filter(at_most(bin_of, b)).len() + s.filter(above(bin_of, b)).len() == s.len(),
    decreases s.len(),
{
    if s.len() == 0 {
        lemma_filter_empty(at_most(bin_of, b));
        lemma_filter_empty(above(bin_of, b));
    } else {
        let t = s.drop_last();
        assert(s == t.push(s.last()));
        lemma_sides_len(bin_of, t, b);
        t.lemma_filter_push(s.last(), at_most(bin_of, b));
        t.lemma_filter_push(s.last(), above(bin_of, b));
    }
}

/// A split after an admissible bin leaves at least `m` instances on each
/// side; every instance of the sample lands on exactly one side, and each
/// side holds instances of the sample only.
pub proof fn lemma_split_laws(bin_of: Seq<usize>, sample: Seq<usize>, m: int, b: int)
    requires
        in_range(bin_of, sample),
        admissible_split(bin_of, sample, m, b),
    ensures
        sample.filter(at_most(bin_of, b)).len() >= m,
        sample.filter(above(bin_of, b)).len() >= m,
        forall|x: usize|
            sample.contains(x) <==> (sample.filter(at_most(bin_of, b)).contains(x) || sample.filter(
                above(bin_of, b),
            ).contains(x)),
        forall|x: usize|
            !(sample.filter(at_most(bin_of, b)).contains(x) && sample.filter(above(bin_of, b)).contains(x)),
{
    lemma_sides_len(bin_of, sample, b);
    let l = sample.filter(at_most(bin_of, b));
    let r = sample.filter(above(bin_of, b));
    assert forall|x: usize| sample.contains(x) implies l.contains(x) || r.contains(x) by {
        let j = choose|j: int| 0 <= j < sample.len() && sample[j] == x;
        if bin_of[x as int] <= b {
            sample.lemma_filter_contains(at_most(bin_of, b), j);
        } else {
            sample.lemma_filter_contains(above(bin_of, b), j);
        }
    }
    assert forall|x: usize| l.contains(x) || r.contains(x) implies sample.contains(x) by {
        if l.contains(x) {
            sample.lemma_filter_contains_rev(at_most(bin_of, b), x);
        } else {
            sample.lemma_filter_contains_rev(above(bin_of, b), x);
        }
    }
    assert forall|x: usize| !(l.contains(x) && r.contains(x)) by {
        if l.contains(x) && r.contains(x) {
            let i = choose|i: int| 0 <= i < l.len() && l[i] == x;
            let k = choose|k: int| 0 <= k < r.len() && r[k] == x;
            sample.lemma_filter_pred(at_most(bin_of, b), i);
            sample.lemma_filter_pred(above(bin_of, b), k);
        }
    }
}

/// Counting up to a bin below every instance's bin counts nothing.
pub proof fn lemma_count_none(bin_of: Seq<usize>, s: Seq<usize>, b: int)
    requires
        in_range(bin_of, s),
        forall|j: int| 0 <= j < s.len() ==> bin_of[#[trigger] s[j] as int] > b,
    ensures
        count_le(bin_of, s, b) == 0,
    decreases s.len(),
{
    if s.len() == 0 {
        lemma_filter_empty(at_most(bin_of, b));
    } else {
        let t = s.drop_last();
        assert(s == t.push(s.last()));
        assert forall|j: int| 0 <= j < t.len() implies #[trigger] t[j] < bin_of.len() && bin_of[t[j] as int] > b by {
            assert(t[j] == s[j]);
        }
        lemma_count_none(bin_of, t, b);
        t.lemma_filter_push(s.last(), at_most(bin_of, b));
    }
}

/// A value has one bin only.
pub proof fn lemma_bin_unique(t: Seq<u64>, v: u64, b1: int, b2: int)
    requires
        is_bin(t, v, b1),
        is_bin(t, v, b2),
    ensures
        b1 == b2,
{
}

/// A feature whose instances in the sample all hold one value offers no
/// admissible split, whatever the bin and for any positive minimum.
pub proof fn lemma_single_value_no_split(
    map: ThresholdMap,
    values: Seq<u64>,
    sample: Seq<usize>,
    m: int,
    b: int,
)
    requires
        map.discretizes(values),
        in_range(map.bin_of@, sample),
        m >= 1,
        forall|j: int| 0 <= j < sample.len() ==> values[#[trigger] sample[j] as int] == values[sample[0] as int],
    ensures
        !admissible_split(map.bin_of@, sample, m, b),
{
    let bo = map.bin_of@;
    if sample.len() > 0 {
        let b0 = bo[sample[0] as int] as int;
        assert forall|j: int| 0 <= j < sample.len() implies bo[#[trigger] sample[j] as int] == b0 by {
            let i = sample[j] as int;
            let i0 = sample[0] as int;
            lemma_bin_unique(map.thresholds@, values[i], bo[i] as int, b0);
        }
        if b >= b0 {
            lemma_count_all(bo, sample, b);
        } else {
            lemma_count_none(bo, sample, b);
        }
    }
}

} // verus!
