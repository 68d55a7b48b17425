use vstd::prelude::*;

verus! {

/// The smallest and largest value seen for one feature (as order keys).
pub struct FeatureStat {
    pub id: u32,
    pub min: u64,
    pub max: u64,
}

/// Statistics of the features met in a collection of instances: the
/// smallest and largest feature id, and per feature the range of its
/// values. A feature's range starts from zero, the value of an absent
/// feature.
pub struct SampleStats {
    pub min_feature_id: u32,
    pub max_feature_id: u32,
    pub feature_stat: Vec<FeatureStat>,
}

/// Position of the statistics of feature `id`, or -1.
pub open spec fn stat_pos(stats: Seq<FeatureStat>, id: u32) -> int
    decreases stats.len(),
{
    if stats.len() == 0 {
        -1
    } else if stats.last().id == id {
        stats.len() - 1
    } else {
        stat_pos(stats.drop_last(), id)
    }
}

/// The smaller of two keys.
pub open spec fn min_key(a: u64, b: u64) -> u64 {
    if a <= b {
        a
    } else {
        b
    }
}

/// The larger of two keys.
pub open spec fn max_key(a: u64, b: u64) -> u64 {
    if a >= b {
        a
    } else {
        b
    }
}

/// The position found is a valid one and holds the feature.
pub proof fn lemma_stat_pos(stats: Seq<FeatureStat>, id: u32)
    ensures
        -1 <= stat_pos(stats, id) < stats.len(),
        stat_pos(stats, id) >= 0 ==> stats[stat_pos(stats, id)].id == id,
    decreases stats.len(),
{
    if stats.len() > 0 {
        lemma_stat_pos(stats.drop_last(), id);
    }
}

impl SampleStats {
    /// Statistics of no instance.
    pub fn new() -> (r: SampleStats)
        ensures
            r.min_feature_id == u32::MAX,
            r.max_feature_id == 0,
            r.feature_stat@.len() == 0,
    {
        SampleStats { min_feature_id: u32::MAX, max_feature_id: 0, feature_stat: Vec::new() }
    }

    /// Records value `value` of feature `id`; `zero` is the key of 0.
    pub fn update(&mut self, id: u32, value: u64, zero: u64)
        ensures
            final(self).min_feature_id == if id < old(self).min_feature_id {
                id
            } else {
                old(self).min_feature_id
            },
            final(self).max_feature_id == if id > old(self).max_feature_id {
                id
            } else {
                old(self).max_feature_id
            },
            ({
                let p = stat_pos(old(self).feature_stat@, id);
                let s = old(self).feature_stat@;
                if p >= 0 {
                    final(self).feature_stat@ == s.update(
                        p,
                        FeatureStat { id, min: min_key(s[p].min, value), max: max_key(s[p].max, value) },
                    )
                } else {
                    final(self).feature_stat@ == s.push(
                        FeatureStat { id, min: min_key(zero, value), max: max_key(zero, value) },
                    )
                }
            }),
    {
        if id > self.max_feature_id {
            self.max_feature_id = id;
        }
        if id < self.min_feature_id {
            self.min_feature_id = id;
        }
        let found = find_stat(&self.feature_stat, id);
        proof {
            lemma_stat_pos(self.feature_stat@, id);
        }
        match found {
            Some(k) => {
                let old_stat = &self.feature_stat[k];
                let mn = if value < old_stat.min {
                    value
                } else {
                    old_stat.min
                };
                let mx = if value > old_stat.max {
                    value
                } else {
                    old_stat.max
                };
                self.feature_stat.set(k, FeatureStat { id, min: mn, max: mx });
            },
            None => {
                let mn = if value < zero {
                    value
                } else {
                    zero
                };
                let mx = if value > zero {
                    value
                } else {
                    zero
                };
                self.feature_stat.push(FeatureStat { id, min: mn, max: mx });
            },
        }
    }
}

/// Where the statistics of feature `id` stand, searching from the end.
fn find_stat(stats: &Vec<FeatureStat>, id: u32) -> (r: Option<usize>)
    ensures
        r matches Some(k) ==> k == stat_pos(stats@, id),
        r is None ==> stat_pos(stats@, id) == -1,
{
    let mut k = stats.len();
    assert(stats@.subrange(0, k as int) == stats@);
    while k > 0
        invariant
            k <= stats@.len(),
            stat_pos(stats@, id) == stat_pos(stats@.subrange(0, k as int), id),
        decreases k,
    {
        let ghost pre = stats@.subrange(0, k as int);
        assert(pre.drop_last() == stats@.subrange(0, k - 1));
        if stats[k - 1].id == id {
            return Some(k - 1);
        }
        k = k - 1;
    }
    None
}

} // verus!
