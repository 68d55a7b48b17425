use vstd::prelude::*;

verus! {

/// DCG truncated at rank `truncation_level`.
pub struct DCGScorer {
    pub truncation_level: usize,
}

/// NDCG truncated at rank `truncation_level`: DCG over the ideal DCG.
pub struct NDCGScorer {
    pub truncation_level: usize,
    pub dcg: DCGScorer,
}

/// The metric used both for the listwise gradient and for reporting.
pub enum Metric {
    Dcg(DCGScorer),
    Ndcg(NDCGScorer),
}

impl DCGScorer {
    pub fn new(truncation_level: usize) -> (r: DCGScorer)
        ensures
            r.truncation_level == truncation_level,
    {
        DCGScorer { truncation_level }
    }

    pub fn get_k(&self) -> (r: usize)
        ensures
            r == self.truncation_level,
    {
        self.truncation_level
    }
}

impl NDCGScorer {
    pub fn new(truncation_level: usize) -> (r: NDCGScorer)
        ensures
            r.truncation_level == truncation_level,
            r.dcg.truncation_level == truncation_level,
    {
        NDCGScorer { truncation_level, dcg: DCGScorer::new(truncation_level) }
    }

    pub fn get_k(&self) -> (r: usize)
        ensures
            r == self.truncation_level,
    {
        self.truncation_level
    }
}

impl Metric {
    /// The truncation rank `k`.
    pub open spec fn k(&self) -> usize {
        match self {
            Metric::Dcg(d) => d.truncation_level,
            Metric::Ndcg(d) => d.truncation_level,
        }
    }

    pub fn get_k(&self) -> (r: usize)
        ensures
            r == self.k(),
    {
        match self {
            Metric::Dcg(d) => d.get_k(),
            Metric::Ndcg(d) => d.get_k(),
        }
    }

    /// Whether the metric divides by the ideal DCG.
    pub fn is_normalized(&self) -> (r: bool)
        ensures
            r == (self is Ndcg),
    {
        match self {
            Metric::Dcg(_) => false,
            Metric::Ndcg(_) => true,
        }
    }

    /// How many leading ranks of a list of `n` labels the metric counts:
    /// `min(n, k)`.
    pub fn cutoff(&self, n: usize) -> (r: usize)
        ensures
            r == if n <= self.k() {
                n
            } else {
                self.k()
            },
    {
        let k = self.get_k();
        if n <= k {
            n
        } else {
            k
        }
    }
}

/// Character-wise equality of two strings.
pub fn str_eq(a: &str, b: &str) -> (r: bool)
    ensures
        r == (a@ == b@),
{
    let n = a.unicode_len();
    if n != b.unicode_len() {
        return false;
    }
    let mut i: usize = 0;
    while i < n
        invariant
            n == a@.len(),
            n == b@.len(),
            i <= n,
            forall|j: int| 0 <= j < i ==> a@[j] == b@[j],
        decreases n - i,
    {
        if a.get_char(i) != b.get_char(i) {
            return false;
        }
        i = i + 1;
    }
    assert(a@ =~= b@);
    true
}

/// The metric of the given name (`"NDCG"` or `"DCG"`) truncated at `k`;
/// `None` for any other name.
pub fn new(name: &str, k: usize) -> (r: Option<Metric>)
    ensures
        name@ == "NDCG"@ ==> (r matches Some(Metric::Ndcg(s)) && s.truncation_level == k),
        name@ == "DCG"@ ==> (r matches Some(Metric::Dcg(s)) && s.truncation_level == k),
        name@ != "NDCG"@ && name@ != "DCG"@ ==> r is None,
{
    proof {
        reveal_strlit("NDCG");
        reveal_strlit("DCG");
        assert("NDCG"@.len() != "DCG"@.len());
    }
    if str_eq(name, "NDCG") {
        Some(Metric::Ndcg(NDCGScorer::new(k)))
    } else if str_eq(name, "DCG") {
        Some(Metric::Dcg(DCGScorer::new(k)))
    } else {
        None
    }
}

} // verus!
