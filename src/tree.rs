use vstd::prelude::*;
use crate::histogram::{
    admissible, admissible_split, best_bin, count_histogram, count_le, in_range, lemma_count_all,
};
use crate::grow::{
    best_first, close_state, entry_of, grown, init_state, inv, lemma_basic, lemma_close, lemma_final, lemma_init,
    lemma_split, one_parent, root_sample, split_state,
};
use crate::split::partition;
use crate::threshold::{is_bin, ThresholdMap};

verus! {

/// A node of a regression tree, stored in an arena. A node starts on the
/// frontier and becomes, once and for all, an internal node or a leaf.
pub enum Node {
    /// Waiting on the frontier to be split or closed.
    Frontier,
    /// Instances whose value of feature `fid` is at most `threshold` (those
    /// in bins up to `bin`) go to `left`, the others to `right`.
    Internal { fid: usize, bin: usize, threshold: u64, left: usize, right: usize },
    /// The `leaf`-th leaf closed during growth.
    Leaf { leaf: usize },
}

/// A frontier element: the arena index of its node, the instances that
/// reached it and the priority of the sample (its lambda variance, as an
/// order key).
pub struct NodeData {
    pub index: usize,
    pub sample: Vec<usize>,
    pub variance: u64,
}

impl NodeData {
    /// A frontier element from its parts.
    pub fn new(index: usize, sample: Vec<usize>, variance: u64) -> (r: NodeData)
        ensures
            r.index == index,
            r.sample@ == sample@,
            r.variance == variance,
    {
        NodeData { index, sample, variance }
    }
}

/// Each internal node points to two later nodes of the arena, the right
/// one just after the left one.
pub open spec fn children_ok(nodes: Seq<Node>) -> bool {
    forall|i: int|
        0 <= i < nodes.len() ==> match #[trigger] nodes[i] {
            Node::Internal { left, right, .. } => i < left && right == left + 1 && right < nodes.len(),
            _ => true,
        }
}

/// Each internal node splits on a feature of `maps` after one of its bins,
/// and its threshold is that bin's threshold.
pub open spec fn splits_ok(nodes: Seq<Node>, maps: Seq<ThresholdMap>) -> bool {
    forall|i: int|
        0 <= i < nodes.len() ==> match #[trigger] nodes[i] {
            Node::Internal { fid, bin, threshold, .. } => {
                &&& fid < maps.len()
                &&& bin < maps[fid as int].thresholds@.len()
                &&& threshold == maps[fid as int].thresholds@[bin as int]
            },
            _ => true,
        }
}

/// Leaf numbers are below `n_leaves` and no two leaves share one.
pub open spec fn leaves_ok(nodes: Seq<Node>, n_leaves: int) -> bool {
    &&& forall|i: int| 0 <= i < nodes.len() && (#[trigger] nodes[i] is Leaf) ==> nodes[i]->leaf < n_leaves
    &&& forall|i: int, j: int|
        0 <= i < nodes.len() && 0 <= j < nodes.len() && i != j && (#[trigger] nodes[i] is Leaf) && (
        #[trigger] nodes[j] is Leaf) ==> nodes[i]->leaf != nodes[j]->leaf
}

/// Some node of the arena is the `k`-th leaf.
pub open spec fn leaf_present(nodes: Seq<Node>, k: int) -> bool {
    exists|i: int| 0 <= i < nodes.len() && #[trigger] nodes[i] == (Node::Leaf { leaf: k as usize })
}

/// No node is left on the frontier.
pub open spec fn complete(nodes: Seq<Node>) -> bool {
    forall|i: int| 0 <= i < nodes.len() ==> !(#[trigger] nodes[i] is Frontier)
}

/// Value of feature `fid`, or the key of zero where the instance stores
/// fewer features.
pub open spec fn value_at(values: Seq<u64>, fid: int, zero: u64) -> u64 {
    if 0 <= fid < values.len() {
        values[fid]
    } else {
        zero
    }
}

/// The leaf reached from node `i` by an instance with the given feature
/// values, or -1 where the walk leaves the arena's shape.
pub open spec fn walk(nodes: Seq<Node>, i: int, values: Seq<u64>, zero: u64) -> int
    decreases nodes.len() - i,
{
    if 0 <= i < nodes.len() {
        match nodes[i] {
            Node::Internal { fid, threshold, left, right, .. } => {
                if i < left && i < right && left < nodes.len() && right < nodes.len() {
                    if value_at(values, fid as int, zero) <= threshold {
                        walk(nodes, left as int, values, zero)
                    } else {
                        walk(nodes, right as int, values, zero)
                    }
                } else {
                    -1
                }
            },
            Node::Leaf { leaf } => leaf as int,
            Node::Frontier => -1,
        }
    } else {
        -1
    }
}

/// The node where the walk of training instance `x` from node `i` stops (a
/// leaf or a frontier node), going left at an internal node when the
/// instance's bin of the node's feature is at most the node's bin; -1
/// where the walk leaves the arena's shape.
pub open spec fn bin_end(nodes: Seq<Node>, i: int, maps: Seq<ThresholdMap>, x: usize) -> int
    decreases nodes.len() - i,
{
    if 0 <= i < nodes.len() {
        match nodes[i] {
            Node::Internal { fid, bin, left, right, .. } => {
                if i < left && i < right && left < nodes.len() && right < nodes.len() && fid < maps.len() {
                    if maps[fid as int].bin_of@[x as int] <= bin {
                        bin_end(nodes, left as int, maps, x)
                    } else {
                        bin_end(nodes, right as int, maps, x)
                    }
                } else {
                    -1
                }
            },
            _ => i,
        }
    } else {
        -1
    }
}

/// The leaf number of node `e`, or -1 where `e` is no leaf.
pub open spec fn leaf_at(nodes: Seq<Node>, e: int) -> int {
    if 0 <= e < nodes.len() {
        match nodes[e] {
            Node::Leaf { leaf } => leaf as int,
            _ => -1,
        }
    } else {
        -1
    }
}

/// The leaf that training instance `x` reaches by its bins.
pub open spec fn bin_walk(nodes: Seq<Node>, maps: Seq<ThresholdMap>, x: usize) -> int {
    leaf_at(nodes, bin_end(nodes, 0, maps, x))
}

/// Closing frontier node `j` changes no walk's end.
pub proof fn lemma_bin_end_close(nodes: Seq<Node>, j: int, leaf: usize, maps: Seq<ThresholdMap>, x: usize, i: int)
    requires
        0 <= j < nodes.len(),
        nodes[j] is Frontier,
    ensures
        bin_end(nodes.update(j, Node::Leaf { leaf }), i, maps, x) == bin_end(nodes, i, maps, x),
    decreases nodes.len() - i,
{
    let n2 = nodes.update(j, Node::Leaf { leaf });
    if 0 <= i < nodes.len() && i != j {
        match nodes[i] {
            Node::Internal { left, right, .. } => {
                if i < left && i < right && left < nodes.len() && right < nodes.len() {
                    lemma_bin_end_close(nodes, j, leaf, maps, x, left as int);
                    lemma_bin_end_close(nodes, j, leaf, maps, x, right as int);
                }
            },
            _ => {},
        }
    }
}

/// Splitting frontier node `j` into two new frontier nodes sends the walks
/// that stopped at `j` on to the side their bin selects; other walks keep
/// their end.
pub proof fn lemma_bin_end_split(
    nodes: Seq<Node>,
    j: int,
    f: usize,
    b: usize,
    threshold: u64,
    maps: Seq<ThresholdMap>,
    x: usize,
    i: int,
)
    requires
        0 <= j < nodes.len(),
        nodes[j] is Frontier,
        children_ok(nodes),
        f < maps.len(),
        nodes.len() + 2 <= usize::MAX,
        0 <= i,
    ensures
        ({
            let li = nodes.len();
            let n2 = nodes.push(Node::Frontier).push(Node::Frontier).update(
                j,
                Node::Internal { fid: f, bin: b, threshold, left: li as usize, right: (li + 1) as usize },
            );
            bin_end(n2, i, maps, x) == if i >= nodes.len() {
                bin_end(n2, i, maps, x)
            } else if bin_end(nodes, i, maps, x) == j {
                if maps[f as int].bin_of@[x as int] <= b {
                    li as int
                } else {
                    li + 1 as int
                }
            } else {
                bin_end(nodes, i, maps, x)
            }
        }),
    decreases nodes.len() - i,
{
    let li = nodes.len();
    let n2 = nodes.push(Node::Frontier).push(Node::Frontier).update(
        j,
        Node::Internal { fid: f, bin: b, threshold, left: li as usize, right: (li + 1) as usize },
    );
    if i < nodes.len() {
        if i == j {
            assert(n2[li as int] is Frontier);
            assert(n2[li as int + 1] is Frontier);
            assert(bin_end(n2, li as int, maps, x) == li);
            assert(bin_end(n2, li as int + 1, maps, x) == li + 1);
            assert(bin_end(nodes, j, maps, x) == j);
        } else {
            assert(n2[i] == nodes[i]);
            match nodes[i] {
                Node::Internal { left, right, .. } => {
                    lemma_bin_end_split(nodes, j, f, b, threshold, maps, x, left as int);
                    lemma_bin_end_split(nodes, j, f, b, threshold, maps, x, right as int);
                },
                _ => {},
            }
        }
    }
}

/// On a training instance whose feature values the maps discretize, the
/// tree's walk by values ends at the same leaf as its walk by bins.
pub proof fn lemma_walk_by_bins(
    nodes: Seq<Node>,
    maps: Seq<ThresholdMap>,
    x: usize,
    values: Seq<u64>,
    zero: u64,
    i: int,
)
    requires
        splits_ok(nodes, maps),
        forall|f: int| 0 <= f < maps.len() ==> (#[trigger] maps[f]).wf(),
        forall|f: int|
            0 <= f < maps.len() ==> is_bin(
                (#[trigger] maps[f]).thresholds@,
                value_at(values, f, zero),
                maps[f].bin_of@[x as int] as int,
            ),
    ensures
        walk(nodes, i, values, zero) == leaf_at(nodes, bin_end(nodes, i, maps, x)),
    decreases nodes.len() - i,
{
    if 0 <= i < nodes.len() {
        match nodes[i] {
            Node::Internal { fid, bin, threshold, left, right } => {
                let m = maps[fid as int];
                let t = m.thresholds@;
                let v = value_at(values, fid as int, zero);
                let bx = m.bin_of@[x as int] as int;
                assert(is_bin(t, v, bx));
                if bx <= bin {
                    assert(t[bx] <= t[bin as int]);
                }
                if i < left && i < right && left < nodes.len() && right < nodes.len() {
                    lemma_walk_by_bins(nodes, maps, x, values, zero, left as int);
                    lemma_walk_by_bins(nodes, maps, x, values, zero, right as int);
                }
            },
            _ => {},
        }
    }
}

/// Scoring a training instance with a tree built by `fit` reaches the leaf
/// whose sample held the instance, the leaf whose output `fit`'s caller
/// added to the instance's model score: the walk by feature values agrees
/// with the walk by bins. `columns[f]` holds feature `f` of every training
/// instance and `values` the features of instance `x`.
pub proof fn lemma_training_instance_leaf(
    tree: RegressionTree,
    maps: Seq<ThresholdMap>,
    columns: Seq<Seq<u64>>,
    x: usize,
    values: Seq<u64>,
    zero: u64,
)
    requires
        splits_ok(tree.nodes@, maps),
        columns.len() == maps.len(),
        forall|f: int| 0 <= f < maps.len() ==> (#[trigger] maps[f]).wf() && maps[f].discretizes(columns[f]),
        forall|f: int| 0 <= f < maps.len() ==> x < (#[trigger] columns[f]).len() && columns[f][x as int] == value_at(values, f, zero),
    ensures
        walk(tree.nodes@, 0, values, zero) == bin_walk(tree.nodes@, maps, x),
{
    assert forall|f: int| 0 <= f < maps.len() implies is_bin(
        (#[trigger] maps[f]).thresholds@,
        value_at(values, f, zero),
        maps[f].bin_of@[x as int] as int,
    ) by {
        assert(columns[f][x as int] == value_at(values, f, zero));
    }
    lemma_walk_by_bins(tree.nodes@, maps, x, values, zero, 0);
}

/// A regression tree grown best-first under a leaf budget and a minimum
/// number of instances per leaf. Leaf outputs are kept by the caller,
/// indexed by leaf number.
pub struct RegressionTree {
    pub max_leaves: usize,
    pub min_leaf_samples: usize,
    pub nodes: Vec<Node>,
    pub n_leaves: usize,
    /// The instances that reached each node while the tree grew.
    pub samples: Ghost<Seq<Seq<usize>>>,
    /// The score tables, one per feature, each internal node's split was
    /// chosen under.
    pub tables: Ghost<Seq<Seq<Seq<u64>>>>,
    /// The priority of each node's sample.
    pub priorities: Ghost<Seq<u64>>,
    /// The rank at which each node left the frontier.
    pub pop_order: Ghost<Seq<int>>,
    /// The number of nodes when each node left the frontier.
    pub created: Ghost<Seq<int>>,
}

impl RegressionTree {
    /// A built tree: one rooted binary tree (every node but the root has
    /// exactly one parent, children come after parents), every node
    /// closed, leaves numbered `0..n_leaves` one to one.
    pub open spec fn wf(&self) -> bool {
        &&& self.nodes@.len() >= 1
        &&& children_ok(self.nodes@)
        &&& one_parent(self.nodes@)
        &&& complete(self.nodes@)
        &&& leaves_ok(self.nodes@, self.n_leaves as int)
        &&& forall|k: int| 0 <= k < self.n_leaves ==> #[trigger] leaf_present(self.nodes@, k)
    }

    /// An empty tree with its configuration.
    pub fn new(max_leaves: usize, min_leaf_samples: usize) -> (r: RegressionTree)
        ensures
            r.max_leaves == max_leaves,
            r.min_leaf_samples == min_leaf_samples,
            r.nodes@.len() == 0,
            r.n_leaves == 0,
    {
        RegressionTree {
            max_leaves,
            min_leaf_samples,
            nodes: Vec::new(),
            n_leaves: 0,
            samples: Ghost(Seq::empty()),
            tables: Ghost(Seq::empty()),
            priorities: Ghost(Seq::empty()),
            pop_order: Ghost(Seq::empty()),
            created: Ghost(Seq::empty()),
        }
    }

    /// Grows the tree best-first on instances `0..n`. The frontier starts
    /// with the root sample; the sample of highest variance (the first
    /// one on ties) is taken next. It becomes a leaf when the leaf budget
    /// is reached (`1 + leaves + frontier >= max_leaves`) or when no
    /// feature has an admissible split; otherwise it is partitioned after
    /// the best split and both sides join the frontier. `variance` gives
    /// the priority of a sample, `scores` the split quality per bin (both
    /// as order keys). Returns the instances of each leaf, by leaf number;
    /// the tree keeps, as ghost records, the instances that reached each
    /// node and the score tables each split was chosen under.
    pub fn fit<P, S>(&mut self, maps: &Vec<ThresholdMap>, n: usize, variance: P, scores: S) -> (leaf_samples: Vec<
        Vec<usize>,
    >)
        where
            P: Fn(&Vec<usize>) -> u64,
            S: Fn(usize, &Vec<usize>, &Vec<usize>) -> Vec<u64>,
        requires
            1 <= old(self).max_leaves <= usize::MAX / 4,
            old(self).min_leaf_samples >= 1,
            maps_ok(maps@, n as int),
            forall|s: &Vec<usize>| variance.requires((s,)),
            forall|f: usize, s: &Vec<usize>, c: &Vec<usize>| scores.requires((f, s, c)),
        ensures
            final(self).max_leaves == old(self).max_leaves,
            final(self).min_leaf_samples == old(self).min_leaf_samples,
            final(self).wf(),
            final(self).n_leaves == leaf_samples@.len(),
            1 <= leaf_samples@.len() <= final(self).max_leaves,
            grown(
                final(self).nodes@,
                final(self).samples@,
                final(self).tables@,
                leaf_samples@.map_values(|v: Vec<usize>| v@),
                maps@,
                n as int,
                final(self).max_leaves as int,
                final(self).min_leaf_samples as int,
                scores,
            ),
            best_first(
                final(self).nodes@,
                final(self).samples@,
                final(self).priorities@,
                final(self).pop_order@,
                final(self).created@,
                variance,
            ),
    {
        let max_leaves = self.max_leaves;
        let m = self.min_leaf_samples;
        let mut root: Vec<usize> = Vec::new();
        let mut i: usize = 0;
        while i < n
            invariant
                i <= n,
                root@.len() == i,
                forall|j: int| 0 <= j < i ==> #[trigger] root@[j] == j,
            decreases n - i,
        {
            root.push(i);
            i = i + 1;
        }
        assert(root@ =~= root_sample(n as int));
        let v0 = variance(&root);
        assert(root@ == root_sample(n as int) && call_ensures(variance, (&root,), v0));
        let mut nodes: Vec<Node> = Vec::new();
        nodes.push(Node::Frontier);
        let mut frontier: Vec<NodeData> = Vec::new();
        frontier.push(NodeData::new(0, root, v0));
        let mut leaves: Vec<Vec<usize>> = Vec::new();
        let ghost mut g = init_state(n as int, v0);
        proof {
            lemma_init(maps@, n as int, max_leaves as int, m as int, scores, variance, v0);
            assert(nodes@ =~= g.nodes);
            assert(frontier@.map_values(|d: NodeData| entry_of(d)) =~= g.frontier);
            assert(leaves@.map_values(|v: Vec<usize>| v@) =~= g.leaves);
        }
        while frontier.len() > 0
            invariant
                inv(g, maps@, n as int, max_leaves as int, m as int, scores, variance),
                nodes@ == g.nodes,
                frontier@.map_values(|d: NodeData| entry_of(d)) == g.frontier,
                leaves@.map_values(|v: Vec<usize>| v@) == g.leaves,
                forall|s: &Vec<usize>| variance.requires((s,)),
                forall|f: usize, s: &Vec<usize>, c: &Vec<usize>| scores.requires((f, s, c)),
            decreases 3 * (max_leaves - g.internal) + g.frontier.len(),
        {
            proof {
                lemma_basic(g, maps@, n as int, max_leaves as int, m as int, scores, variance);
            }
            let mut k0: usize = 0;
            let mut p: usize = 1;
            while p < frontier.len()
                invariant
                    frontier@.len() > 0,
                    k0 < p <= frontier@.len(),
                    forall|q: int|
                        0 <= q < p ==> (#[trigger] frontier@[q]).variance <= frontier@[k0 as int].variance && (q
                            < k0 ==> frontier@[q].variance < frontier@[k0 as int].variance),
                decreases frontier@.len() - p,
            {
                if frontier[p].variance > frontier[k0].variance {
                    k0 = p;
                }
                p = p + 1;
            }
            let ghost fr = frontier@;
            proof {
                assert forall|k: int| 0 <= k < g.frontier.len() implies (#[trigger] g.frontier[k]).2 <= g.frontier[k0 as int].2
                    && (k < k0 ==> g.frontier[k].2 < g.frontier[k0 as int].2) by {
                    assert(g.frontier[k] == entry_of(fr[k]));
                    assert(g.frontier[k0 as int] == entry_of(fr[k0 as int]));
                }
            }
            let nd = frontier.remove(k0);
            let j = nd.index;
            proof {
                assert(g.frontier[k0 as int] == entry_of(fr[k0 as int]));
                assert(entry_of(nd) == g.frontier[k0 as int]);
                assert(frontier@.map_values(|d: NodeData| entry_of(d)) =~= g.frontier.remove(k0 as int));
                assert forall|x: int| 0 <= x < nd.sample@.len() implies #[trigger] nd.sample@[x] < n by {
                    assert(g.frontier[k0 as int].1[x] < n);
                }
            }
            let budget_reached = 1 + leaves.len() + frontier.len() >= max_leaves;
            let (choice, table) = if budget_reached {
                (None, Vec::new())
            } else {
                proof {
                    assert forall|f: int| 0 <= f < maps@.len() implies (#[trigger] maps@[f]).wf() && in_range(
                        maps@[f].bin_of@,
                        nd.sample@,
                    ) by {
                        assert(maps@[f].wf() && maps@[f].bin_of@.len() == n);
                    }
                }
                find_split(maps, &nd.sample, m, &scores)
            };
            match choice {
                None => {
                    let id = leaves.len();
                    nodes.set(j, Node::Leaf { leaf: id });
                    leaves.push(nd.sample);
                    proof {
                        lemma_close(g, maps@, n as int, max_leaves as int, m as int, scores, variance, k0 as int, budget_reached);
                        g = close_state(g, k0 as int, budget_reached);
                        assert(nodes@ =~= g.nodes);
                        assert(frontier@.map_values(|d: NodeData| entry_of(d)) =~= g.frontier);
                        assert(leaves@.map_values(|v: Vec<usize>| v@) =~= g.leaves);
                    }
                },
                Some((f, b)) => {
                    proof {
                        assert(maps@[f as int].wf() && maps@[f as int].bin_of@.len() == n);
                    }
                    let (lft, rgt) = partition(&nd.sample, &maps[f].bin_of, b);
                    let li = nodes.len();
                    nodes.push(Node::Frontier);
                    nodes.push(Node::Frontier);
                    let threshold = maps[f].thresholds[b];
                    nodes.set(j, Node::Internal { fid: f, bin: b, threshold, left: li, right: li + 1 });
                    let ghost lv = lft@;
                    let ghost rv = rgt@;
                    let vl = variance(&lft);
                    let vr = variance(&rgt);
                    assert(lft@ == lv && call_ensures(variance, (&lft,), vl));
                    assert(rgt@ == rv && call_ensures(variance, (&rgt,), vr));
                    let ghost mid = frontier@;
                    frontier.push(NodeData::new(li, lft, vl));
                    frontier.push(NodeData::new(li + 1, rgt, vr));
                    proof {
                        let tab = Seq::new(maps@.len(), |h: int| table@[h]@);
                        assert forall|h: int| 0 <= h < maps@.len() implies scored(scores, maps@, g.frontier[k0 as int].1, h, #[trigger] tab[h]) by {
                            assert(tab[h] == table@[h]@);
                        }
                        lemma_split(
                            g,
                            maps@,
                            n as int,
                            max_leaves as int,
                            m as int,
                            scores,
                            variance,
                            k0 as int,
                            f,
                            b,
                            threshold,
                            lv,
                            rv,
                            vl,
                            vr,
                            tab,
                        );
                        g = split_state(g, k0 as int, f, b, threshold, lv, rv, vl, vr, tab);
                        assert(nodes@ =~= g.nodes);
                        assert(frontier@.map_values(|d: NodeData| entry_of(d)) =~= g.frontier);
                        assert(leaves@.map_values(|v: Vec<usize>| v@) =~= g.leaves);
                    }
                },
            }
        }
        proof {
            lemma_final(g, maps@, n as int, max_leaves as int, m as int, scores, variance);
            assert(leaves@.map_values(|v: Vec<usize>| v@).len() == leaves@.len());
        }
        self.nodes = nodes;
        self.n_leaves = leaves.len();
        self.samples = Ghost(g.samples);
        self.tables = Ghost(g.tables);
        self.priorities = Ghost(g.vars);
        self.pop_order = Ghost(g.pop);
        self.created = Ghost(g.created);
        leaves
    }

    /// The leaf that an instance reaches: at an internal node it goes left
    /// when its value of the node's feature is at most the threshold.
    pub fn leaf_of(&self, values: &Vec<u64>, zero: u64) -> (r: usize)
        requires
            self.wf(),
        ensures
            r as int == walk(self.nodes@, 0, values@, zero),
            r < self.n_leaves,
    {
        let mut i: usize = 0;
        proof {
            lemma_walk_closed(self.nodes@, 0, values@, zero, self.n_leaves as int);
        }
        loop
            invariant
                self.wf(),
                i < self.nodes@.len(),
                walk(self.nodes@, i as int, values@, zero) == walk(self.nodes@, 0, values@, zero),
            decreases self.nodes@.len() - i,
        {
            match &self.nodes[i] {
                Node::Internal { fid, threshold, left, right, .. } => {
                    let v = if *fid < values.len() {
                        values[*fid]
                    } else {
                        zero
                    };
                    if v <= *threshold {
                        i = *left;
                    } else {
                        i = *right;
                    }
                },
                Node::Leaf { leaf } => {
                    proof {
                        lemma_walk_closed(self.nodes@, 0, values@, zero, self.n_leaves as int);
                    }
                    return *leaf;
                },
                Node::Frontier => {
                    assert(!(self.nodes@[i as int] is Frontier));
                    return 0;
                },
            }
        }
    }
}

/// Every map is well formed and covers `n` instances.
pub open spec fn maps_ok(maps: Seq<ThresholdMap>, n: int) -> bool {
    forall|f: int| 0 <= f < maps.len() ==> (#[trigger] maps[f]).wf() && maps[f].bin_of@.len() == n
}

/// Feature `f` of `maps` offers an admissible split of `sample` after bin `b`.
pub open spec fn can_split(maps: Seq<ThresholdMap>, sample: Seq<usize>, m: int, f: int, b: int) -> bool {
    &&& 0 <= f < maps.len()
    &&& 0 <= b < maps[f].thresholds@.len()
    &&& admissible_split(maps[f].bin_of@, sample, m, b)
}

/// `b` is the best bin of one feature: admissible, of highest score, and
/// the first such.
pub open spec fn is_best_bin(counts: Seq<usize>, scores: Seq<u64>, m: int, b: int) -> bool {
    &&& admissible(counts, m, b)
    &&& forall|c: int| admissible(counts, m, c) ==> scores[c] <= scores[b]
    &&& forall|c: int| 0 <= c < b && admissible(counts, m, c) ==> scores[c] < scores[b]
}

/// A feature has one best bin at most.
pub proof fn lemma_best_bin_unique(counts: Seq<usize>, scores: Seq<u64>, m: int, b1: int, b2: int)
    requires
        is_best_bin(counts, scores, m, b1),
        is_best_bin(counts, scores, m, b2),
    ensures
        b1 == b2,
{
}

/// Picks the split after the per-feature histograms `counts` and split
/// scores `scores`: each feature offers its best bin, and the feature
/// whose offer scores highest wins, the first one on ties. `None` when
/// no feature has an admissible bin.
pub fn select_split(counts: &Vec<Vec<usize>>, scores: &Vec<Vec<u64>>, m: usize) -> (r: Option<(usize, usize)>)
    requires
        counts@.len() == scores@.len(),
        forall|f: int| 0 <= f < counts@.len() ==> (#[trigger] counts@[f])@.len() == scores@[f]@.len(),
    ensures
        r is None <==> forall|f: int, b: int| 0 <= f < counts@.len() ==> !admissible(counts@[f]@, m as int, b),
        r matches Some((f, b)) ==> {
            &&& f < counts@.len()
            &&& is_best_bin(counts@[f as int]@, scores@[f as int]@, m as int, b as int)
            &&& forall|g: int, c: int|
                0 <= g < counts@.len() && is_best_bin(counts@[g]@, scores@[g]@, m as int, c) ==> scores@[g]@[c]
                    <= scores@[f as int]@[b as int]
            &&& forall|g: int, c: int|
                0 <= g < f && is_best_bin(counts@[g]@, scores@[g]@, m as int, c) ==> scores@[g]@[c]
                    < scores@[f as int]@[b as int]
        },
{
    let mut best: Option<(usize, usize)> = None;
    let mut f: usize = 0;
    while f < counts.len()
        invariant
            counts@.len() == scores@.len(),
            forall|g: int| 0 <= g < counts@.len() ==> (#[trigger] counts@[g])@.len() == scores@[g]@.len(),
            f <= counts@.len(),
            best is None <==> forall|g: int, b: int| 0 <= g < f ==> !admissible(counts@[g]@, m as int, b),
            best matches Some((g, b)) ==> {
                &&& g < f
                &&& is_best_bin(counts@[g as int]@, scores@[g as int]@, m as int, b as int)
                &&& forall|h: int, c: int|
                    0 <= h < f && is_best_bin(counts@[h]@, scores@[h]@, m as int, c) ==> scores@[h]@[c]
                        <= scores@[g as int]@[b as int]
                &&& forall|h: int, c: int|
                    0 <= h < g && is_best_bin(counts@[h]@, scores@[h]@, m as int, c) ==> scores@[h]@[c]
                        < scores@[g as int]@[b as int]
            },
        decreases counts@.len() - f,
    {
        let found = best_bin(&counts[f], &scores[f], m);
        let ghost old_best = best;
        match found {
            None => {},
            Some(b) => {
                match best {
                    None => {
                        best = Some((f, b));
                    },
                    Some((g, c)) => {
                        if scores[f][b] > scores[g][c] {
                            best = Some((f, b));
                        }
                    },
                }
            },
        }
        proof {
            match found {
                Some(b) => {
                    assert(is_best_bin(counts@[f as int]@, scores@[f as int]@, m as int, b as int));
                    assert forall|c: int| is_best_bin(counts@[f as int]@, scores@[f as int]@, m as int, c) implies c
                        == b by {
                        lemma_best_bin_unique(counts@[f as int]@, scores@[f as int]@, m as int, c, b as int);
                    }
                    match old_best {
                        Some((g, c)) => {
                            assert(is_best_bin(counts@[g as int]@, scores@[g as int]@, m as int, c as int));
                        },
                        None => {},
                    }
                },
                None => {
                    assert forall|c: int| !is_best_bin(counts@[f as int]@, scores@[f as int]@, m as int, c) by {
                        if 0 <= c < counts@[f as int]@.len() {
                        }
                    }
                },
            }
            assert forall|g: int, b: int| 0 <= g < f + 1 && best is None implies !admissible(counts@[g]@, m as int, b) by {
            }
            match best {
                Some((g, b)) => {
                    assert(admissible(counts@[g as int]@, m as int, b as int));
                },
                None => {},
            }
        }
        f = f + 1;
    }
    best
}

/// The prefix-count histogram of `sample` over the bins of feature `f`.
pub open spec fn hist(maps: Seq<ThresholdMap>, f: int, sample: Seq<usize>) -> Seq<usize> {
    Seq::new(maps[f].thresholds@.len(), |b: int| count_le(maps[f].bin_of@, sample, b) as usize)
}

/// The scores handed back for a feature of `nbins` bins, or zeros where
/// their number is wrong.
pub open spec fn padded(q: Seq<u64>, nbins: int) -> Seq<u64> {
    if q.len() == nbins {
        q
    } else {
        Seq::new(nbins as nat, |b: int| 0u64)
    }
}

/// `t` is what `scores` gave for feature `f` on `sample` and its
/// histogram, padded to the feature's number of bins.
pub open spec fn scored<S: Fn(usize, &Vec<usize>, &Vec<usize>) -> Vec<u64>>(
    scores: S,
    maps: Seq<ThresholdMap>,
    sample: Seq<usize>,
    f: int,
    t: Seq<u64>,
) -> bool {
    exists|s: &Vec<usize>, c: &Vec<usize>, q: Vec<u64>|
        s@ == sample && c@ == hist(maps, f, sample) && #[trigger] call_ensures(scores, (f as usize, s, c), q) && t
            == padded(q@, maps[f].thresholds@.len() as int)
}

/// Under the score tables `tables` (one per feature), splitting `sample`
/// after bin `b` of feature `f` is the best split: `b` is the feature's
/// best bin, and no other feature's best bin scores higher, nor as high
/// for an earlier feature.
pub open spec fn best_split_of(maps: Seq<ThresholdMap>, sample: Seq<usize>, m: int, tables: Seq<Seq<u64>>, f: int, b: int) -> bool {
    &&& 0 <= f < maps.len()
    &&& is_best_bin(hist(maps, f, sample), tables[f], m, b)
    &&& forall|g: int, c: int|
        0 <= g < maps.len() && #[trigger] is_best_bin(hist(maps, g, sample), tables[g], m, c) ==> tables[g][c]
            <= tables[f][b]
    &&& forall|g: int, c: int|
        0 <= g < f && #[trigger] is_best_bin(hist(maps, g, sample), tables[g], m, c) ==> tables[g][c] < tables[f][b]
}

/// Searches all features for the best split of `sample`. For each feature
/// the prefix-count histogram is built here and `scores` gives the quality
/// of a split after each bin (as order keys); `select_split` then picks.
/// Returns the choice, `None` when no feature has an admissible bin, and
/// the score table of each feature.
pub fn find_split<S>(maps: &Vec<ThresholdMap>, sample: &Vec<usize>, m: usize, scores: &S) -> (r: (
    Option<(usize, usize)>,
    Vec<Vec<u64>>,
))
    where
        S: Fn(usize, &Vec<usize>, &Vec<usize>) -> Vec<u64>,
    requires
        forall|f: int| 0 <= f < maps@.len() ==> (#[trigger] maps@[f]).wf() && in_range(maps@[f].bin_of@, sample@),
        forall|f: usize, s: &Vec<usize>, c: &Vec<usize>| scores.requires((f, s, c)),
    ensures
        r.1@.len() == maps@.len(),
        forall|f: int| 0 <= f < maps@.len() ==> scored(*scores, maps@, sample@, f, #[trigger] r.1@[f]@),
        r.0 is None <==> forall|f: int, b: int| !can_split(maps@, sample@, m as int, f, b),
        r.0 matches Some((f, b)) ==> can_split(maps@, sample@, m as int, f as int, b as int) && best_split_of(
            maps@,
            sample@,
            m as int,
            Seq::new(maps@.len(), |g: int| r.1@[g]@),
            f as int,
            b as int,
        ),
{
    let mut all_counts: Vec<Vec<usize>> = Vec::new();
    let mut all_scores: Vec<Vec<u64>> = Vec::new();
    let mut f: usize = 0;
    while f < maps.len()
        invariant
            forall|g: int| 0 <= g < maps@.len() ==> (#[trigger] maps@[g]).wf() && in_range(maps@[g].bin_of@, sample@),
            forall|g: usize, s: &Vec<usize>, c: &Vec<usize>| scores.requires((g, s, c)),
            f <= maps@.len(),
            all_counts@.len() == f,
            all_scores@.len() == f,
            forall|g: int|
                0 <= g < f ==> (#[trigger] all_counts@[g])@.len() == all_scores@[g]@.len() && all_counts@[g]@
                    == hist(maps@, g, sample@),
            forall|g: int| 0 <= g < f ==> scored(*scores, maps@, sample@, g, #[trigger] all_scores@[g]@),
            forall|g: int, b: int|
                0 <= g < f ==> (#[trigger] admissible(all_counts@[g]@, m as int, b) <==> can_split(
                    maps@,
                    sample@,
                    m as int,
                    g,
                    b,
                )),
        decreases maps@.len() - f,
    {
        let map = &maps[f];
        let nbins = map.thresholds.len();
        let counts = count_histogram(&map.bin_of, sample, nbins);
        proof {
            lemma_count_all(map.bin_of@, sample@, nbins - 1);
            assert forall|b: int| admissible(counts@, m as int, b) == can_split(maps@, sample@, m as int, f as int, b) by {
                if 0 <= b < nbins {
                    assert(counts@[b] == count_le(map.bin_of@, sample@, b));
                    assert(counts@.last() == counts@[nbins - 1]);
                }
            }
            assert(counts@ =~= hist(maps@, f as int, sample@));
        }
        let given = scores(f, sample, &counts);
        let quality = if given.len() == nbins {
            given
        } else {
            vec![0u64; nbins]
        };
        proof {
            assert(quality@ =~= padded(given@, nbins as int));
            assert(call_ensures(*scores, (f, sample, &counts), given));
            assert(maps@[f as int].thresholds@.len() == nbins);
            assert(sample@ == sample@ && (&counts)@ == hist(maps@, f as int, sample@) && call_ensures(
                *scores,
                ((f as int) as usize, sample, &counts),
                given,
            ) && quality@ == padded(given@, maps@[f as int].thresholds@.len() as int));
            assert(scored(*scores, maps@, sample@, f as int, quality@));
        }
        all_counts.push(counts);
        all_scores.push(quality);
        proof {
            assert(all_counts@[f as int]@ == counts@);
            assert(all_scores@[f as int]@ == quality@);
        }
        f = f + 1;
    }
    let r = select_split(&all_counts, &all_scores, m);
    proof {
        let tables = Seq::new(maps@.len(), |g: int| all_scores@[g]@);
        assert forall|g: int, b: int| r is None implies !can_split(maps@, sample@, m as int, g, b) by {
            if 0 <= g < maps@.len() {
                assert(!admissible(all_counts@[g]@, m as int, b));
            }
        }
        match r {
            Some((g, b)) => {
                assert(admissible(all_counts@[g as int]@, m as int, b as int));
                assert(tables[g as int] == all_scores@[g as int]@);
                assert forall|h: int, c: int|
                    0 <= h < maps@.len() && #[trigger] is_best_bin(hist(maps@, h, sample@), tables[h], m as int, c)
                        implies tables[h][c] <= tables[g as int][b as int] && (h < g ==> tables[h][c]
                        < tables[g as int][b as int]) by {
                    assert(tables[h] == all_scores@[h]@);
                    assert(all_counts@[h]@ == hist(maps@, h, sample@));
                    assert(is_best_bin(all_counts@[h]@, all_scores@[h]@, m as int, c));
                }
            },
            None => {},
        }
    }
    (r, all_scores)
}

/// In a closed arena every walk ends at a numbered leaf.
pub proof fn lemma_walk_closed(nodes: Seq<Node>, i: int, values: Seq<u64>, zero: u64, n_leaves: int)
    requires
        0 <= i < nodes.len(),
        children_ok(nodes),
        complete(nodes),
        leaves_ok(nodes, n_leaves),
    ensures
        0 <= walk(nodes, i, values, zero) < n_leaves,
    decreases nodes.len() - i,
{
    match nodes[i] {
        Node::Internal { left, right, .. } => {
            lemma_walk_closed(nodes, left as int, values, zero, n_leaves);
            lemma_walk_closed(nodes, right as int, values, zero, n_leaves);
        },
        _ => {},
    }
}

} // verus!
