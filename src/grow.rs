use vstd::prelude::*;
use crate::histogram::{above, at_most, in_range, lemma_count_all};
use crate::split::lemma_sides_len;
use crate::threshold::ThresholdMap;
use crate::tree::{
    best_split_of, bin_end, bin_walk, can_split, children_ok, leaf_present, leaves_ok, maps_ok, scored,
    splits_ok, lemma_bin_end_close, lemma_bin_end_split, Node, NodeData,
};

verus! {

/// Node `x` is a child of node `i`.
pub open spec fn is_child(nodes: Seq<Node>, i: int, x: int) -> bool {
    0 <= i < nodes.len() && match nodes[i] {
        Node::Internal { left, right, .. } => left == x || right == x,
        _ => false,
    }
}

/// Some node has `x` as a child.
pub open spec fn has_parent(nodes: Seq<Node>, x: int) -> bool {
    exists|i: int| #[trigger] is_child(nodes, i, x)
}

/// The arena is one rooted tree: the root has no parent, and every other
/// node has exactly one.
pub open spec fn one_parent(nodes: Seq<Node>) -> bool {
    &&& forall|i: int| !is_child(nodes, i, 0)
    &&& forall|i: int, j: int, x: int| #[trigger] is_child(nodes, i, x) && #[trigger] is_child(nodes, j, x) ==> i == j
    &&& forall|x: int| 1 <= x < nodes.len() ==> #[trigger] has_parent(nodes, x)
}

/// No feature offers an admissible split of `sample`.
pub open spec fn no_split(maps: Seq<ThresholdMap>, sample: Seq<usize>, m: int) -> bool {
    forall|f: int, b: int| !can_split(maps, sample, m, f, b)
}

/// The instances `0..n`, in order.
pub open spec fn root_sample(n: int) -> Seq<usize> {
    Seq::new(n as nat, |i: int| i as usize)
}

/// Internal node `v` split its sample after an admissible bin chosen as
/// the best under the score tables recorded for it, and its children hold
/// the two sides.
pub open spec fn internal_ok<S: Fn(usize, &Vec<usize>, &Vec<usize>) -> Vec<u64>>(
    nodes: Seq<Node>,
    samples: Seq<Seq<usize>>,
    tables: Seq<Seq<Seq<u64>>>,
    maps: Seq<ThresholdMap>,
    m: int,
    scores: S,
    v: int,
) -> bool {
    match nodes[v] {
        Node::Internal { fid, bin, left, right, .. } => {
            &&& samples[left as int] == samples[v].filter(at_most(maps[fid as int].bin_of@, bin as int))
            &&& samples[right as int] == samples[v].filter(above(maps[fid as int].bin_of@, bin as int))
            &&& can_split(maps, samples[v], m, fid as int, bin as int)
            &&& tables[v].len() == maps.len()
            &&& forall|f: int| 0 <= f < maps.len() ==> scored(scores, maps, samples[v], f, #[trigger] tables[v][f])
            &&& best_split_of(maps, samples[v], m, tables[v], fid as int, bin as int)
        },
        _ => true,
    }
}

/// What a tree grown on instances `0..n` satisfies, with `samples[v]` the
/// instances that reach node `v`, `tables[v]` the score tables its split
/// was chosen under, and `leaves[k]` the instances of leaf `k`.
pub open spec fn grown<S: Fn(usize, &Vec<usize>, &Vec<usize>) -> Vec<u64>>(
    nodes: Seq<Node>,
    samples: Seq<Seq<usize>>,
    tables: Seq<Seq<Seq<u64>>>,
    leaves: Seq<Seq<usize>>,
    maps: Seq<ThresholdMap>,
    n: int,
    max_leaves: int,
    m: int,
    scores: S,
) -> bool {
    &&& one_parent(nodes)
    &&& splits_ok(nodes, maps)
    &&& samples.len() == nodes.len()
    &&& samples[0] == root_sample(n)
    &&& forall|v: int, j: int| 0 <= v < nodes.len() && 0 <= j < samples[v].len() ==> #[trigger] samples[v][j] < n
    &&& forall|v: int| 0 <= v < nodes.len() ==> internal_ok(nodes, samples, tables, maps, m, scores, v)
    &&& forall|v: int|
        0 <= v < nodes.len() && (#[trigger] nodes[v] is Internal) ==> nodes[v]->bin + 1
            < maps[nodes[v]->fid as int].thresholds@.len()
    &&& forall|v: int|
        0 <= v < nodes.len() && (#[trigger] nodes[v] is Leaf) ==> {
            &&& samples[v] == leaves[nodes[v]->leaf as int]
            &&& leaves.len() == max_leaves || no_split(maps, samples[v], m)
        }
    &&& forall|v: int| 1 <= v < nodes.len() ==> (#[trigger] samples[v]).len() >= m
    &&& forall|k: int, j: int|
        0 <= k < leaves.len() && 0 <= j < leaves[k].len() ==> #[trigger] leaves[k][j] < n && bin_walk(
            nodes,
            maps,
            leaves[k][j],
        ) == k
    &&& forall|x: usize|
        x < n ==> 0 <= #[trigger] bin_walk(nodes, maps, x) < leaves.len() && leaves[bin_walk(nodes, maps, x)].contains(x)
}

/// `v` is what `variance` gave for `sample`.
pub open spec fn prioritized<P: Fn(&Vec<usize>) -> u64>(variance: P, sample: Seq<usize>, v: u64) -> bool {
    exists|s: &Vec<usize>| s@ == sample && #[trigger] call_ensures(variance, (s,), v)
}

/// Node `u` goes before node `w` in best-first order: it has the higher
/// priority, or the same priority and the lower index.
pub open spec fn outranks(vars: Seq<u64>, u: int, w: int) -> bool {
    vars[u] > vars[w] || (vars[u] == vars[w] && u < w)
}

/// Growth was best-first: `vars[v]` is the priority of node `v`'s
/// sample, `pop[v]` the rank at which node `v` left the frontier, and
/// `created[v]` the number of nodes when it left. Each node left the
/// frontier once, and outranks every node that was waiting beside it
/// (one that existed then and left later).
pub open spec fn best_first<P: Fn(&Vec<usize>) -> u64>(
    nodes: Seq<Node>,
    samples: Seq<Seq<usize>>,
    vars: Seq<u64>,
    pop: Seq<int>,
    created: Seq<int>,
    variance: P,
) -> bool {
    &&& vars.len() == nodes.len()
    &&& pop.len() == nodes.len()
    &&& created.len() == nodes.len()
    &&& forall|v: int| 0 <= v < nodes.len() ==> prioritized(variance, samples[v], #[trigger] vars[v])
    &&& forall|v: int| 0 <= v < nodes.len() ==> 0 <= #[trigger] pop[v] && v < created[v] <= nodes.len()
    &&& forall|u: int, v: int|
        0 <= u < nodes.len() && 0 <= v < nodes.len() && u != v ==> #[trigger] pop[u] != #[trigger] pop[v]
    &&& forall|u: int, v: int|
        0 <= u < nodes.len() && 0 <= v < nodes.len() && #[trigger] pop[u] < #[trigger] pop[v] && v < created[u]
            ==> outranks(vars, u, v)
}

/// A frontier element as the proof sees it: node index, sample, priority.
pub open spec fn entry_of(d: NodeData) -> (usize, Seq<usize>, u64) {
    (d.index, d.sample@, d.variance)
}

/// The state of best-first growth.
pub struct Growth {
    pub nodes: Seq<Node>,
    pub frontier: Seq<(usize, Seq<usize>, u64)>,
    pub leaves: Seq<Seq<usize>>,
    pub internal: int,
    pub slot: Seq<int>,
    pub leaf_node: Seq<int>,
    pub samples: Seq<Seq<usize>>,
    pub tables: Seq<Seq<Seq<u64>>>,
    pub budget_hit: bool,
    pub vars: Seq<u64>,
    pub pop: Seq<int>,
    pub created: Seq<int>,
    pub pops: int,
}

/// The invariant of growth.
#[verifier::opaque]
pub open spec fn inv<S: Fn(usize, &Vec<usize>, &Vec<usize>) -> Vec<u64>, P: Fn(&Vec<usize>) -> u64>(
    g: Growth,
    maps: Seq<ThresholdMap>,
    n: int,
    max_leaves: int,
    m: int,
    scores: S,
    variance: P,
) -> bool {
    &&& 1 <= max_leaves <= usize::MAX / 4
    &&& m >= 1
    &&& maps_ok(maps, n)
    &&& g.nodes.len() == 2 * g.internal + 1
    &&& g.leaves.len() + g.frontier.len() == g.internal + 1
    &&& g.leaves.len() + g.frontier.len() <= max_leaves
    &&& g.slot.len() == g.nodes.len()
    &&& g.samples.len() == g.nodes.len()
    &&& g.tables.len() == g.nodes.len()
    &&& g.leaf_node.len() == g.leaves.len()
    &&& children_ok(g.nodes)
    &&& splits_ok(g.nodes, maps)
    &&& leaves_ok(g.nodes, g.leaves.len() as int)
    &&& one_parent(g.nodes)
    &&& forall|k: int|
        0 <= k < g.leaves.len() ==> {
            &&& 0 <= #[trigger] g.leaf_node[k] < g.nodes.len()
            &&& g.nodes[g.leaf_node[k]] == (Node::Leaf { leaf: k as usize })
            &&& g.samples[g.leaf_node[k]] == g.leaves[k]
        }
    &&& forall|k: int|
        0 <= k < g.frontier.len() ==> {
            &&& (#[trigger] g.frontier[k]).0 < g.nodes.len()
            &&& g.nodes[g.frontier[k].0 as int] is Frontier
            &&& g.samples[g.frontier[k].0 as int] == g.frontier[k].1
        }
    &&& forall|k1: int, k2: int|
        0 <= k1 < k2 < g.frontier.len() ==> (#[trigger] g.frontier[k1]).0 < (#[trigger] g.frontier[k2]).0
    &&& forall|x: int|
        0 <= x < g.nodes.len() && (#[trigger] g.nodes[x] is Frontier) ==> 0 <= g.slot[x] < g.frontier.len()
            && g.frontier[g.slot[x]].0 == x
    &&& g.samples[0] == root_sample(n)
    &&& forall|v: int, j: int| 0 <= v < g.nodes.len() && 0 <= j < g.samples[v].len() ==> #[trigger] g.samples[v][j] < n
    &&& forall|v: int| 0 <= v < g.nodes.len() ==> internal_ok(g.nodes, g.samples, g.tables, maps, m, scores, v)
    &&& forall|v: int|
        0 <= v < g.nodes.len() && (#[trigger] g.nodes[v] is Leaf) ==> g.budget_hit || no_split(maps, g.samples[v], m)
    &&& g.budget_hit ==> g.leaves.len() + g.frontier.len() >= max_leaves
    &&& forall|v: int| 1 <= v < g.nodes.len() ==> (#[trigger] g.samples[v]).len() >= m
    &&& forall|v: int, j: int|
        0 <= v < g.nodes.len() && !(g.nodes[v] is Internal) && 0 <= j < g.samples[v].len() ==> bin_end(
            g.nodes,
            0,
            maps,
            #[trigger] g.samples[v][j],
        ) == v
    &&& forall|x: usize|
        x < n ==> {
            let e = #[trigger] bin_end(g.nodes, 0, maps, x);
            &&& 0 <= e < g.nodes.len()
            &&& !(g.nodes[e] is Internal)
            &&& g.samples[e].contains(x)
        }
    &&& g.vars.len() == g.nodes.len()
    &&& g.pop.len() == g.nodes.len()
    &&& g.created.len() == g.nodes.len()
    &&& g.pops >= 0
    &&& forall|v: int| 0 <= v < g.nodes.len() ==> prioritized(variance, g.samples[v], #[trigger] g.vars[v])
    &&& forall|k: int| 0 <= k < g.frontier.len() ==> (#[trigger] g.frontier[k]).2 == g.vars[g.frontier[k].0 as int]
    &&& forall|v: int| 0 <= v < g.nodes.len() ==> ((#[trigger] g.nodes[v] is Frontier) <==> g.pop[v] < 0)
    &&& forall|v: int|
        0 <= v < g.nodes.len() && 0 <= #[trigger] g.pop[v] ==> g.pop[v] < g.pops && v < g.created[v] <= g.nodes.len()
    &&& forall|u: int, v: int|
        0 <= u < g.nodes.len() && 0 <= v < g.nodes.len() && u != v && 0 <= #[trigger] g.pop[u] && 0 <= #[trigger] g.pop[v]
            ==> g.pop[u] != g.pop[v]
    &&& forall|u: int, k: int|
        0 <= u < g.nodes.len() && 0 <= #[trigger] g.pop[u] && 0 <= k < g.frontier.len() && (#[trigger] g.frontier[k]).0
            < g.created[u] ==> outranks(g.vars, u, g.frontier[k].0 as int)
    &&& forall|u: int, v: int|
        0 <= u < g.nodes.len() && 0 <= v < g.nodes.len() && 0 <= #[trigger] g.pop[u] && g.pop[u] < #[trigger] g.pop[v]
            && v < g.created[u] ==> outranks(g.vars, u, v)
}

/// Frontier position `k0` holds the first highest priority.
pub open spec fn first_max(g: Growth, k0: int) -> bool {
    forall|k: int|
        0 <= k < g.frontier.len() ==> (#[trigger] g.frontier[k]).2 <= g.frontier[k0].2 && (k < k0 ==> g.frontier[k].2
            < g.frontier[k0].2)
}

/// The facts of the invariant that the growth loop itself reads.
pub proof fn lemma_basic<S: Fn(usize, &Vec<usize>, &Vec<usize>) -> Vec<u64>, P: Fn(&Vec<usize>) -> u64>(
    g: Growth,
    maps: Seq<ThresholdMap>,
    n: int,
    max_leaves: int,
    m: int,
    scores: S,
    variance: P,
)
    requires
        inv(g, maps, n, max_leaves, m, scores, variance),
    ensures
        1 <= max_leaves <= usize::MAX / 4,
        maps_ok(maps, n),
        g.nodes.len() == 2 * g.internal + 1,
        g.leaves.len() + g.frontier.len() == g.internal + 1,
        g.leaves.len() + g.frontier.len() <= max_leaves,
        g.budget_hit ==> g.leaves.len() + g.frontier.len() >= max_leaves,
        forall|k: int| 0 <= k < g.frontier.len() ==> (#[trigger] g.frontier[k]).0 < g.nodes.len(),
        forall|k: int, j: int|
            0 <= k < g.frontier.len() && 0 <= j < g.frontier[k].1.len() ==> #[trigger] g.frontier[k].1[j] < n,
{
    reveal(inv);
    assert forall|k: int, j: int| 0 <= k < g.frontier.len() && 0 <= j < g.frontier[k].1.len() implies #[trigger] g.frontier[k].1[j]
        < n by {
        assert(g.samples[g.frontier[k].0 as int][j] < n);
    }
}

/// The state before any step: the root alone, on the frontier.
pub open spec fn init_state(n: int, v0: u64) -> Growth {
    Growth {
        nodes: seq![Node::Frontier],
        frontier: seq![(0usize, root_sample(n), v0)],
        leaves: Seq::empty(),
        internal: 0,
        slot: seq![0int],
        leaf_node: Seq::empty(),
        samples: seq![root_sample(n)],
        tables: seq![Seq::empty()],
        budget_hit: false,
        vars: seq![v0],
        pop: seq![-1int],
        created: seq![0int],
        pops: 0,
    }
}

pub proof fn lemma_init<S: Fn(usize, &Vec<usize>, &Vec<usize>) -> Vec<u64>, P: Fn(&Vec<usize>) -> u64>(
    maps: Seq<ThresholdMap>,
    n: int,
    max_leaves: int,
    m: int,
    scores: S,
    variance: P,
    v0: u64,
)
    requires
        1 <= max_leaves <= usize::MAX / 4,
        m >= 1,
        0 <= n <= usize::MAX,
        maps_ok(maps, n),
        prioritized(variance, root_sample(n), v0),
    ensures
        inv(init_state(n, v0), maps, n, max_leaves, m, scores, variance),
{
    reveal(inv);
    let g = init_state(n, v0);
    assert forall|x: usize| x < n implies ({
        let e = #[trigger] bin_end(g.nodes, 0, maps, x);
        &&& 0 <= e < g.nodes.len()
        &&& !(g.nodes[e] is Internal)
        &&& g.samples[e].contains(x)
    }) by {
        assert(bin_end(g.nodes, 0, maps, x) == 0);
        assert(root_sample(n)[x as int] == x);
    }
    assert forall|x: int| 1 <= x < g.nodes.len() implies #[trigger] has_parent(g.nodes, x) by {}
    assert forall|v: int, j: int| 0 <= v < g.nodes.len() && !(g.nodes[v] is Internal) && 0 <= j < g.samples[v].len()
        implies bin_end(g.nodes, 0, maps, #[trigger] g.samples[v][j]) == v by {}
}

/// Index of a frontier position after position `k0` was taken out.
pub open spec fn shifted(slot: Seq<int>, k0: int) -> Seq<int> {
    Seq::new(slot.len(), |x: int| if slot[x] > k0 { slot[x] - 1 } else { slot[x] })
}

/// Closing the `k0`-th frontier element as a leaf.
pub open spec fn close_state(g: Growth, k0: int, budget: bool) -> Growth {
    let j = g.frontier[k0].0 as int;
    Growth {
        nodes: g.nodes.update(j, Node::Leaf { leaf: g.leaves.len() as usize }),
        frontier: g.frontier.remove(k0),
        leaves: g.leaves.push(g.frontier[k0].1),
        internal: g.internal,
        slot: shifted(g.slot, k0),
        leaf_node: g.leaf_node.push(j),
        samples: g.samples,
        tables: g.tables,
        budget_hit: g.budget_hit || budget,
        vars: g.vars,
        pop: g.pop.update(j, g.pops),
        created: g.created.update(j, g.nodes.len() as int),
        pops: g.pops + 1,
    }
}

/// Splitting the `k0`-th frontier element after bin `b` of feature `f`.
pub open spec fn split_state(
    g: Growth,
    k0: int,
    f: usize,
    b: usize,
    threshold: u64,
    l: Seq<usize>,
    r: Seq<usize>,
    vl: u64,
    vr: u64,
    table: Seq<Seq<u64>>,
) -> Growth {
    let j = g.frontier[k0].0 as int;
    let li = g.nodes.len();
    let flen = g.frontier.len() - 1;
    Growth {
        nodes: g.nodes.push(Node::Frontier).push(Node::Frontier).update(
            j,
            Node::Internal { fid: f, bin: b, threshold, left: li as usize, right: (li + 1) as usize },
        ),
        frontier: g.frontier.remove(k0).push((li as usize, l, vl)).push(((li + 1) as usize, r, vr)),
        leaves: g.leaves,
        internal: g.internal + 1,
        slot: shifted(g.slot, k0).push(flen).push(flen + 1),
        leaf_node: g.leaf_node,
        samples: g.samples.push(l).push(r),
        tables: g.tables.update(j, table).push(Seq::empty()).push(Seq::empty()),
        budget_hit: g.budget_hit,
        vars: g.vars.push(vl).push(vr),
        pop: g.pop.update(j, g.pops).push(-1).push(-1),
        created: g.created.update(j, li as int).push(0).push(0),
        pops: g.pops + 1,
    }
}

/// Closing a frontier element as a leaf keeps the invariant, where either
/// the leaf budget is reached or no feature can split its sample.
#[verifier::rlimit(50)]
pub proof fn lemma_close<S: Fn(usize, &Vec<usize>, &Vec<usize>) -> Vec<u64>, P: Fn(&Vec<usize>) -> u64>(
    g: Growth,
    maps: Seq<ThresholdMap>,
    n: int,
    max_leaves: int,
    m: int,
    scores: S,
    variance: P,
    k0: int,
    budget: bool,
)
    requires
        inv(g, maps, n, max_leaves, m, scores, variance),
        0 <= k0 < g.frontier.len(),
        first_max(g, k0),
        budget ==> g.leaves.len() + g.frontier.len() >= max_leaves,
        !budget ==> no_split(maps, g.frontier[k0].1, m),
    ensures
        inv(close_state(g, k0, budget), maps, n, max_leaves, m, scores, variance),
{
    reveal(inv);
    let g2 = close_state(g, k0, budget);
    let j = g.frontier[k0].0 as int;
    let id = g.leaves.len();
    assert forall|k: int| 0 <= k < g2.frontier.len() implies #[trigger] g2.frontier[k] == if k < k0 {
        g.frontier[k]
    } else {
        g.frontier[k + 1]
    } by {}
    assert forall|k: int| 0 <= k < g.frontier.len() && k != k0 implies (#[trigger] g.frontier[k]).0 != j by {
        if k < k0 {
            assert(g.frontier[k].0 < g.frontier[k0].0);
        } else {
            assert(g.frontier[k0].0 < g.frontier[k].0);
        }
    }
    assert forall|i: int| 0 <= i < g.nodes.len() implies #[trigger] g2.nodes[i] == if i == j {
        Node::Leaf { leaf: id as usize }
    } else {
        g.nodes[i]
    } by {}
    assert forall|i: int, x: int| #[trigger] is_child(g2.nodes, i, x) == is_child(g.nodes, i, x) by {}
    assert(one_parent(g2.nodes)) by {
        assert forall|x: int| 1 <= x < g2.nodes.len() implies #[trigger] has_parent(g2.nodes, x) by {
            assert(has_parent(g.nodes, x));
            let i = choose|i: int| #[trigger] is_child(g.nodes, i, x);
            assert(is_child(g2.nodes, i, x));
        }
        assert forall|i: int| !is_child(g2.nodes, i, 0) by {
            assert(!is_child(g.nodes, i, 0));
        }
    }
    assert(children_ok(g2.nodes));
    assert(splits_ok(g2.nodes, maps)) by {
        assert forall|i: int| 0 <= i < g2.nodes.len() implies match #[trigger] g2.nodes[i] {
            Node::Internal { fid, bin, threshold, .. } => {
                &&& fid < maps.len()
                &&& bin < maps[fid as int].thresholds@.len()
                &&& threshold == maps[fid as int].thresholds@[bin as int]
            },
            _ => true,
        } by {
            assert(g.nodes[i] == g2.nodes[i] || i == j);
        }
    }
    assert(leaves_ok(g2.nodes, g2.leaves.len() as int)) by {
        assert forall|i: int| 0 <= i < g2.nodes.len() && (#[trigger] g2.nodes[i] is Leaf) implies g2.nodes[i]->leaf
            < g2.leaves.len() by {
            if i != j {
                assert(g.nodes[i] is Leaf);
            }
        }
        assert forall|i: int, i2: int|
            0 <= i < g2.nodes.len() && 0 <= i2 < g2.nodes.len() && i != i2 && (#[trigger] g2.nodes[i] is Leaf) && (
            #[trigger] g2.nodes[i2] is Leaf) implies g2.nodes[i]->leaf != g2.nodes[i2]->leaf by {
            if i != j && i2 != j {
                assert(g.nodes[i] is Leaf && g.nodes[i2] is Leaf);
            } else if i == j {
                assert(g.nodes[i2] is Leaf);
            } else {
                assert(g.nodes[i] is Leaf);
            }
        }
    }
    assert forall|k: int| 0 <= k < g2.leaves.len() implies {
        &&& 0 <= #[trigger] g2.leaf_node[k] < g2.nodes.len()
        &&& g2.nodes[g2.leaf_node[k]] == (Node::Leaf { leaf: k as usize })
        &&& g2.samples[g2.leaf_node[k]] == g2.leaves[k]
    } by {
        if k < id {
            assert(g.leaf_node[k] == g2.leaf_node[k]);
            assert(g.nodes[g.leaf_node[k]] is Leaf);
        }
    }
    assert forall|k: int| 0 <= k < g2.frontier.len() implies {
        &&& (#[trigger] g2.frontier[k]).0 < g2.nodes.len()
        &&& g2.nodes[g2.frontier[k].0 as int] is Frontier
        &&& g2.samples[g2.frontier[k].0 as int] == g2.frontier[k].1
    } by {
        if k < k0 {
            assert(g.frontier[k].0 != j);
        } else {
            assert(g.frontier[k + 1].0 != j);
        }
    }
    assert forall|k1: int, k2: int| 0 <= k1 < k2 < g2.frontier.len() implies (#[trigger] g2.frontier[k1]).0
        < (#[trigger] g2.frontier[k2]).0 by {
        let a = if k1 < k0 { k1 } else { k1 + 1 };
        let c = if k2 < k0 { k2 } else { k2 + 1 };
        assert(g.frontier[a].0 < g.frontier[c].0);
    }
    assert forall|x: int| 0 <= x < g2.nodes.len() && (#[trigger] g2.nodes[x] is Frontier) implies 0 <= g2.slot[x]
        < g2.frontier.len() && g2.frontier[g2.slot[x]].0 == x by {
        assert(x != j);
        assert(g.nodes[x] is Frontier);
        let s0 = g.slot[x];
        assert(g.frontier[s0].0 == x);
        assert(s0 != k0);
    }
    assert forall|v: int| 0 <= v < g2.nodes.len() implies internal_ok(g2.nodes, g2.samples, g2.tables, maps, m, scores, v) by {
        assert(internal_ok(g.nodes, g.samples, g.tables, maps, m, scores, v));
    }
    assert forall|v: int| 0 <= v < g2.nodes.len() && (#[trigger] g2.nodes[v] is Leaf) implies g2.budget_hit || no_split(
        maps,
        g2.samples[v],
        m,
    ) by {
        if v != j {
            assert(g.nodes[v] is Leaf);
        } else {
            assert(g.samples[j] == g.frontier[k0].1);
        }
    }
    assert forall|x: usize| bin_end(g2.nodes, 0, maps, x) == #[trigger] bin_end(g.nodes, 0, maps, x) by {
        lemma_bin_end_close(g.nodes, j, id as usize, maps, x, 0);
    }
    assert forall|v: int, jj: int|
        0 <= v < g2.nodes.len() && !(g2.nodes[v] is Internal) && 0 <= jj < g2.samples[v].len() implies bin_end(
        g2.nodes,
        0,
        maps,
        #[trigger] g2.samples[v][jj],
    ) == v by {
        assert(!(g.nodes[v] is Internal));
        assert(bin_end(g.nodes, 0, maps, g.samples[v][jj]) == v);
    }
    assert forall|x: usize| x < n implies ({
        let e = #[trigger] bin_end(g2.nodes, 0, maps, x);
        &&& 0 <= e < g2.nodes.len()
        &&& !(g2.nodes[e] is Internal)
        &&& g2.samples[e].contains(x)
    }) by {
        let e = bin_end(g.nodes, 0, maps, x);
        assert(0 <= e < g.nodes.len() && !(g.nodes[e] is Internal));
    }
}

/// Splitting a frontier element after the best admissible split, under
/// the leaf budget, keeps the invariant.
#[verifier::rlimit(80)]
pub proof fn lemma_split<S: Fn(usize, &Vec<usize>, &Vec<usize>) -> Vec<u64>, P: Fn(&Vec<usize>) -> u64>(
    g: Growth,
    maps: Seq<ThresholdMap>,
    n: int,
    max_leaves: int,
    m: int,
    scores: S,
    variance: P,
    k0: int,
    f: usize,
    b: usize,
    threshold: u64,
    l: Seq<usize>,
    r: Seq<usize>,
    vl: u64,
    vr: u64,
    table: Seq<Seq<u64>>,
)
    requires
        inv(g, maps, n, max_leaves, m, scores, variance),
        0 <= k0 < g.frontier.len(),
        first_max(g, k0),
        prioritized(variance, l, vl),
        prioritized(variance, r, vr),
        g.leaves.len() + g.frontier.len() < max_leaves,
        can_split(maps, g.frontier[k0].1, m, f as int, b as int),
        table.len() == maps.len(),
        forall|h: int| 0 <= h < maps.len() ==> scored(scores, maps, g.frontier[k0].1, h, #[trigger] table[h]),
        best_split_of(maps, g.frontier[k0].1, m, table, f as int, b as int),
        threshold == maps[f as int].thresholds@[b as int],
        l == g.frontier[k0].1.filter(at_most(maps[f as int].bin_of@, b as int)),
        r == g.frontier[k0].1.filter(above(maps[f as int].bin_of@, b as int)),
    ensures
        inv(split_state(g, k0, f, b, threshold, l, r, vl, vr, table), maps, n, max_leaves, m, scores, variance),
{
    reveal(inv);
    let g2 = split_state(g, k0, f, b, threshold, l, r, vl, vr, table);
    let j = g.frontier[k0].0 as int;
    let li = g.nodes.len() as int;
    let flen = g.frontier.len() - 1;
    let s = g.frontier[k0].1;
    let bo = maps[f as int].bin_of@;
    assert(g.samples[j] == s);
    assert(maps[f as int].wf() && bo.len() == n);
    assert(in_range(bo, s)) by {
        assert forall|x: int| 0 <= x < s.len() implies #[trigger] s[x] < bo.len() by {
            assert(g.samples[j][x] < n);
        }
    }
    lemma_sides_len(bo, s, b as int);
    assert forall|k: int| 0 <= k < g.frontier.len() && k != k0 implies (#[trigger] g.frontier[k]).0 != j by {
        if k < k0 {
            assert(g.frontier[k].0 < g.frontier[k0].0);
        } else {
            assert(g.frontier[k0].0 < g.frontier[k].0);
        }
    }
    assert forall|k: int| 0 <= k < g2.frontier.len() implies #[trigger] g2.frontier[k] == if k < k0 {
        g.frontier[k]
    } else if k < flen {
        g.frontier[k + 1]
    } else if k == flen {
        (li as usize, l, vl)
    } else {
        ((li + 1) as usize, r, vr)
    } by {}
    assert forall|i: int| 0 <= i < g2.nodes.len() implies #[trigger] g2.nodes[i] == if i == j {
        Node::Internal { fid: f, bin: b, threshold, left: li as usize, right: (li + 1) as usize }
    } else if i < li {
        g.nodes[i]
    } else {
        Node::Frontier
    } by {}
    assert forall|i: int| 0 <= i < g2.samples.len() implies #[trigger] g2.samples[i] == if i < li {
        g.samples[i]
    } else if i == li {
        l
    } else {
        r
    } by {}
    assert forall|i: int| 0 <= i < g2.tables.len() implies #[trigger] g2.tables[i] == if i == j {
        table
    } else if i < li {
        g.tables[i]
    } else {
        Seq::<Seq<u64>>::empty()
    } by {}
    // children of old internal nodes stay below li
    assert forall|i: int, x: int| #[trigger] is_child(g.nodes, i, x) implies x < li by {}
    assert forall|i: int, x: int| #[trigger] is_child(g2.nodes, i, x) == (if i == j {
        x == li || x == li + 1
    } else {
        is_child(g.nodes, i, x)
    }) by {}
    assert(one_parent(g2.nodes)) by {
        assert forall|i: int, i2: int, x: int| #[trigger] is_child(g2.nodes, i, x) && #[trigger] is_child(g2.nodes, i2, x)
            implies i == i2 by {
            if i != j && i2 != j {
                assert(is_child(g.nodes, i, x) && is_child(g.nodes, i2, x));
            } else if i == j && i2 != j {
                assert(is_child(g.nodes, i2, x));
            } else if i != j {
                assert(is_child(g.nodes, i, x));
            }
        }
        assert forall|x: int| 1 <= x < g2.nodes.len() implies #[trigger] has_parent(g2.nodes, x) by {
            if x < li {
                assert(has_parent(g.nodes, x));
                let i = choose|i: int| #[trigger] is_child(g.nodes, i, x);
                assert(i != j);
                assert(is_child(g2.nodes, i, x));
            } else {
                assert(is_child(g2.nodes, j, x));
            }
        }
        assert forall|i: int| !is_child(g2.nodes, i, 0) by {
            if i != j {
                assert(!is_child(g.nodes, i, 0));
            }
        }
    }
    assert(children_ok(g2.nodes)) by {
        assert forall|i: int| 0 <= i < g2.nodes.len() implies match #[trigger] g2.nodes[i] {
            Node::Internal { left, right, .. } => i < left && right == left + 1 && right < g2.nodes.len(),
            _ => true,
        } by {
            if i != j && i < li {
                assert(g.nodes[i] == g2.nodes[i]);
            }
        }
    }
    assert(splits_ok(g2.nodes, maps)) by {
        assert forall|i: int| 0 <= i < g2.nodes.len() implies match #[trigger] g2.nodes[i] {
            Node::Internal { fid, bin, threshold, .. } => {
                &&& fid < maps.len()
                &&& bin < maps[fid as int].thresholds@.len()
                &&& threshold == maps[fid as int].thresholds@[bin as int]
            },
            _ => true,
        } by {
            if i != j && i < li {
                assert(g.nodes[i] == g2.nodes[i]);
            }
        }
    }
    assert(leaves_ok(g2.nodes, g2.leaves.len() as int)) by {
        assert forall|i: int| 0 <= i < g2.nodes.len() && (#[trigger] g2.nodes[i] is Leaf) implies g2.nodes[i]->leaf
            < g2.leaves.len() by {
            assert(g.nodes[i] is Leaf);
        }
        assert forall|i: int, i2: int|
            0 <= i < g2.nodes.len() && 0 <= i2 < g2.nodes.len() && i != i2 && (#[trigger] g2.nodes[i] is Leaf) && (
            #[trigger] g2.nodes[i2] is Leaf) implies g2.nodes[i]->leaf != g2.nodes[i2]->leaf by {
            assert(g.nodes[i] is Leaf && g.nodes[i2] is Leaf);
        }
    }
    assert forall|k: int| 0 <= k < g2.leaves.len() implies {
        &&& 0 <= #[trigger] g2.leaf_node[k] < g2.nodes.len()
        &&& g2.nodes[g2.leaf_node[k]] == (Node::Leaf { leaf: k as usize })
        &&& g2.samples[g2.leaf_node[k]] == g2.leaves[k]
    } by {
        assert(g.nodes[g.leaf_node[k]] is Leaf);
    }
    assert forall|k: int| 0 <= k < g2.frontier.len() implies {
        &&& (#[trigger] g2.frontier[k]).0 < g2.nodes.len()
        &&& g2.nodes[g2.frontier[k].0 as int] is Frontier
        &&& g2.samples[g2.frontier[k].0 as int] == g2.frontier[k].1
    } by {
        if k < k0 {
            assert(g.frontier[k].0 != j);
        } else if k < flen {
            assert(g.frontier[k + 1].0 != j);
        }
    }
    assert forall|k1: int, k2: int| 0 <= k1 < k2 < g2.frontier.len() implies (#[trigger] g2.frontier[k1]).0
        < (#[trigger] g2.frontier[k2]).0 by {
        if k2 < flen {
            let a = if k1 < k0 { k1 } else { k1 + 1 };
            let c = if k2 < k0 { k2 } else { k2 + 1 };
            assert(g.frontier[a].0 < g.frontier[c].0);
        } else if k1 < flen {
            let a = if k1 < k0 { k1 } else { k1 + 1 };
            assert(g.frontier[a].0 < li);
        }
    }
    assert forall|x: int| 0 <= x < g2.nodes.len() && (#[trigger] g2.nodes[x] is Frontier) implies 0 <= g2.slot[x]
        < g2.frontier.len() && g2.frontier[g2.slot[x]].0 == x by {
        if x < li {
            assert(x != j);
            assert(g.nodes[x] is Frontier);
            let s0 = g.slot[x];
            assert(g.frontier[s0].0 == x);
            assert(s0 != k0);
        }
    }
    assert forall|v: int, jj: int| 0 <= v < g2.nodes.len() && 0 <= jj < g2.samples[v].len() implies #[trigger] g2.samples[v][jj]
        < n by {
        if v < li {
            assert(g.samples[v][jj] < n);
        } else if v == li {
            assert(l.contains(l[jj]));
            s.lemma_filter_contains_rev(at_most(bo, b as int), l[jj]);
            let y = choose|y: int| 0 <= y < s.len() && s[y] == l[jj];
            assert(g.samples[j][y] < n);
        } else {
            assert(r.contains(r[jj]));
            s.lemma_filter_contains_rev(above(bo, b as int), r[jj]);
            let y = choose|y: int| 0 <= y < s.len() && s[y] == r[jj];
            assert(g.samples[j][y] < n);
        }
    }
    assert forall|v: int| 0 <= v < g2.nodes.len() implies internal_ok(g2.nodes, g2.samples, g2.tables, maps, m, scores, v) by {
        if v == j {
            assert(g2.samples[li] == l);
            assert(g2.samples[li + 1] == r);
            assert(g2.samples[j] == s);
            assert(g2.tables[j] == table);
        } else if v < li {
            assert(internal_ok(g.nodes, g.samples, g.tables, maps, m, scores, v));
            match g.nodes[v] {
                Node::Internal { left, right, .. } => {
                    assert(g2.samples[left as int] == g.samples[left as int]);
                    assert(g2.samples[right as int] == g.samples[right as int]);
                },
                _ => {},
            }
        }
    }
    assert forall|v: int| 0 <= v < g2.nodes.len() && (#[trigger] g2.nodes[v] is Leaf) implies g2.budget_hit || no_split(
        maps,
        g2.samples[v],
        m,
    ) by {
        assert(g.nodes[v] is Leaf);
    }
    assert forall|v: int| 1 <= v < g2.nodes.len() implies (#[trigger] g2.samples[v]).len() >= m by {
        if v < li {
            assert(g.samples[v].len() >= m);
        }
    }
    assert forall|x: usize| #[trigger] bin_end(g2.nodes, 0, maps, x) == if bin_end(g.nodes, 0, maps, x) == j {
        if bo[x as int] <= b {
            li
        } else {
            li + 1
        }
    } else {
        bin_end(g.nodes, 0, maps, x)
    } by {
        lemma_bin_end_split(g.nodes, j, f, b, threshold, maps, x, 0);
    }
    assert forall|v: int, jj: int|
        0 <= v < g2.nodes.len() && !(g2.nodes[v] is Internal) && 0 <= jj < g2.samples[v].len() implies bin_end(
        g2.nodes,
        0,
        maps,
        #[trigger] g2.samples[v][jj],
    ) == v by {
        if v < li {
            assert(v != j);
            assert(!(g.nodes[v] is Internal));
            assert(bin_end(g.nodes, 0, maps, g.samples[v][jj]) == v);
        } else if v == li {
            s.lemma_filter_pred(at_most(bo, b as int), jj);
            assert(l.contains(l[jj]));
            s.lemma_filter_contains_rev(at_most(bo, b as int), l[jj]);
            let y = choose|y: int| 0 <= y < s.len() && s[y] == l[jj];
            assert(bin_end(g.nodes, 0, maps, g.samples[j][y]) == j);
        } else {
            s.lemma_filter_pred(above(bo, b as int), jj);
            assert(r.contains(r[jj]));
            s.lemma_filter_contains_rev(above(bo, b as int), r[jj]);
            let y = choose|y: int| 0 <= y < s.len() && s[y] == r[jj];
            assert(bin_end(g.nodes, 0, maps, g.samples[j][y]) == j);
        }
    }
    assert forall|x: usize| x < n implies ({
        let e = #[trigger] bin_end(g2.nodes, 0, maps, x);
        &&& 0 <= e < g2.nodes.len()
        &&& !(g2.nodes[e] is Internal)
        &&& g2.samples[e].contains(x)
    }) by {
        let e = bin_end(g.nodes, 0, maps, x);
        assert(0 <= e < g.nodes.len() && !(g.nodes[e] is Internal) && g.samples[e].contains(x));
        if e == j {
            let y = choose|y: int| 0 <= y < s.len() && s[y] == x;
            if bo[x as int] <= b {
                s.lemma_filter_contains(at_most(bo, b as int), y);
            } else {
                s.lemma_filter_contains(above(bo, b as int), y);
            }
        } else {
            assert(g2.samples[e] == g.samples[e]);
        }
    }
}

/// With the frontier empty, the grown tree is complete and satisfies
/// `grown`.
#[verifier::rlimit(50)]
pub proof fn lemma_final<S: Fn(usize, &Vec<usize>, &Vec<usize>) -> Vec<u64>, P: Fn(&Vec<usize>) -> u64>(
    g: Growth,
    maps: Seq<ThresholdMap>,
    n: int,
    max_leaves: int,
    m: int,
    scores: S,
    variance: P,
)
    requires
        inv(g, maps, n, max_leaves, m, scores, variance),
        g.frontier.len() == 0,
    ensures
        g.nodes.len() >= 1,
        children_ok(g.nodes),
        crate::tree::complete(g.nodes),
        leaves_ok(g.nodes, g.leaves.len() as int),
        forall|k: int| 0 <= k < g.leaves.len() ==> #[trigger] leaf_present(g.nodes, k),
        1 <= g.leaves.len() <= max_leaves,
        grown(g.nodes, g.samples, g.tables, g.leaves, maps, n, max_leaves, m, scores),
        best_first(g.nodes, g.samples, g.vars, g.pop, g.created, variance),
{
    reveal(inv);
    assert forall|v: int| 0 <= v < g.nodes.len() implies 0 <= #[trigger] g.pop[v] && v < g.created[v] <= g.nodes.len() by {
        if g.pop[v] < 0 {
            assert(g.nodes[v] is Frontier);
            assert(0 <= g.slot[v] < g.frontier.len());
        }
    }
    assert forall|x: int| 0 <= x < g.nodes.len() implies !(#[trigger] g.nodes[x] is Frontier) by {
        if g.nodes[x] is Frontier {
            assert(0 <= g.slot[x] < g.frontier.len());
        }
    }
    assert forall|k: int| 0 <= k < g.leaves.len() implies #[trigger] leaf_present(g.nodes, k) by {
        assert(g.nodes[g.leaf_node[k]] == (Node::Leaf { leaf: k as usize }));
    }
    // a leaf node is the node of its leaf number
    assert forall|v: int| 0 <= v < g.nodes.len() && (#[trigger] g.nodes[v] is Leaf) implies g.leaf_node[g.nodes[v]->leaf as int]
        == v by {
        let k = g.nodes[v]->leaf as int;
        let w = g.leaf_node[k];
        if w != v {
            assert(g.nodes[w] is Leaf);
        }
    }
    assert forall|v: int| 0 <= v < g.nodes.len() && (#[trigger] g.nodes[v] is Internal) implies g.nodes[v]->bin + 1
        < maps[g.nodes[v]->fid as int].thresholds@.len() by {
        assert(internal_ok(g.nodes, g.samples, g.tables, maps, m, scores, v));
        let f = g.nodes[v]->fid as int;
        let b = g.nodes[v]->bin as int;
        let s = g.samples[v];
        let bo = maps[f].bin_of@;
        let t = maps[f].thresholds@;
        assert(maps[f].wf() && bo.len() == n);
        if b + 1 >= t.len() {
            assert(in_range(bo, s)) by {
                assert forall|x: int| 0 <= x < s.len() implies #[trigger] s[x] < bo.len() by {
                    assert(g.samples[v][x] < n);
                }
            }
            assert forall|x: int| 0 <= x < s.len() implies bo[#[trigger] s[x] as int] <= b by {
                assert(bo[s[x] as int] < t.len());
            }
            lemma_count_all(bo, s, b);
        }
    }
    assert forall|v: int| 0 <= v < g.nodes.len() && (#[trigger] g.nodes[v] is Leaf) implies {
        &&& g.samples[v] == g.leaves[g.nodes[v]->leaf as int]
        &&& g.leaves.len() == max_leaves || no_split(maps, g.samples[v], m)
    } by {}
    assert forall|k: int, j: int| 0 <= k < g.leaves.len() && 0 <= j < g.leaves[k].len() implies #[trigger] g.leaves[k][j]
        < n && bin_walk(g.nodes, maps, g.leaves[k][j]) == k by {
        let v = g.leaf_node[k];
        assert(g.samples[v][j] < n);
        assert(bin_end(g.nodes, 0, maps, g.samples[v][j]) == v);
    }
    assert forall|x: usize| x < n implies 0 <= #[trigger] bin_walk(g.nodes, maps, x) < g.leaves.len() && g.leaves[bin_walk(
        g.nodes,
        maps,
        x,
    )].contains(x) by {
        let e = bin_end(g.nodes, 0, maps, x);
        assert(0 <= e < g.nodes.len() && !(g.nodes[e] is Internal) && g.samples[e].contains(x));
        assert(g.nodes[e] is Leaf);
    }
}

/// Every split of a grown tree leaves at least `m` instances on each side,
/// and its two sides partition the instances that reached the node.
pub proof fn lemma_tree_split_laws<S: Fn(usize, &Vec<usize>, &Vec<usize>) -> Vec<u64>>(
    nodes: Seq<Node>,
    samples: Seq<Seq<usize>>,
    tables: Seq<Seq<Seq<u64>>>,
    leaves: Seq<Seq<usize>>,
    maps: Seq<ThresholdMap>,
    n: int,
    max_leaves: int,
    m: int,
    scores: S,
    v: int,
)
    requires
        grown(nodes, samples, tables, leaves, maps, n, max_leaves, m, scores),
        maps_ok(maps, n),
        0 <= v < nodes.len(),
        nodes[v] is Internal,
    ensures
        samples[nodes[v]->left as int].len() >= m,
        samples[nodes[v]->right as int].len() >= m,
        forall|x: usize|
            samples[v].contains(x) <==> (samples[nodes[v]->left as int].contains(x) || samples[nodes[v]->right as int].contains(
                x,
            )),
        forall|x: usize| !(samples[nodes[v]->left as int].contains(x) && samples[nodes[v]->right as int].contains(x)),
{
    assert(internal_ok(nodes, samples, tables, maps, m, scores, v));
    let f = nodes[v]->fid as int;
    let bo = maps[f].bin_of@;
    assert(maps[f].wf() && bo.len() == n);
    assert(in_range(bo, samples[v])) by {
        assert forall|x: int| 0 <= x < samples[v].len() implies #[trigger] samples[v][x] < bo.len() by {
            assert(samples[v][x] < n);
        }
    }
    crate::split::lemma_split_laws(bo, samples[v], m, nodes[v]->bin as int);
}

} // verus!
