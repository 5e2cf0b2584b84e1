use std::collections::{HashMap, VecDeque};

use rand::rngs::StdRng;
use vstd::prelude::*;

use crate::deadline::Deadline;
use crate::dist_table::DistTable;
use crate::graph::{
    dist, lemma_dist_exact, lemma_distinct_bounded, lemma_reachable_step, reachable, walk_within, Config, Graph,
};
use crate::instance::Instance;
use crate::pibt::{config_distinct, constraints_collide, swap_free, PartialConfig, PIBT};
use crate::random::{random_index, seeded_rng};
use crate::utils::{lemma_dist_step, loss_upto};

verus! {

broadcast use vstd::std_specs::hash::group_hash_axioms;

/// A plan: `solution[t]` is the configuration at time `t`.
pub type Solution = Vec<Config>;

/// How a search ended.
#[derive(Debug)]
pub enum SolveOutcome {
    /// A plan from the starts to the goals.
    Solved(Solution),
    /// The deadline passed first.
    Timeout,
    /// The search space was exhausted without reaching the goals.
    NoSolution,
}

/// The number of a high-level node in its arena.
#[derive(Clone, Copy, PartialEq, Eq, Structural, Hash, PartialOrd, Ord)]
pub struct HNodeId(pub usize);

/// The number of a low-level node in its arena.
#[derive(Clone, Copy, PartialEq, Eq, Structural, Hash)]
pub struct LNodeId(pub usize);

/// A high-level node: a configuration reached by the search.
pub struct HNode {
    pub config: Config,
    /// The node this one is best reached from; `None` for the start.
    pub parent: Option<HNodeId>,
    /// Nodes one step away, in increasing order, each once.
    pub neighbors: Vec<HNodeId>,
    /// Cost of the best known way here.
    pub g: u128,
    /// Sum of the agents' distances to their goals.
    pub h: u128,
    /// `g + h`, capped at `u128::MAX`.
    pub f: u128,
    /// Priority of each agent, in units of 1/10000.
    pub priorities: Vec<u64>,
    /// The agents by decreasing priority.
    pub order: Vec<usize>,
    /// Low-level nodes (sets of constraints) still to try from this configuration.
    pub search_tree: VecDeque<LNodeId>,
}

/// A low-level node: constraints `(agent, vertex)` on the next configuration; the number of
/// constraints is the depth of the node.
pub struct LNode {
    pub constraints: Vec<(usize, usize)>,
}

/// The high-level nodes, numbered in order of creation.
pub struct HNodeArena {
    nodes: Vec<HNode>,
}

/// The low-level nodes, numbered in order of creation.
pub struct LNodeArena {
    nodes: Vec<LNode>,
}

impl View for HNodeArena {
    type V = Seq<HNode>;

    closed spec fn view(&self) -> Seq<HNode> {
        self.nodes@
    }
}

impl View for LNodeArena {
    type V = Seq<LNode>;

    closed spec fn view(&self) -> Seq<LNode> {
        self.nodes@
    }
}

impl Default for HNodeArena {
    fn default() -> (a: Self)
        ensures
            a@.len() == 0,
    {
        HNodeArena { nodes: Vec::new() }
    }
}

impl Default for LNodeArena {
    fn default() -> (a: Self)
        ensures
            a@.len() == 0,
    {
        LNodeArena { nodes: Vec::new() }
    }
}

impl HNodeArena {
    /// Stores `node` and returns its number.
    pub fn allocate(&mut self, node: HNode) -> (id: HNodeId)
        ensures
            id.0 == old(self)@.len(),
            final(self)@ == old(self)@.push(node),
    {
        let id = HNodeId(self.nodes.len());
        self.nodes.push(node);
        id
    }

    /// The node numbered `id`.
    pub fn get(&self, id: HNodeId) -> (node: &HNode)
        requires
            id.0 < self@.len(),
        ensures
            *node == self@[id.0 as int],
    {
        &self.nodes[id.0]
    }

    /// The node numbered `id`, to change in place.
    pub fn get_mut(&mut self, id: HNodeId) -> (node: &mut HNode)
        requires
            id.0 < old(self)@.len(),
        ensures
            *node == old(self)@[id.0 as int],
            final(self)@ == old(self)@.update(id.0 as int, *final(node)),
    {
        &mut self.nodes[id.0]
    }

    /// The number of nodes.
    pub fn len(&self) -> (n: usize)
        ensures
            n == self@.len(),
    {
        self.nodes.len()
    }
}

impl LNodeArena {
    /// Stores `node` and returns its number.
    pub fn allocate(&mut self, node: LNode) -> (id: LNodeId)
        ensures
            id.0 == old(self)@.len(),
            final(self)@ == old(self)@.push(node),
    {
        let id = LNodeId(self.nodes.len());
        self.nodes.push(node);
        id
    }

    /// The node numbered `id`.
    pub fn get(&self, id: LNodeId) -> (node: &LNode)
        requires
            id.0 < self@.len(),
        ensures
            *node == self@[id.0 as int],
    {
        &self.nodes[id.0]
    }

    /// The number of nodes.
    pub fn len(&self) -> (n: usize)
        ensures
            n == self@.len(),
    {
        self.nodes.len()
    }
}

/// Every agent moves to a neighbour of its vertex or stays.
pub open spec fn moves(g: Graph, c1: Seq<usize>, c2: Seq<usize>) -> bool {
    &&& c1.len() == c2.len()
    &&& forall|i: int| 0 <= i < c1.len() ==> #[trigger] g.acts(c1[i] as int).contains(c2[i])
}

/// No two agents trade places between `c1` and `c2`.
pub open spec fn no_swap(c1: Seq<usize>, c2: Seq<usize>) -> bool {
    forall|i: int, k: int|
        0 <= i < c1.len() && 0 <= k < c1.len() && i != k ==> !(#[trigger] c2[i] == c1[k] && #[trigger] c2[k]
            == c1[i])
}

/// The agents of `instance` stand on vertices of its graph, one per agent.
pub open spec fn config_ok(instance: &Instance, c: Seq<usize>) -> bool {
    &&& c.len() == instance.num_agents
    &&& forall|i: int| 0 <= i < c.len() ==> #[trigger] c[i] < instance.graph.vertices@.len()
}

/// `solution` is a plan for `instance`: it starts at the starts, ends at the goals, and every
/// agent moves to a neighbour or stays at each step; when no two agents start on one vertex,
/// no two agents ever share a vertex and no two trade places.
pub open spec fn valid_plan(instance: &Instance, solution: Seq<Seq<usize>>) -> bool {
    &&& solution.len() >= 1
    &&& solution[0] == instance.starts@
    &&& solution.last() == instance.goals@
    &&& forall|t: int| 0 <= t < solution.len() ==> config_ok(instance, #[trigger] solution[t])
    &&& forall|t: int| 0 <= t < solution.len() - 1 ==> moves(instance.graph, #[trigger] solution[t], solution[t + 1])
    &&& config_distinct(instance.starts@) ==> {
        &&& forall|t: int| 0 <= t < solution.len() ==> config_distinct(#[trigger] solution[t])
        &&& forall|t: int| 0 <= t < solution.len() - 1 ==> no_swap(#[trigger] solution[t], solution[t + 1])
    }
}

/// Number of agents below `k` that are off their goal in `c1` or in `c2`.
pub open spec fn edge_cost_upto(goals: Seq<usize>, c1: Seq<usize>, c2: Seq<usize>, k: int) -> nat
    decreases k,
{
    if k <= 0 {
        0
    } else {
        edge_cost_upto(goals, c1, c2, k - 1) + if c1[k - 1] != goals[k - 1] || c2[k - 1] != goals[k - 1] {
            1nat
        } else {
            0nat
        }
    }
}

/// The cost of a step from `c1` to `c2`: the agents that are not resting at their goal.
pub open spec fn edge_cost(goals: Seq<usize>, c1: Seq<usize>, c2: Seq<usize>) -> nat {
    edge_cost_upto(goals, c1, c2, goals.len() as int)
}

/// The cost of a step is at most the number of agents, and at least one between two
/// different configurations.
proof fn lemma_edge_cost_bounds(goals: Seq<usize>, c1: Seq<usize>, c2: Seq<usize>, k: int)
    requires
        0 <= k <= goals.len(),
        c1.len() == goals.len(),
        c2.len() == goals.len(),
    ensures
        edge_cost_upto(goals, c1, c2, k) <= k,
        (exists|i: int| 0 <= i < k && c1[i] != c2[i]) ==> edge_cost_upto(goals, c1, c2, k) >= 1,
    decreases k,
{
    if k > 0 {
        lemma_edge_cost_bounds(goals, c1, c2, k - 1);
        if exists|i: int| 0 <= i < k && c1[i] != c2[i] {
            let i = choose|i: int| 0 <= i < k && c1[i] != c2[i];
            if i < k - 1 {
                assert(exists|i: int| 0 <= i < k - 1 && c1[i] != c2[i]);
            }
        }
    }
}

/// `b` to the power `e`.
pub open spec fn power(b: nat, e: nat) -> nat
    decreases e,
{
    if e == 0 {
        1
    } else {
        b * power(b, (e - 1) as nat)
    }
}

/// The number of `c` read as digits in base `b`, least significant first.
pub open spec fn config_code(c: Seq<usize>, b: nat) -> nat
    decreases c.len(),
{
    if c.len() == 0 {
        0
    } else {
        c[0] as nat + b * config_code(c.drop_first(), b)
    }
}

/// A configuration with entries below `b` has a code below `b^len`.
proof fn lemma_code_range(c: Seq<usize>, b: nat)
    requires
        forall|i: int| 0 <= i < c.len() ==> #[trigger] c[i] < b,
    ensures
        config_code(c, b) < power(b, c.len()),
    decreases c.len(),
{
    if c.len() > 0 {
        let r = c.drop_first();
        assert forall|i: int| 0 <= i < r.len() implies #[trigger] r[i] < b by {
            assert(r[i] == c[i + 1]);
        }
        lemma_code_range(r, b);
        let x = c[0] as nat;
        let y = config_code(r, b);
        let p = power(b, r.len());
        assert(x + b * y < b * p) by (nonlinear_arith)
            requires
                x < b,
                y < p,
        ;
    }
}

/// Two configurations of one length with entries below `b` and the same code are equal.
proof fn lemma_code_injective(c1: Seq<usize>, c2: Seq<usize>, b: nat)
    requires
        c1.len() == c2.len(),
        forall|i: int| 0 <= i < c1.len() ==> #[trigger] c1[i] < b,
        forall|i: int| 0 <= i < c2.len() ==> #[trigger] c2[i] < b,
        config_code(c1, b) == config_code(c2, b),
    ensures
        c1 == c2,
    decreases c1.len(),
{
    if c1.len() > 0 {
        let r1 = c1.drop_first();
        let r2 = c2.drop_first();
        let x1 = c1[0] as int;
        let x2 = c2[0] as int;
        let y1 = config_code(r1, b) as int;
        let y2 = config_code(r2, b) as int;
        assert(x1 == x2 && y1 == y2) by (nonlinear_arith)
            requires
                0 <= x1 < b,
                0 <= x2 < b,
                0 <= y1,
                0 <= y2,
                x1 + b * y1 == x2 + b * y2,
        {
            if y1 < y2 {
                assert(b * y1 + b <= b * y2);
            } else if y2 < y1 {
                assert(b * y2 + b <= b * y1);
            }
        }
        assert forall|i: int| 0 <= i < r1.len() implies #[trigger] r1[i] < b by {
            assert(r1[i] == c1[i + 1]);
        }
        assert forall|i: int| 0 <= i < r2.len() implies #[trigger] r2[i] < b by {
            assert(r2[i] == c2[i + 1]);
        }
        lemma_code_injective(r1, r2, b);
        assert(c1 =~= seq![c1[0]] + r1);
        assert(c2 =~= seq![c2[0]] + r2);
    }
}

/// The hash under which a configuration is filed: FNV-1a over the agents' vertices.
pub open spec fn config_hash_upto(c: Seq<usize>, k: int) -> u64
    decreases k,
{
    if k <= 0 {
        0xcbf29ce484222325u64
    } else {
        ((((config_hash_upto(c, k - 1) ^ (c[k - 1] as u64)) as int) * 0x100000001b3int) % 0x1_0000_0000_0000_0000int) as u64
    }
}

/// The hash of a whole configuration.
pub open spec fn config_hash(c: Seq<usize>) -> u64 {
    config_hash_upto(c, c.len() as int)
}

/// Computes `config_hash`.
fn hash_config(c: &Vec<usize>) -> (h: u64)
    ensures
        h == config_hash(c@),
{
    let mut h: u64 = 0xcbf29ce484222325u64;
    let mut i: usize = 0;
    while i < c.len()
        invariant
            0 <= i <= c@.len(),
            h == config_hash_upto(c@, i as int),
        decreases c@.len() - i,
    {
        let x = h ^ (c[i] as u64);
        h = x.wrapping_mul(0x100000001b3u64);
        i += 1;
    }
    h
}

/// Where each configuration met so far is filed: its hash leads to a list of node numbers.
pub struct ConfigIndex {
    buckets: HashMap<u64, Vec<usize>>,
}

impl ConfigIndex {
    /// Every node below `len` is filed under the hash of its configuration, and only node
    /// numbers below `len` are filed.
    pub closed spec fn files(&self, configs: Seq<Seq<usize>>) -> bool {
        &&& forall|id: int|
            0 <= id < configs.len() ==> #[trigger] self.buckets@.contains_key(config_hash(configs[id]))
                && self.buckets@[config_hash(configs[id])]@.contains(id as usize)
        &&& forall|key: u64, k: int|
            self.buckets@.contains_key(key) && 0 <= k < self.buckets@[key]@.len() ==> #[trigger] self.buckets@[key]@[k]
                < configs.len()
    }

    /// An empty index.
    pub fn new() -> (ix: Self)
        ensures
            ix.files(Seq::empty()),
    {
        ConfigIndex { buckets: HashMap::new() }
    }

    /// Files node `id` under its configuration `c`.
    pub fn insert(&mut self, c: &Vec<usize>, id: usize, Ghost(configs): Ghost<Seq<Seq<usize>>>)
        requires
            old(self).files(configs),
            id == configs.len(),
        ensures
            final(self).files(configs.push(c@)),
    {
        let key = hash_config(c);
        let mut bucket: Vec<usize> = match self.buckets.get(&key) {
            Some(b) => b.clone(),
            None => Vec::new(),
        };
        bucket.push(id);
        let ghost old_buckets = self.buckets@;
        self.buckets.insert(key, bucket);
        proof {
            let cs = configs.push(c@);
            assert forall|i: int|
                0 <= i < cs.len() implies #[trigger] self.buckets@.contains_key(config_hash(cs[i]))
                    && self.buckets@[config_hash(cs[i])]@.contains(i as usize) by {
                if i < configs.len() {
                    assert(cs[i] == configs[i]);
                    assert(old_buckets.contains_key(config_hash(configs[i])));
                    if config_hash(configs[i]) == key {
                        let k = choose|k: int| 0 <= k < old_buckets[key]@.len() && old_buckets[key]@[k] == i as usize;
                        assert(bucket@[k] == i as usize);
                    }
                } else {
                    assert(bucket@[bucket@.len() - 1] == id);
                }
            }
            assert forall|key2: u64, k: int|
                self.buckets@.contains_key(key2) && 0 <= k < self.buckets@[key2]@.len() implies #[trigger] self.buckets@[key2]@[k]
                    < cs.len() by {
                if key2 != key {
                    assert(old_buckets.contains_key(key2));
                } else if k < bucket@.len() - 1 {
                    assert(old_buckets.contains_key(key));
                }
            }
        }
    }

    /// The node whose configuration is `c`, if any; the configurations of the nodes are
    /// pairwise different.
    pub fn get(&self, c: &Vec<usize>, nodes: &HNodeArena) -> (r: Option<usize>)
        requires
            self.files(nodes@.map_values(|node: HNode| node.config@)),
        ensures
            match r {
                Some(id) => id < nodes@.len() && nodes@[id as int].config@ == c@,
                None => forall|id: int| 0 <= id < nodes@.len() ==> #[trigger] nodes@[id].config@ != c@,
            },
    {
        let ghost configs = nodes@.map_values(|node: HNode| node.config@);
        let total = nodes.len();
        let key = hash_config(c);
        match self.buckets.get(&key) {
            None => {
                proof {
                    assert forall|id: int| 0 <= id < nodes@.len() implies #[trigger] nodes@[id].config@ != c@ by {
                        assert(configs[id] == nodes@[id].config@);
                    }
                }
                None
            },
            Some(bucket) => {
                let mut k: usize = 0;
                while k < bucket.len()
                    invariant
                        self.files(configs),
                        configs == nodes@.map_values(|node: HNode| node.config@),
                        total == nodes@.len(),
                        self.buckets@.contains_key(key),
                        bucket@ == self.buckets@[key]@,
                        key == config_hash(c@),
                        0 <= k <= bucket@.len(),
                        forall|t: int| 0 <= t < k ==> nodes@[#[trigger] bucket@[t] as int].config@ != c@,
                    decreases bucket@.len() - k,
                {
                    let id = bucket[k];
                    assert(id < configs.len());
                    if vec_eq(&nodes.get(HNodeId(id)).config, c) {
                        return Some(id);
                    }
                    k += 1;
                }
                proof {
                    assert forall|id: int| 0 <= id < nodes@.len() implies #[trigger] nodes@[id].config@ != c@ by {
                        assert(configs[id] == nodes@[id].config@);
                        if nodes@[id].config@ == c@ {
                            assert(self.buckets@[config_hash(configs[id])]@.contains(id as usize));
                            let t = choose|t: int| 0 <= t < bucket@.len() && bucket@[t] == id as usize;
                            assert(nodes@[bucket@[t] as int].config@ != c@);
                        }
                    }
                }
                None
            },
        }
    }
}

/// A copy of a list of constraints.
fn copy_constraints(v: &Vec<(usize, usize)>) -> (r: Vec<(usize, usize)>)
    ensures
        r@ == v@,
{
    let mut r: Vec<(usize, usize)> = Vec::new();
    let mut i: usize = 0;
    while i < v.len()
        invariant
            0 <= i <= v@.len(),
            r@ == v@.subrange(0, i as int),
        decreases v@.len() - i,
    {
        r.push(v[i]);
        proof {
            assert(r@ =~= v@.subrange(0, i + 1));
        }
        i += 1;
    }
    assert(r@ =~= v@);
    r
}

/// Whether two configurations are equal.
fn vec_eq(a: &Vec<usize>, b: &Vec<usize>) -> (r: bool)
    ensures
        r == (a@ == b@),
{
    if a.len() != b.len() {
        return false;
    }
    let mut i: usize = 0;
    while i < a.len()
        invariant
            a@.len() == b@.len(),
            0 <= i <= a@.len(),
            forall|t: int| 0 <= t < i ==> a@[t] == b@[t],
        decreases a@.len() - i,
    {
        if a[i] != b[i] {
            return false;
        }
        i += 1;
    }
    assert(a@ =~= b@);
    true
}


/// Every step of agents along the grid can be taken backwards: if each agent of `c1` moves to
/// a neighbour or stays to reach `c2`, each agent of `c2` can do so to reach `c1`.
pub proof fn lemma_moves_symmetric(g: Graph, c1: Seq<usize>, c2: Seq<usize>)
    requires
        g.wf(),
        moves(g, c1, c2),
        forall|i: int| 0 <= i < c1.len() ==> #[trigger] c1[i] < g.vertices@.len(),
    ensures
        moves(g, c2, c1),
{
    assert forall|i: int| 0 <= i < c2.len() implies #[trigger] g.acts(c2[i] as int).contains(c1[i]) by {
        let u = c1[i] as int;
        let v = c2[i] as int;
        g.lemma_neighbors_in_range(u);
        assert(g.acts(u).contains(v as usize));
        assert(g.adjacency_ok(u));
        let k = choose|k: int| 0 <= k < g.acts(u).len() && g.acts(u)[k] == v as usize;
        if k < g.nbrs(u).len() {
            assert(g.nbrs(u)[k] == v as usize);
            assert(g.adjacent(u, v));
            g.lemma_adjacent_symmetric(u, v);
            g.lemma_neighbors_in_range(v);
            assert(g.adjacency_ok(v));
            let k2 = choose|k2: int| 0 <= k2 < g.nbrs(v).len() && g.nbrs(v)[k2] == u as usize;
            assert(g.acts(v)[k2] == u as usize);
        } else {
            assert(v == u);
            assert(g.acts(v)[g.acts(v).len() - 1] == u as usize);
        }
    }
}

/// A move never leaves the part of the graph that can reach the goal.
proof fn lemma_moves_reachable(g: Graph, goals: Seq<usize>, c1: Seq<usize>, c2: Seq<usize>)
    requires
        g.wf(),
        moves(g, c1, c2),
        c1.len() == goals.len(),
        forall|i: int| 0 <= i < c1.len() ==> #[trigger] c1[i] < g.vertices@.len(),
        forall|i: int| 0 <= i < c1.len() ==> #[trigger] reachable(g, goals[i] as int, c1[i] as int),
    ensures
        forall|i: int| 0 <= i < c2.len() ==> #[trigger] c2[i] < g.vertices@.len(),
        forall|i: int| 0 <= i < c2.len() ==> #[trigger] reachable(g, goals[i] as int, c2[i] as int),
{
    assert forall|i: int| 0 <= i < c2.len() implies #[trigger] c2[i] < g.vertices@.len() && reachable(g, goals[i] as int, c2[i] as int) by {
        let u = c1[i] as int;
        let v = c2[i] as int;
        g.lemma_neighbors_in_range(u);
        assert(g.acts(u).contains(v as usize));
        assert(g.adjacency_ok(u));
        let k = choose|k: int| 0 <= k < g.acts(u).len() && g.acts(u)[k] == v as usize;
        if k < g.nbrs(u).len() {
            assert(g.nbrs(u)[k] == v as usize);
            assert(g.adjacent(u, v));
            lemma_reachable_step(g, goals[i] as int, u, v);
        }
    }
}

/// No swap between `c1` and `c2` is no swap between `c2` and `c1`.
proof fn lemma_no_swap_symmetric(c1: Seq<usize>, c2: Seq<usize>)
    requires
        c1.len() == c2.len(),
        no_swap(c1, c2),
    ensures
        no_swap(c2, c1),
{
    assert forall|i: int, k: int|
        0 <= i < c2.len() && 0 <= k < c2.len() && i != k implies !(#[trigger] c1[i] == c2[k] && #[trigger] c1[k]
            == c2[i]) by {
        if c1[i] == c2[k] && c1[k] == c2[i] {
            assert(c2[k] == c1[i] && c2[i] == c1[k]);
        }
    }
}

/// Inserts `x` into the increasing list `v`, unless it is there.
fn insert_sorted(v: &mut Vec<HNodeId>, x: HNodeId)
    requires
        forall|a: int, b: int| 0 <= a < b < old(v)@.len() ==> (#[trigger] old(v)@[a]).0 < (#[trigger] old(v)@[b]).0,
    ensures
        forall|a: int, b: int| 0 <= a < b < final(v)@.len() ==> (#[trigger] final(v)@[a]).0 < (#[trigger] final(v)@[b]).0,
        forall|y: HNodeId| #[trigger] final(v)@.contains(y) <==> (old(v)@.contains(y) || y == x),
        final(v)@.len() == old(v)@.len() + (if old(v)@.contains(x) {
            0int
        } else {
            1int
        }),
{
    let mut pos: usize = 0;
    while pos < v.len() && v[pos].0 < x.0
        invariant
            0 <= pos <= v@.len(),
            v@ == old(v)@,
            forall|a: int, b: int| 0 <= a < b < v@.len() ==> (#[trigger] v@[a]).0 < (#[trigger] v@[b]).0,
            forall|a: int| 0 <= a < pos ==> (#[trigger] v@[a]).0 < x.0,
        decreases v@.len() - pos,
    {
        pos += 1;
    }
    if pos < v.len() && v[pos].0 == x.0 {
        assert(v@[pos as int] == x);
        return;
    }
    let ghost before = v@;
    proof {
        assert forall|k: int| 0 <= k < before.len() implies #[trigger] before[k] != x by {
            if k >= pos {
                assert(before[pos as int].0 > x.0);
                if k > pos {
                    assert(before[pos as int].0 < before[k].0);
                }
            }
        }
    }
    v.insert(pos, x);
    proof {
        assert forall|a: int, b: int| 0 <= a < b < v@.len() implies (#[trigger] v@[a]).0 < (#[trigger] v@[b]).0 by {
            if b < pos {
                assert(v@[a] == before[a] && v@[b] == before[b]);
            } else if b == pos {
                assert(v@[a] == before[a]);
            } else if a == pos {
                assert(v@[b] == before[b - 1]);
                assert(before[pos as int].0 >= x.0);
                if b - 1 > pos {
                    assert(before[pos as int].0 < before[b - 1].0);
                }
            } else if a < pos {
                assert(v@[a] == before[a] && v@[b] == before[b - 1]);
            } else {
                assert(v@[a] == before[a - 1] && v@[b] == before[b - 1]);
            }
        }
        assert forall|y: HNodeId| #[trigger] v@.contains(y) <==> (before.contains(y) || y == x) by {
            if v@.contains(y) {
                let k = choose|k: int| 0 <= k < v@.len() && v@[k] == y;
                if k < pos {
                    assert(before[k] == y);
                } else if k > pos {
                    assert(before[k - 1] == y);
                }
            }
            if before.contains(y) {
                let k = choose|k: int| 0 <= k < before.len() && before[k] == y;
                if k < pos {
                    assert(v@[k] == y);
                } else {
                    assert(v@[k + 1] == y);
                }
            }
            if y == x {
                assert(v@[pos as int] == x);
            }
        }
    }
}

/// The agents `0..p.len()` by decreasing priority; equal priorities keep increasing order.
fn order_by_priority(p: &Vec<u64>) -> (order: Vec<usize>)
    ensures
        order@.len() == p@.len(),
        forall|k: int| 0 <= k < order@.len() ==> #[trigger] order@[k] < p@.len(),
        forall|a: usize| a < p@.len() ==> #[trigger] order@.contains(a),
        forall|i: int, j: int|
            0 <= i < j < order@.len() ==> p@[#[trigger] order@[i] as int] > p@[#[trigger] order@[j] as int] || (
            p@[order@[i] as int] == p@[order@[j] as int] && order@[i] < order@[j]),
{
    let mut order: Vec<usize> = Vec::new();
    let mut i: usize = 0;
    while i < p.len()
        invariant
            0 <= i <= p@.len(),
            order@.len() == i,
            forall|k: int| 0 <= k < order@.len() ==> #[trigger] order@[k] < i,
            forall|a: usize| a < i ==> #[trigger] order@.contains(a),
            forall|x: int, y: int|
                0 <= x < y < order@.len() ==> p@[#[trigger] order@[x] as int] > p@[#[trigger] order@[y] as int] || (
                p@[order@[x] as int] == p@[order@[y] as int] && order@[x] < order@[y]),
        decreases p@.len() - i,
    {
        let mut pos: usize = 0;
        while pos < order.len() && p[i] <= p[order[pos]]
            invariant
                0 <= pos <= order@.len(),
                i < p@.len(),
                forall|k: int| 0 <= k < order@.len() ==> #[trigger] order@[k] < i,
                forall|k: int| 0 <= k < pos ==> p@[i as int] <= p@[#[trigger] order@[k] as int],
            decreases order@.len() - pos,
        {
            pos += 1;
        }
        let ghost before = order@;
        order.insert(pos, i);
        proof {
            assert forall|x: int, y: int|
                0 <= x < y < order@.len() implies p@[#[trigger] order@[x] as int] > p@[#[trigger] order@[y] as int] || (
                p@[order@[x] as int] == p@[order@[y] as int] && order@[x] < order@[y]) by {
                if y < pos {
                    assert(order@[x] == before[x] && order@[y] == before[y]);
                } else if y == pos {
                    assert(order@[x] == before[x]);
                } else if x == pos {
                    assert(order@[y] == before[y - 1]);
                    assert(p@[i as int] > p@[before[pos as int] as int]);
                    if y - 1 > pos {
                        assert(p@[before[pos as int] as int] >= p@[before[y - 1] as int]);
                    }
                } else if x < pos {
                    assert(order@[x] == before[x] && order@[y] == before[y - 1]);
                } else {
                    assert(order@[x] == before[x - 1] && order@[y] == before[y - 1]);
                }
            }
            assert forall|a: usize| a < i + 1 implies #[trigger] order@.contains(a) by {
                if a < i {
                    assert(before.contains(a));
                    let k = choose|k: int| 0 <= k < before.len() && before[k] == a;
                    if k < pos {
                        assert(order@[k] == a);
                    } else {
                        assert(order@[k + 1] == a);
                    }
                } else {
                    assert(order@[pos as int] == a);
                }
            }
        }
        i += 1;
    }
    order
}

/// Node sizes of a full constraint tree with `r` levels left: one node, then five subtrees.
pub open spec fn lsize(r: nat) -> nat
    decreases r,
{
    if r == 0 {
        1
    } else {
        1 + 5 * lsize((r - 1) as nat)
    }
}

/// What is left to search below the low-level nodes `t`, for `n` agents.
pub open spec fn tree_weight(n: nat, lnodes: Seq<LNode>, t: Seq<LNodeId>) -> nat
    decreases t.len(),
{
    if t.len() == 0 {
        0
    } else {
        tree_weight(n, lnodes, t.drop_last()) + lsize((n - lnodes[t.last().0 as int].constraints@.len()) as nat)
    }
}

/// What is left to search below all high-level nodes.
pub open spec fn arena_weight(n: nat, lnodes: Seq<LNode>, hnodes: Seq<HNode>) -> nat
    decreases hnodes.len(),
{
    if hnodes.len() == 0 {
        0
    } else {
        arena_weight(n, lnodes, hnodes.drop_last()) + tree_weight(n, lnodes, hnodes.last().search_tree@)
    }
}


/// Adding a low-level node adds the size of its subtree.
proof fn lemma_tree_weight_push(n: nat, lnodes: Seq<LNode>, t: Seq<LNodeId>, x: LNodeId)
    ensures
        tree_weight(n, lnodes, t.push(x)) == tree_weight(n, lnodes, t) + lsize(
            (n - lnodes[x.0 as int].constraints@.len()) as nat,
        ),
{
    assert(t.push(x).drop_last() =~= t);
}

/// The weight of a list of low-level nodes is the size of the first subtree plus the rest.
proof fn lemma_tree_weight_front(n: nat, lnodes: Seq<LNode>, t: Seq<LNodeId>)
    requires
        t.len() > 0,
    ensures
        tree_weight(n, lnodes, t) == lsize((n - lnodes[t[0].0 as int].constraints@.len()) as nat) + tree_weight(
            n,
            lnodes,
            t.drop_first(),
        ),
    decreases t.len(),
{
    let first = lsize((n - lnodes[t[0].0 as int].constraints@.len()) as nat);
    let last = lsize((n - lnodes[t.last().0 as int].constraints@.len()) as nat);
    if t.len() > 1 {
        let a = t.drop_last();
        let b = t.drop_first();
        lemma_tree_weight_front(n, lnodes, a);
        assert(a.drop_first() =~= b.drop_last());
        assert(b.last() == t.last());
        assert(a[0] == t[0]);
        assert(tree_weight(n, lnodes, t) == tree_weight(n, lnodes, a) + last);
        assert(tree_weight(n, lnodes, a) == first + tree_weight(n, lnodes, a.drop_first()));
        assert(tree_weight(n, lnodes, b) == tree_weight(n, lnodes, b.drop_last()) + last);
    } else {
        assert(t.drop_first().len() == 0);
        assert(t.drop_last().len() == 0);
        assert(t.last() == t[0]);
        assert(tree_weight(n, lnodes, t) == tree_weight(n, lnodes, t.drop_last()) + last);
    }
}

/// The weight of a list stays when low-level nodes are added.
proof fn lemma_tree_weight_extend(n: nat, l1: Seq<LNode>, l2: Seq<LNode>, t: Seq<LNodeId>)
    requires
        l1.len() <= l2.len(),
        forall|i: int| 0 <= i < l1.len() ==> #[trigger] l2[i] == l1[i],
        forall|k: int| 0 <= k < t.len() ==> (#[trigger] t[k]).0 < l1.len(),
    ensures
        tree_weight(n, l1, t) == tree_weight(n, l2, t),
    decreases t.len(),
{
    if t.len() > 0 {
        lemma_tree_weight_extend(n, l1, l2, t.drop_last());
        assert(t.last() == t[t.len() - 1]);
    }
}

/// The weights of the trees stay when low-level nodes are added.
proof fn lemma_arena_weight_extend(n: nat, l1: Seq<LNode>, l2: Seq<LNode>, h: Seq<HNode>)
    requires
        l1.len() <= l2.len(),
        forall|i: int| 0 <= i < l1.len() ==> #[trigger] l2[i] == l1[i],
        forall|x: int, k: int|
            0 <= x < h.len() && 0 <= k < h[x].search_tree@.len() ==> (#[trigger] h[x].search_tree@[k]).0 < l1.len(),
    ensures
        arena_weight(n, l1, h) == arena_weight(n, l2, h),
    decreases h.len(),
{
    if h.len() > 0 {
        assert forall|x: int, k: int|
            0 <= x < h.drop_last().len() && 0 <= k < h.drop_last()[x].search_tree@.len() implies (
            #[trigger] h.drop_last()[x].search_tree@[k]).0 < l1.len() by {
            assert(h.drop_last()[x] == h[x]);
        }
        lemma_arena_weight_extend(n, l1, l2, h.drop_last());
        let last = h.last();
        assert forall|k: int| 0 <= k < last.search_tree@.len() implies (#[trigger] last.search_tree@[k]).0 < l1.len() by {
            assert(h[h.len() - 1].search_tree@[k] == last.search_tree@[k]);
        }
        lemma_tree_weight_extend(n, l1, l2, last.search_tree@);
    }
}

/// Changing one high-level node changes the weight by the change of its tree.
proof fn lemma_arena_weight_update(n: nat, l: Seq<LNode>, h: Seq<HNode>, x: int, node: HNode)
    requires
        0 <= x < h.len(),
    ensures
        arena_weight(n, l, h.update(x, node)) + tree_weight(n, l, h[x].search_tree@) == arena_weight(n, l, h)
            + tree_weight(n, l, node.search_tree@),
    decreases h.len(),
{
    if x < h.len() - 1 {
        lemma_arena_weight_update(n, l, h.drop_last(), x, node);
        assert(h.update(x, node).drop_last() =~= h.drop_last().update(x, node));
    } else {
        assert(h.update(x, node).drop_last() =~= h.drop_last());
    }
}

/// Adding a high-level node adds the weight of its tree.
proof fn lemma_arena_weight_push(n: nat, l: Seq<LNode>, h: Seq<HNode>, node: HNode)
    ensures
        arena_weight(n, l, h.push(node)) == arena_weight(n, l, h) + tree_weight(n, l, node.search_tree@),
{
    assert(h.push(node).drop_last() =~= h);
}


/// The sum of the costs `g` of the nodes `h`.
pub open spec fn g_sum(h: Seq<HNode>) -> nat
    decreases h.len(),
{
    if h.len() == 0 {
        0
    } else {
        g_sum(h.drop_last()) + h.last().g as nat
    }
}

/// Changing the cost of one node changes the sum by as much.
proof fn lemma_g_sum_update(h: Seq<HNode>, x: int, node: HNode)
    requires
        0 <= x < h.len(),
    ensures
        g_sum(h.update(x, node)) + h[x].g == g_sum(h) + node.g,
    decreases h.len(),
{
    if x < h.len() - 1 {
        lemma_g_sum_update(h.drop_last(), x, node);
        assert(h.update(x, node).drop_last() =~= h.drop_last().update(x, node));
    } else {
        assert(h.update(x, node).drop_last() =~= h.drop_last());
    }
}

/// Nodes with the same constraint trees weigh the same.
proof fn lemma_arena_weight_same_trees(n: nat, l: Seq<LNode>, a: Seq<HNode>, b: Seq<HNode>)
    requires
        a.len() == b.len(),
        forall|x: int| 0 <= x < a.len() ==> (#[trigger] a[x]).search_tree == b[x].search_tree,
    ensures
        arena_weight(n, l, a) == arena_weight(n, l, b),
    decreases a.len(),
{
    if a.len() > 0 {
        assert forall|x: int| 0 <= x < a.drop_last().len() implies (#[trigger] a.drop_last()[x]).search_tree
            == b.drop_last()[x].search_tree by {
            assert(a[x].search_tree == b[x].search_tree);
        }
        lemma_arena_weight_same_trees(n, l, a.drop_last(), b.drop_last());
        assert(a[a.len() - 1].search_tree == b[b.len() - 1].search_tree);
    }
}

/// `b` is `a` with at most its cost, its total and its parent changed.
pub open spec fn costs_only(a: HNode, b: HNode) -> bool {
    &&& b.config == a.config
    &&& b.neighbors == a.neighbors
    &&& b.h == a.h
    &&& b.priorities == a.priorities
    &&& b.order == a.order
    &&& b.search_tree == a.search_tree
    &&& b.g <= a.g
}

/// `c1 -> c2` is a step the search may take: every agent moves to a neighbour or stays, and
/// when no two agents start on one vertex, no two share one in `c2` or trade places.
pub open spec fn step_ok_in(instance: &Instance, c1: Seq<usize>, c2: Seq<usize>) -> bool {
    &&& moves(instance.graph, c1, c2)
    &&& config_distinct(instance.starts@) ==> config_distinct(c2) && no_swap(c1, c2)
}

/// Every agent of `c` stands on a vertex from which its goal can be reached.
pub open spec fn positions_ok_in(instance: &Instance, c: Seq<usize>) -> bool {
    &&& config_ok(instance, c)
    &&& forall|i: int| 0 <= i < c.len() ==> #[trigger] reachable(instance.graph, instance.goals@[i] as int, c[i] as int)
}

/// The low-level node `l` constrains the first agents in the order of `node`, one each, to
/// moves of theirs.
pub open spec fn lnode_ok_in(instance: &Instance, l: LNode, node: HNode) -> bool {
    &&& l.constraints@.len() <= instance.num_agents
    &&& forall|k: int|
        0 <= k < l.constraints@.len() ==> (#[trigger] l.constraints@[k]).0 < instance.num_agents
            && instance.graph.acts(node.config@[l.constraints@[k].0 as int] as int).contains(l.constraints@[k].1)
            && l.constraints@[k].0 == node.order@[k]
}

/// The low-level node `child` adds to the constraints `c` one more, on agent `a`, with one of
/// the moves `moves`.
pub open spec fn extends_by(child: LNode, c: Seq<(usize, usize)>, a: usize, moves: Seq<usize>) -> bool {
    &&& child.constraints@.len() == c.len() + 1
    &&& child.constraints@.drop_last() == c
    &&& child.constraints@.last().0 == a
    &&& moves.contains(child.constraints@.last().1)
}

/// `node` lists the node numbered `x` among its neighbours.
pub open spec fn lists(node: HNode, x: int) -> bool {
    exists|k: int| 0 <= k < node.neighbors@.len() && (#[trigger] node.neighbors@[k]).0 == x
}

/// The cost of node `y` of `hs` is the cost of its parent plus the cost of the step from it.
pub open spec fn exact_at(instance: &Instance, hs: Seq<HNode>, y: int) -> bool {
    hs[y].parent matches Some(p) ==> hs[y].g == hs[p.0 as int].g + edge_cost(
        instance.goals@,
        hs[p.0 as int].config@,
        hs[y].config@,
    )
}

/// The first `k` neighbours of node `x` cost no more than the cost of `x` plus the step.
pub open spec fn relaxed_upto(instance: &Instance, hs: Seq<HNode>, x: int, k: int) -> bool {
    forall|j: int|
        0 <= j < k ==> hs[(#[trigger] hs[x].neighbors@[j]).0 as int].g <= hs[x].g + edge_cost(
            instance.goals@,
            hs[x].config@,
            hs[hs[x].neighbors@[j].0 as int].config@,
        )
}

/// No neighbour of node `x` could be reached more cheaply through `x`.
pub open spec fn relaxed_at(instance: &Instance, hs: Seq<HNode>, x: int) -> bool {
    relaxed_upto(instance, hs, x, hs[x].neighbors@.len() as int)
}

/// `g + h`, capped at `u128::MAX`.
pub open spec fn total(g: u128, h: u128) -> u128 {
    if g + h > u128::MAX {
        u128::MAX
    } else {
        (g + h) as u128
    }
}

/// High-level node `x` of `hs` is well formed.
pub open spec fn node_ok_in(instance: &Instance, hs: Seq<HNode>, ls: Seq<LNode>, x: int) -> bool {
    let node = hs[x];
    let n = instance.num_agents as nat;
    &&& positions_ok_in(instance, node.config@)
    &&& config_distinct(instance.starts@) ==> config_distinct(node.config@)
    &&& (node.parent is None) == (x == 0)
    &&& node.parent matches Some(p) ==> p.0 < hs.len() && step_ok_in(instance, hs[p.0 as int].config@, node.config@)
        && hs[p.0 as int].g + 1 <= node.g && hs[p.0 as int].g + edge_cost(
        instance.goals@,
        hs[p.0 as int].config@,
        node.config@,
    ) <= node.g && lists(hs[p.0 as int], x)
    &&& forall|k: int|
        0 <= k < node.neighbors@.len() ==> (#[trigger] node.neighbors@[k]).0 < hs.len() && step_ok_in(
            instance,
            node.config@,
            hs[node.neighbors@[k].0 as int].config@,
        )
    &&& forall|a: int, b: int|
        0 <= a < b < node.neighbors@.len() ==> (#[trigger] node.neighbors@[a]).0 < (#[trigger] node.neighbors@[b]).0
    &&& node.g <= x * n
    &&& node.h == dist_sum(instance.graph, instance.goals@, node.config@, n as int)
    &&& node.f == total(node.g, node.h)
    &&& node.priorities@.len() == n
    &&& node.order@.len() == n
    &&& forall|k: int| 0 <= k < node.order@.len() ==> #[trigger] node.order@[k] < n
    &&& forall|a: usize| a < n ==> #[trigger] node.order@.contains(a)
    &&& forall|k: int|
        0 <= k < node.search_tree@.len() ==> (#[trigger] node.search_tree@[k]).0 < ls.len() && lnode_ok_in(
            instance,
            ls[node.search_tree@[k].0 as int],
            node,
        )
}

/// The constraints of `l` hold in `c`.
pub open spec fn consistent(l: LNode, c: Seq<usize>) -> bool {
    forall|k: int|
        0 <= k < l.constraints@.len() ==> c[(#[trigger] l.constraints@[k]).0 as int] == l.constraints@[k].1
}

/// `c` is the configuration of a node of `hs`.
pub open spec fn met(hs: Seq<HNode>, c: Seq<usize>) -> bool {
    exists|y: int| 0 <= y < hs.len() && #[trigger] hs[y].config@ == c
}

/// `c` is the configuration of a neighbour of node `x`.
pub open spec fn reached(hs: Seq<HNode>, x: int, c: Seq<usize>) -> bool {
    exists|k: int| 0 <= k < hs[x].neighbors@.len() && hs[(#[trigger] hs[x].neighbors@[k]).0 as int].config@ == c
}

/// `c` is the configuration of a neighbour of node `x`, or a low-level node still to try from
/// `x` allows it.
pub open spec fn covered(hs: Seq<HNode>, ls: Seq<LNode>, x: int, c: Seq<usize>) -> bool {
    ||| reached(hs, x, c)
    ||| exists|k: int|
        0 <= k < hs[x].search_tree@.len() && consistent(ls[(#[trigger] hs[x].search_tree@[k]).0 as int], c)
}

/// `c2` is a configuration the agents of `instance` may take one step after `c1`.
pub open spec fn successor(instance: &Instance, c1: Seq<usize>, c2: Seq<usize>) -> bool {
    config_ok(instance, c2) && step_ok_in(instance, c1, c2)
}

/// Node `y` is queued in `open`.
pub open spec fn in_open(open: Seq<HNodeId>, y: int) -> bool {
    exists|k: int| 0 <= k < open.len() && (#[trigger] open[k]).0 == y
}

/// What is covered stays covered when nodes are added, the configurations and the low-level
/// nodes to try of node `x` are kept, its neighbours only grow, and low-level nodes are only
/// added.
proof fn lemma_covered_grow(
    ha: Seq<HNode>,
    la: Seq<LNode>,
    hb: Seq<HNode>,
    lb: Seq<LNode>,
    x: int,
    c: Seq<usize>,
)
    requires
        covered(ha, la, x, c),
        0 <= x < ha.len() <= hb.len(),
        forall|y: int| 0 <= y < ha.len() ==> (#[trigger] hb[y]).config == ha[y].config,
        hb[x].search_tree == ha[x].search_tree,
        la.len() <= lb.len(),
        forall|i: int| 0 <= i < la.len() ==> #[trigger] lb[i] == la[i],
        forall|k: int| 0 <= k < ha[x].search_tree@.len() ==> (#[trigger] ha[x].search_tree@[k]).0 < la.len(),
        forall|k: int| 0 <= k < ha[x].neighbors@.len() ==> (#[trigger] ha[x].neighbors@[k]).0 < ha.len(),
        forall|z: int| #[trigger] lists(ha[x], z) ==> lists(hb[x], z),
    ensures
        covered(hb, lb, x, c),
{
    if reached(ha, x, c) {
        let k = choose|k: int| 0 <= k < ha[x].neighbors@.len() && ha[(#[trigger] ha[x].neighbors@[k]).0 as int].config@ == c;
        let z = ha[x].neighbors@[k].0 as int;
        assert(lists(ha[x], z));
        let k2 = choose|k2: int| 0 <= k2 < hb[x].neighbors@.len() && (#[trigger] hb[x].neighbors@[k2]).0 == z;
        assert(hb[z].config == ha[z].config);
        assert(hb[hb[x].neighbors@[k2].0 as int].config@ == c);
    } else {
        let k = choose|k: int|
            0 <= k < ha[x].search_tree@.len() && consistent(la[(#[trigger] ha[x].search_tree@[k]).0 as int], c);
        assert(lb[hb[x].search_tree@[k].0 as int] == la[ha[x].search_tree@[k].0 as int]);
    }
}

/// The search of LaCAM: a depth-first search over configurations, each expanded lazily by
/// trying PIBT under more and more constraints.
pub struct LaCAM<'a> {
    pub instance: &'a Instance,
    pub dist_table: DistTable<'a>,
    pub deadline: Deadline,
    pub pibt: PIBT<'a>,
    pub h_arena: HNodeArena,
    pub l_arena: LNodeArena,
    /// High-level nodes to visit, the next first.
    pub open: VecDeque<HNodeId>,
    /// The high-level node of each configuration met.
    pub explored: ConfigIndex,
    /// The first node found whose configuration is the goals.
    pub h_goal: Option<HNodeId>,
    pub rng: StdRng,
    /// Iterations of the search loop so far.
    pub loop_cnt: usize,
    /// Whether to go on improving the plan after the first one is found.
    pub flg_star: bool,
}

impl<'a> LaCAM<'a> {
    /// The number of agents.
    pub open spec fn n(&self) -> nat {
        self.instance.num_agents as nat
    }

    /// The graph.
    pub open spec fn graph(&self) -> Graph {
        self.instance.graph
    }

    /// No two agents start on one vertex.
    pub open spec fn starts_apart(&self) -> bool {
        config_distinct(self.instance.starts@)
    }

    /// `c1 -> c2` is a step the search may take.
    pub open spec fn step_ok(&self, c1: Seq<usize>, c2: Seq<usize>) -> bool {
        step_ok_in(self.instance, c1, c2)
    }

    /// Every agent of `c` stands on a vertex from which its goal can be reached.
    pub open spec fn positions_ok(&self, c: Seq<usize>) -> bool {
        positions_ok_in(self.instance, c)
    }

    /// The low-level node `l` constrains agents of `node` to moves of theirs.
    pub open spec fn lnode_ok(&self, l: LNode, node: HNode) -> bool {
        lnode_ok_in(self.instance, l, node)
    }

    /// High-level node `x` is well formed.
    pub open spec fn node_ok(&self, x: int) -> bool {
        node_ok_in(self.instance, self.h_arena@, self.l_arena@, x)
    }

    /// The configurations of the high-level nodes.
    pub open spec fn configs(&self) -> Seq<Seq<usize>> {
        self.h_arena@.map_values(|node: HNode| node.config@)
    }

    /// The invariant of the search: its structure, every cost is the cost through the parent,
    /// and no neighbour could be reached more cheaply.
    pub open spec fn inv(&self) -> bool {
        &&& self.inv_core()
        &&& forall|y: int| 0 <= y < self.h_arena@.len() ==> #[trigger] exact_at(self.instance, self.h_arena@, y)
        &&& forall|y: int| 0 <= y < self.h_arena@.len() ==> #[trigger] relaxed_at(self.instance, self.h_arena@, y)
    }

    /// The structure of the search: well-formed nodes with pairwise different configurations,
    /// all filed in the index, the first one at the starts.
    pub open spec fn inv_core(&self) -> bool {
        let hs = self.h_arena@;
        &&& self.instance.wf()
        &&& self.instance.connected()
        &&& self.dist_table.serves(self.instance)
        &&& self.pibt.wf()
        &&& self.pibt.instance == self.instance
        &&& forall|x: int| 0 <= x < hs.len() ==> #[trigger] node_ok_in(self.instance, hs, self.l_arena@, x)
        &&& hs.len() > 0 ==> hs[0].config@ == self.instance.starts@
        &&& forall|x: int, y: int| 0 <= x < y < hs.len() ==> #[trigger] hs[x].config@ != #[trigger] hs[y].config@
        &&& self.explored.files(self.configs())
        &&& forall|k: int| 0 <= k < self.open@.len() ==> (#[trigger] self.open@[k]).0 < hs.len()
        &&& self.h_goal matches Some(id) ==> id.0 < hs.len() && hs[id.0 as int].config@ == self.instance.goals@
    }

    /// What the search has tried: with no two agents starting on one vertex, every next
    /// configuration of a node is a neighbour of it or allowed by one of its low-level nodes;
    /// while the goals have not been met, every node out of `open` has used up its low-level
    /// nodes and is not at the goals; and once they have, every node out of `open` has used up
    /// its low-level nodes or costs, with its distance to the goals, no less than the goal node.
    pub open spec fn explored_ok(&self) -> bool {
        let hs = self.h_arena@;
        &&& config_distinct(self.instance.starts@) ==> forall|x: int, c: Seq<usize>|
            0 <= x < hs.len() && successor(self.instance, hs[x].config@, c) ==> #[trigger] covered(
                hs,
                self.l_arena@,
                x,
                c,
            )
        &&& self.h_goal is None ==> forall|x: int|
            0 <= x < hs.len() ==> #[trigger] in_open(self.open@, x) || (hs[x].search_tree@.len() == 0
                && hs[x].config@ != self.instance.goals@)
        &&& self.h_goal matches Some(gid) ==> forall|x: int|
            0 <= x < hs.len() ==> #[trigger] in_open(self.open@, x) || hs[x].search_tree@.len() == 0
                || hs[x].f >= hs[gid.0 as int].f
    }

    /// What is left to search: the constraint trees of the nodes, and a full tree for every
    /// configuration not met yet.
    pub open spec fn measure(&self) -> nat {
        arena_weight(self.n(), self.l_arena@, self.h_arena@) + ((power(
            self.graph().vertices@.len(),
            self.n(),
        ) - self.h_arena@.len()) as nat) * lsize(self.n())
    }

    /// A search for `instance` that may run until `deadline`, with random choices from `seed`.
    pub fn new(
        instance: &'a Instance,
        dist_table: DistTable<'a>,
        deadline: Deadline,
        seed: u64,
        flg_star: bool,
    ) -> (s: Self)
        requires
            instance.wf(),
            instance.connected(),
            dist_table.serves(instance),
        ensures
            s.inv(),
            s.instance == instance,
            s.h_arena@.len() == 0,
            s.l_arena@.len() == 0,
            s.open@.len() == 0,
            s.h_goal is None,
            s.loop_cnt == 0,
            s.flg_star == flg_star,
            s.deadline == deadline,
            s.dist_table == dist_table,
    {
        let ix = ConfigIndex::new();
        let s = LaCAM {
            instance,
            deadline,
            dist_table,
            pibt: PIBT::new(instance, seed),
            h_arena: HNodeArena::default(),
            l_arena: LNodeArena::default(),
            open: VecDeque::new(),
            explored: ix,
            h_goal: None,
            rng: seeded_rng(seed),
            loop_cnt: 0,
            flg_star,
        };
        assert(s.configs() =~= Seq::empty());
        s
    }
}


/// The iteration count after one more iteration, saturating at `usize::MAX`.
pub open spec fn one_more(c: usize) -> usize {
    if c == usize::MAX {
        c
    } else {
        (c + 1) as usize
    }
}

/// The priority of agent `i` standing on `config[i]`, in units of 1/10000: its distance to its
/// goal at the start; after a step from a node with priorities `parent`, one more than before
/// while it is off its goal, and only the fraction of the old one once it is there.
pub open spec fn priority_at(instance: &Instance, parent: Option<Seq<u64>>, config: Seq<usize>, i: int) -> u64 {
    let d = dist(instance.graph, instance.goals@[i] as int, config[i] as int);
    match parent {
        None => d as u64,
        Some(pp) => if d != 0 {
            if pp[i] + 10000 > u64::MAX {
                u64::MAX
            } else {
                (pp[i] + 10000) as u64
            }
        } else {
            pp[i] % 10000
        },
    }
}

/// The priorities of the node that follows `parent` (none for the first node).
pub open spec fn parent_priorities(hs: Seq<HNode>, parent: Option<HNodeId>) -> Option<Seq<u64>> {
    match parent {
        Some(p) => Some(hs[p.0 as int].priorities@),
        None => None,
    }
}

/// `order` lists the agents by `priority`, highest first, ties by number.
pub open spec fn ordered_by(priority: Seq<u64>, order: Seq<usize>) -> bool {
    forall|a: int, b: int|
        0 <= a < b < order.len() ==> priority[#[trigger] order[a] as int] > priority[#[trigger] order[b] as int] || (
        priority[order[a] as int] == priority[order[b] as int] && order[a] < order[b])
}

/// The sum over agents below `k` of their distance to the goal in `c`.
pub open spec fn dist_sum(g: Graph, goals: Seq<usize>, c: Seq<usize>, k: int) -> nat
    decreases k,
{
    if k <= 0 {
        0
    } else {
        dist_sum(g, goals, c, k - 1) + dist(g, goals[k - 1] as int, c[k - 1] as int)
    }
}

/// At their goals the agents below `k` are at distance 0 from them.
proof fn lemma_dist_sum_at_goals(g: Graph, goals: Seq<usize>, k: int)
    requires
        0 <= k <= goals.len(),
    ensures
        dist_sum(g, goals, goals, k) == 0,
        forall|i: int| 0 <= i < k ==> #[trigger] reachable(g, goals[i] as int, goals[i] as int),
    decreases k,
{
    if k > 0 {
        lemma_dist_sum_at_goals(g, goals, k - 1);
        let v = goals[k - 1] as int;
        assert(walk_within(g, v, v, 0));
        lemma_dist_exact(g, v, v, 0);
    }
}

/// One step from `c1` to `c2` lowers the distances of the agents below `k` to their goals by
/// at most the cost of the step.
proof fn lemma_dist_sum_step(g: Graph, goals: Seq<usize>, c1: Seq<usize>, c2: Seq<usize>, k: int)
    requires
        g.wf(),
        0 <= k <= goals.len(),
        c1.len() == goals.len(),
        moves(g, c1, c2),
        forall|i: int| 0 <= i < c1.len() ==> #[trigger] c1[i] < g.vertices@.len() && c2[i] < g.vertices@.len(),
        forall|i: int| 0 <= i < k ==> #[trigger] reachable(g, goals[i] as int, c2[i] as int),
    ensures
        forall|i: int| 0 <= i < k ==> #[trigger] reachable(g, goals[i] as int, c1[i] as int),
        dist_sum(g, goals, c1, k) <= dist_sum(g, goals, c2, k) + edge_cost_upto(goals, c1, c2, k),
    decreases k,
{
    if k > 0 {
        lemma_dist_sum_step(g, goals, c1, c2, k - 1);
        let i = k - 1;
        assert(c1[i] < g.vertices@.len());
        assert(g.acts(c1[i] as int).contains(c2[i]));
        assert(reachable(g, goals[i] as int, c2[i] as int));
        lemma_dist_step(g, goals[i] as int, c1[i] as int, c2[i] as int);
    }
}

/// From any time `t` of a plan, the cost of the rest of the plan is at least the sum of the
/// distances of the agents to their goals at `t`.
pub(crate) proof fn lemma_rest_cost(instance: &Instance, plan: Seq<Seq<usize>>, t: int)
    requires
        instance.wf(),
        valid_plan(instance, plan),
        0 <= t < plan.len(),
    ensures
        forall|i: int| 0 <= i < instance.num_agents ==> #[trigger] reachable(
            instance.graph,
            instance.goals@[i] as int,
            plan[t][i] as int,
        ),
        dist_sum(instance.graph, instance.goals@, plan[t], instance.num_agents as int) + loss_upto(plan, instance.goals@, t + 1)
            <= loss_upto(plan, instance.goals@, plan.len() as int),
    decreases plan.len() - t,
{
    let g = instance.graph;
    let goals = instance.goals@;
    let n = instance.num_agents as int;
    if t == plan.len() - 1 {
        assert(plan[t] == goals);
        lemma_dist_sum_at_goals(g, goals, n);
    } else {
        lemma_rest_cost(instance, plan, t + 1);
        assert(config_ok(instance, plan[t]));
        assert(config_ok(instance, plan[t + 1]));
        assert(moves(g, plan[t], plan[t + 1]));
        lemma_dist_sum_step(g, goals, plan[t], plan[t + 1], n);
        assert(loss_upto(plan, goals, t + 2) == loss_upto(plan, goals, t + 1) + edge_cost(goals, plan[t], plan[t + 1]));
    }
}

/// Pairwise different configurations of `n` agents on `v` vertices number at most `v^n`.
proof fn lemma_configs_bounded(cs: Seq<Seq<usize>>, v: nat, n: nat)
    requires
        forall|x: int| 0 <= x < cs.len() ==> (#[trigger] cs[x]).len() == n,
        forall|x: int, i: int| 0 <= x < cs.len() && 0 <= i < n ==> (#[trigger] cs[x][i]) < v,
        forall|x: int, y: int| 0 <= x < y < cs.len() ==> #[trigger] cs[x] != #[trigger] cs[y],
    ensures
        cs.len() <= power(v, n),
{
    let codes = cs.map_values(|c: Seq<usize>| config_code(c, v) as int);
    assert forall|x: int| 0 <= x < codes.len() implies 0 <= #[trigger] codes[x] < power(v, n) by {
        assert forall|i: int| 0 <= i < cs[x].len() implies #[trigger] cs[x][i] < v by {}
        lemma_code_range(cs[x], v);
    }
    assert forall|x: int, y: int| 0 <= x < codes.len() && 0 <= y < codes.len() && x != y implies codes[x] != codes[y] by {
        if codes[x] == codes[y] {
            assert forall|i: int| 0 <= i < cs[x].len() implies #[trigger] cs[x][i] < v by {}
            assert forall|i: int| 0 <= i < cs[y].len() implies #[trigger] cs[y][i] < v by {}
            lemma_code_injective(cs[x], cs[y], v);
            if x < y {
                assert(cs[x] != cs[y]);
            } else {
                assert(cs[y] != cs[x]);
            }
        }
    }
    assert(codes.no_duplicates());
    lemma_distinct_bounded(codes, power(v, n) as int);
}

impl<'a> LaCAM<'a> {
    /// The sum of the agents' distances to their goals in `config`.
    fn get_h_val(dist_table: &mut DistTable<'a>, instance: &Instance, config: &Config) -> (cost: u128)
        requires
            old(dist_table).serves(instance),
            instance.wf(),
            config_ok(instance, config@),
            forall|i: int|
                0 <= i < config@.len() ==> #[trigger] reachable(instance.graph, instance.goals@[i] as int, config@[i] as int),
        ensures
            final(dist_table).serves(instance),
            cost == dist_sum(instance.graph, instance.goals@, config@, instance.num_agents as int),
    {
        let mut cost: u128 = 0;
        let mut i: usize = 0;
        while i < instance.num_agents
            invariant
                dist_table.serves(instance),
                instance.wf(),
                config_ok(instance, config@),
                forall|t: int|
                    0 <= t < config@.len() ==> #[trigger] reachable(instance.graph, instance.goals@[t] as int, config@[t] as int),
                0 <= i <= instance.num_agents,
                cost == dist_sum(instance.graph, instance.goals@, config@, i as int),
                cost <= i * (i32::MAX as int),
            decreases instance.num_agents - i,
        {
            let d = dist_table.get(i, config[i]);
            proof {
                assert(cost + d <= (i + 1) * (i32::MAX as int)) by (nonlinear_arith)
                    requires
                        cost <= i * (i32::MAX as int),
                        0 <= d <= i32::MAX,
                ;
                assert((i + 1) * (i32::MAX as int) <= 0x1_0000_0000_0000_0000 * 0x8000_0000) by (nonlinear_arith)
                    requires
                        i < 0x1_0000_0000_0000_0000,
                ;
            }
            cost = cost + d as u128;
            i += 1;
        }
        cost
    }

    /// The cost of the step `c1 -> c2`.
    fn get_edge_cost(&self, c1: &Config, c2: &Config) -> (cost: u128)
        requires
            self.instance.wf(),
            c1@.len() >= self.n(),
            c2@.len() >= self.n(),
        ensures
            cost == edge_cost(self.instance.goals@, c1@, c2@),
            cost <= self.n(),
    {
        let mut cost: u128 = 0;
        let mut i: usize = 0;
        while i < self.instance.num_agents
            invariant
                self.instance.wf(),
                c1@.len() >= self.n(),
                c2@.len() >= self.n(),
                0 <= i <= self.instance.num_agents,
                cost == edge_cost_upto(self.instance.goals@, c1@, c2@, i as int),
                cost <= i,
            decreases self.instance.num_agents - i,
        {
            if c1[i] != self.instance.goals[i] || c2[i] != self.instance.goals[i] {
                cost += 1;
            }
            i += 1;
        }
        cost
    }
}


impl<'a> LaCAM<'a> {
    /// A node of `a` stays well formed in `b` when its own record is kept, the other nodes
    /// keep their configurations and neighbours and do not grow dearer, and the low-level nodes
    /// only grow.
    proof fn lemma_node_ok_frame(a: &Self, b: &Self, x: int)
        requires
            a.node_ok(x),
            a.instance == b.instance,
            0 <= x < a.h_arena@.len() <= b.h_arena@.len(),
            forall|y: int|
                0 <= y < a.h_arena@.len() ==> (#[trigger] b.h_arena@[y]).config == a.h_arena@[y].config
                    && b.h_arena@[y].g <= a.h_arena@[y].g,
            b.h_arena@[x] == a.h_arena@[x],
            a.l_arena@.len() <= b.l_arena@.len(),
            forall|i: int| 0 <= i < a.l_arena@.len() ==> #[trigger] b.l_arena@[i] == a.l_arena@[i],
            forall|y: int, z: int|
                0 <= y < a.h_arena@.len() && #[trigger] lists(a.h_arena@[y], z) ==> lists(b.h_arena@[y], z),
        ensures
            b.node_ok(x),
    {
        let node = a.h_arena@[x];
        assert forall|k: int|
            0 <= k < node.neighbors@.len() implies (#[trigger] node.neighbors@[k]).0 < b.h_arena@.len() && b.step_ok(
                node.config@,
                b.h_arena@[node.neighbors@[k].0 as int].config@,
            ) by {
            assert(b.h_arena@[node.neighbors@[k].0 as int].config == a.h_arena@[node.neighbors@[k].0 as int].config);
        }
        if let Some(p) = node.parent {
            assert(b.h_arena@[p.0 as int].config == a.h_arena@[p.0 as int].config);
            assert(b.h_arena@[p.0 as int].g <= a.h_arena@[p.0 as int].g);
        }
        assert forall|k: int|
            0 <= k < node.search_tree@.len() implies (#[trigger] node.search_tree@[k]).0 < b.l_arena@.len()
                && b.lnode_ok(b.l_arena@[node.search_tree@[k].0 as int], node) by {
            assert(b.l_arena@[node.search_tree@[k].0 as int] == a.l_arena@[node.search_tree@[k].0 as int]);
        }
    }

    /// Adds a high-level node for `config`, reached from `parent` (none for the start).
    fn create_highlevel_node(&mut self, config: &Config, parent: Option<HNodeId>) -> (h_id: HNodeId)
        requires
            old(self).inv(),
            old(self).positions_ok(config@),
            old(self).starts_apart() ==> config_distinct(config@),
            forall|x: int| 0 <= x < old(self).h_arena@.len() ==> #[trigger] old(self).h_arena@[x].config@ != config@,
            parent is None ==> old(self).h_arena@.len() == 0 && config@ == old(self).instance.starts@,
            parent matches Some(p) ==> p.0 < old(self).h_arena@.len() && old(self).step_ok(
                old(self).h_arena@[p.0 as int].config@,
                config@,
            ),
        ensures
            final(self).inv(),
            h_id.0 == old(self).h_arena@.len(),
            final(self).h_arena@.len() == old(self).h_arena@.len() + 1,
            final(self).h_arena@[h_id.0 as int].config@ == config@,
            final(self).instance == old(self).instance,
            final(self).open == old(self).open,
            final(self).h_goal == old(self).h_goal,
            final(self).loop_cnt == old(self).loop_cnt,
            final(self).flg_star == old(self).flg_star,
            final(self).measure() == old(self).measure(),
            forall|y: int|
                0 <= y < old(self).h_arena@.len() ==> (#[trigger] final(self).h_arena@[y]).config == old(
                    self,
                ).h_arena@[y].config && final(self).h_arena@[y].search_tree == old(self).h_arena@[y].search_tree
                    && final(self).h_arena@[y].g == old(self).h_arena@[y].g && final(self).h_arena@[y].f
                    == old(self).h_arena@[y].f,
            old(self).l_arena@.len() <= final(self).l_arena@.len(),
            forall|i: int| 0 <= i < old(self).l_arena@.len() ==> #[trigger] final(self).l_arena@[i] == old(self).l_arena@[i],
            final(self).h_arena@[h_id.0 as int].search_tree@.len() == 1,
            final(self).l_arena@[final(self).h_arena@[h_id.0 as int].search_tree@[0].0 as int].constraints@.len() == 0,
            forall|y: int, z: int|
                0 <= y < old(self).h_arena@.len() && #[trigger] lists(old(self).h_arena@[y], z) ==> lists(
                    final(self).h_arena@[y],
                    z,
                ),
            parent matches Some(p) ==> final(self).h_arena@[p.0 as int].neighbors@.contains(h_id),
            final(self).h_arena@[h_id.0 as int].parent == parent,
            final(self).h_arena@[h_id.0 as int].neighbors@ == (match parent {
                Some(p) => seq![p],
                None => Seq::<HNodeId>::empty(),
            }),
            forall|i: int|
                0 <= i < old(self).n() ==> #[trigger] final(self).h_arena@[h_id.0 as int].priorities@[i] == priority_at(
                    old(self).instance,
                    parent_priorities(old(self).h_arena@, parent),
                    config@,
                    i,
                ),
            ordered_by(final(self).h_arena@[h_id.0 as int].priorities@, final(self).h_arena@[h_id.0 as int].order@),
            final(self).l_arena@.len() == old(self).l_arena@.len() + 1,
            final(self).h_arena@[h_id.0 as int].search_tree@ == seq![LNodeId(old(self).l_arena@.len() as usize)],
            forall|y: int|
                0 <= y < old(self).h_arena@.len() && !(parent matches Some(p) && y == p.0)
                    ==> #[trigger] final(self).h_arena@[y] == old(self).h_arena@[y],
            parent matches Some(p) ==> {
                let a = old(self).h_arena@[p.0 as int];
                let b = final(self).h_arena@[p.0 as int];
                &&& b.config == a.config && b.parent == a.parent && b.g == a.g && b.h == a.h && b.f == a.f
                &&& b.priorities == a.priorities && b.order == a.order && b.search_tree == a.search_tree
                &&& forall|z: HNodeId| #[trigger] b.neighbors@.contains(z) <==> (a.neighbors@.contains(z) || z == h_id)
                &&& b.neighbors@.len() == a.neighbors@.len() + 1
            },
    {
        let ghost old_h = self.h_arena@;
        let ghost old_l = self.l_arena@;
        let ghost nn = self.n();
        let ghost nv = self.graph().vertices@.len();
        let n = self.instance.num_agents;
        let arena_len = self.h_arena.len();
        proof {
            // one more configuration still fits in the configuration space
            let cs = self.configs().push(config@);
            assert forall|x: int| 0 <= x < cs.len() implies (#[trigger] cs[x]).len() == nn by {
                if x < old_h.len() {
                    assert(self.node_ok(x));
                }
            }
            assert forall|x: int, i: int| 0 <= x < cs.len() && 0 <= i < nn implies (#[trigger] cs[x][i]) < nv by {
                if x < old_h.len() {
                    assert(self.node_ok(x));
                    assert(cs[x] == old_h[x].config@);
                }
            }
            assert forall|x: int, y: int| 0 <= x < y < cs.len() implies #[trigger] cs[x] != #[trigger] cs[y] by {
                if y < old_h.len() {
                    assert(old_h[x].config@ != old_h[y].config@);
                } else {
                    assert(old_h[x].config@ != config@);
                }
            }
            lemma_configs_bounded(cs, nv, nn);
        }
        let g: u128 = match parent {
            None => 0,
            Some(pid) => {
                proof {
                    assert(self.node_ok(pid.0 as int));
                }
                let parent_g = self.h_arena.get(pid).g;
                let cost = self.get_edge_cost(&self.h_arena.get(pid).config, config);
                proof {
                    assert(parent_g <= pid.0 * nn);
                    assert(parent_g + cost <= (pid.0 + 1) * nn) by (nonlinear_arith)
                        requires
                            parent_g <= pid.0 * nn,
                            cost <= nn,
                    ;
                    assert((pid.0 + 1) * nn <= 0xFFFF_FFFF_FFFF_FFFF * 0xFFFF_FFFF_FFFF_FFFF) by (nonlinear_arith)
                        requires
                            pid.0 + 1 <= 0xFFFF_FFFF_FFFF_FFFF,
                            nn <= 0xFFFF_FFFF_FFFF_FFFF,
                    ;
                    assert(old_h[pid.0 as int].config@ != config@);
                    lemma_edge_cost_bounds(self.instance.goals@, old_h[pid.0 as int].config@, config@, nn as int);
                    if forall|i: int| 0 <= i < nn ==> old_h[pid.0 as int].config@[i] == config@[i] {
                        assert(old_h[pid.0 as int].config@ =~= config@);
                    }
                }
                parent_g + cost
            },
        };
        let h = Self::get_h_val(&mut self.dist_table, self.instance, config);
        let f = g.saturating_add(h);
        assert(self.dist_table.serves(self.instance));
        assert(self.pibt.wf());
        assert(self.inv());

        // priorities, in units of 1/10000
        let mut priorities: Vec<u64> = Vec::new();
        let mut i: usize = 0;
        while i < n
            invariant
                self.inv(),
                self.h_arena@ == old_h,
                self.l_arena@ == old_l,
                self.instance == old(self).instance,
                self.open == old(self).open,
                self.h_goal == old(self).h_goal,
                self.loop_cnt == old(self).loop_cnt,
                self.flg_star == old(self).flg_star,
                n == self.instance.num_agents,
                old(self).positions_ok(config@),
                parent matches Some(p) ==> p.0 < old_h.len(),
                0 <= i <= n,
                priorities@.len() == i,
                forall|t: int|
                    0 <= t < i ==> #[trigger] priorities@[t] == priority_at(
                        self.instance,
                        parent_priorities(old_h, parent),
                        config@,
                        t,
                    ),
            decreases n - i,
        {
            let d = self.dist_table.get(i, config[i]);
            match parent {
                None => priorities.push(d as u64),
                Some(pid) => {
                    proof {
                        assert(self.node_ok(pid.0 as int));
                    }
                    let parent_priority = self.h_arena.get(pid).priorities[i];
                    if d != 0 {
                        priorities.push(parent_priority.saturating_add(10000));
                    } else {
                        priorities.push(parent_priority % 10000);
                    }
                },
            }
            i += 1;
        }
        let order = order_by_priority(&priorities);

        let l_init = self.l_arena.allocate(LNode { constraints: Vec::new() });
        let mut search_tree: VecDeque<LNodeId> = VecDeque::new();
        search_tree.push_back(l_init);
        let mut neighbors: Vec<HNodeId> = Vec::new();
        if let Some(pid) = parent {
            neighbors.push(pid);
        }
        let ghost mid = *self;
        let h_id = self.h_arena.allocate(
            HNode {
                config: config.clone(),
                parent,
                neighbors,
                g,
                h,
                f,
                priorities,
                order,
                search_tree,
            },
        );
        if let Some(pid) = parent {
            proof {
                // the new node is no neighbour of the parent yet
                assert(old(self).node_ok(pid.0 as int));
                if self.h_arena@[pid.0 as int].neighbors@.contains(h_id) {
                    let k = choose|k: int|
                        0 <= k < self.h_arena@[pid.0 as int].neighbors@.len()
                            && self.h_arena@[pid.0 as int].neighbors@[k] == h_id;
                    assert(old_h[pid.0 as int].neighbors@[k] == h_id);
                }
            }
            let node = self.h_arena.get_mut(pid);
            insert_sorted(&mut node.neighbors, h_id);
        }
        self.explored.insert(config, h_id.0, Ghost(mid.configs()));
        proof {
            let hs = self.h_arena@;
            let ls = self.l_arena@;
            assert(ls.len() == old_l.len() + 1);
            assert(forall|i: int| 0 <= i < old_l.len() ==> #[trigger] ls[i] == old_l[i]);
            assert(ls[l_init.0 as int].constraints@.len() == 0);
            assert forall|y: int| 0 <= y < old_h.len() implies (#[trigger] hs[y]).config == old_h[y].config
                && hs[y].g == old_h[y].g by {}
            assert(mid.configs().push(config@) =~= self.configs()) by {
                assert forall|x: int| 0 <= x < hs.len() implies #[trigger] self.configs()[x] == mid.configs().push(config@)[x] by {
                    if x < old_h.len() {
                        assert(hs[x].config == old_h[x].config);
                    }
                }
            }
            // the new node
            let node = hs[h_id.0 as int];
            assert(node.search_tree@ == seq![l_init]);
            assert(self.lnode_ok(ls[l_init.0 as int], node));
            if let Some(pid) = parent {
                let pc = old_h[pid.0 as int].config@;
                assert(old(self).node_ok(pid.0 as int));
                lemma_moves_symmetric(self.graph(), pc, config@);
                if self.starts_apart() {
                    lemma_no_swap_symmetric(pc, config@);
                }
                assert(node.neighbors@ == seq![pid]);
                assert(hs[pid.0 as int].config == old_h[pid.0 as int].config);
                assert(self.step_ok(config@, hs[pid.0 as int].config@));
                assert(hs[pid.0 as int].neighbors@.contains(h_id));
                let kk = choose|kk: int| 0 <= kk < hs[pid.0 as int].neighbors@.len() && hs[pid.0 as int].neighbors@[kk] == h_id;
                assert(lists(hs[pid.0 as int], h_id.0 as int));
                assert(g == old_h[pid.0 as int].g + edge_cost(self.instance.goals@, old_h[pid.0 as int].config@, config@));
                assert(g <= h_id.0 * nn) by (nonlinear_arith)
                    requires
                        g <= (pid.0 + 1) * nn,
                        pid.0 + 1 <= h_id.0,
                ;
            }
            assert(self.node_ok(h_id.0 as int));
            // the other nodes: the neighbour lists only grew
            assert forall|y: int, z: int|
                0 <= y < old_h.len() && #[trigger] lists(old_h[y], z) implies lists(hs[y], z) by {
                let k = choose|k: int| 0 <= k < old_h[y].neighbors@.len() && (#[trigger] old_h[y].neighbors@[k]).0 == z;
                if parent matches Some(pid) && y == pid.0 {
                    assert(old_h[y].neighbors@.contains(old_h[y].neighbors@[k]));
                    assert(hs[y].neighbors@.contains(old_h[y].neighbors@[k]));
                    let k2 = choose|k2: int| 0 <= k2 < hs[y].neighbors@.len() && hs[y].neighbors@[k2] == old_h[y].neighbors@[k];
                    assert(hs[y].neighbors@[k2].0 == z);
                } else {
                    assert(hs[y] == old_h[y]);
                    assert(hs[y].neighbors@[k].0 == z);
                }
            }
            assert forall|x: int| 0 <= x < hs.len() implies #[trigger] node_ok_in(self.instance, hs, ls, x) by {
                if x == h_id.0 {
                    assert(self.node_ok(h_id.0 as int));
                } else if x < old_h.len() {
                    assert(old(self).node_ok(x));
                    if parent matches Some(pid) && x == pid.0 {
                        let pn = hs[x];
                        let on = old_h[x];
                        assert(pn.config == on.config && pn.g == on.g && pn.parent == on.parent && pn.order == on.order
                            && pn.priorities == on.priorities && pn.search_tree == on.search_tree);
                        assert forall|k: int|
                            0 <= k < pn.neighbors@.len() implies (#[trigger] pn.neighbors@[k]).0 < hs.len() && self.step_ok(
                                pn.config@,
                                hs[pn.neighbors@[k].0 as int].config@,
                            ) by {
                            assert(pn.neighbors@.contains(pn.neighbors@[k]));
                            if pn.neighbors@[k] != h_id {
                                assert(on.neighbors@.contains(pn.neighbors@[k]));
                                let kk = choose|kk: int| 0 <= kk < on.neighbors@.len() && on.neighbors@[kk] == pn.neighbors@[k];
                                assert(hs[on.neighbors@[kk].0 as int].config == old_h[on.neighbors@[kk].0 as int].config);
                            }
                        }
                        if let Some(pp) = pn.parent {
                            assert(hs[pp.0 as int] == old_h[pp.0 as int]);
                        }
                        assert forall|k: int|
                            0 <= k < pn.search_tree@.len() implies (#[trigger] pn.search_tree@[k]).0 < ls.len()
                                && self.lnode_ok(ls[pn.search_tree@[k].0 as int], pn) by {
                            assert(ls[pn.search_tree@[k].0 as int] == old_l[pn.search_tree@[k].0 as int]);
                        }
                        assert(self.node_ok(x));
                    } else {
                        LaCAM::lemma_node_ok_frame(old(self), self, x);
                        assert(self.node_ok(x));
                    }
                }
            }
            assert forall|x: int, y: int| 0 <= x < y < hs.len() implies #[trigger] hs[x].config@ != #[trigger] hs[y].config@ by {
                if y < old_h.len() {
                    assert(old_h[x].config@ != old_h[y].config@);
                } else {
                    assert(old_h[x].config@ != config@);
                }
            }
            // the measure: one fresh tree of full size, one configuration fewer to meet
            assert forall|x: int, k: int|
                0 <= x < old_h.len() && 0 <= k < old_h[x].search_tree@.len() implies (#[trigger] old_h[x].search_tree@[k]).0
                    < old_l.len() by {
                assert(old(self).node_ok(x));
            }
            lemma_arena_weight_extend(nn, old_l, ls, old_h);
            let after_parent = match parent {
                Some(pid) => old_h.update(pid.0 as int, hs[pid.0 as int]),
                None => old_h,
            };
            if let Some(pid) = parent {
                lemma_arena_weight_update(nn, ls, old_h, pid.0 as int, hs[pid.0 as int]);
            }
            assert(hs =~= after_parent.push(node));
            lemma_arena_weight_push(nn, ls, after_parent, node);
            lemma_tree_weight_push(nn, ls, Seq::empty(), l_init);
            assert(seq![l_init] =~= Seq::<LNodeId>::empty().push(l_init));
            let big = power(nv, nn) as int;
            let lz = lsize(nn) as int;
            assert(old_h.len() + 1 <= big);
            assert(((big - old_h.len() - 1) as nat) * lz + lz == ((big - old_h.len()) as nat) * lz) by (nonlinear_arith)
                requires
                    old_h.len() + 1 <= big,
            ;
            assert(self.open == old(self).open);
            assert(self.instance.wf());
            assert(self.dist_table.serves(self.instance));
            assert(self.pibt.wf());
            assert(self.pibt.instance == self.instance);
            assert(forall|x: int| 0 <= x < hs.len() ==> #[trigger] node_ok_in(self.instance, hs, self.l_arena@, x));
            assert(hs.len() > 0 ==> hs[0].config@ == self.instance.starts@);
            assert(self.explored.files(self.configs()));
            assert(forall|k: int| 0 <= k < self.open@.len() ==> (#[trigger] self.open@[k]).0 < hs.len());
            assert(self.h_goal matches Some(id) ==> id.0 < hs.len() && hs[id.0 as int].config@ == self.instance.goals@);
            // no neighbour is reached more cheaply: the new node costs its parent's plus the step
            assert forall|y: int| 0 <= y < hs.len() implies #[trigger] relaxed_at(self.instance, hs, y) by {
                if y < old_h.len() {
                    assert(relaxed_at(self.instance, old_h, y));
                    assert(old(self).node_ok(y));
                    assert forall|j: int| 0 <= j < hs[y].neighbors@.len() implies hs[(#[trigger] hs[y].neighbors@[j]).0 as int].g
                        <= hs[y].g + edge_cost(
                        self.instance.goals@,
                        hs[y].config@,
                        hs[hs[y].neighbors@[j].0 as int].config@,
                    ) by {
                        let nb = hs[y].neighbors@[j];
                        if nb != h_id {
                            if parent matches Some(pid) && y == pid.0 {
                                assert(hs[y].neighbors@.contains(nb));
                                assert(old_h[y].neighbors@.contains(nb));
                                let jj = choose|jj: int| 0 <= jj < old_h[y].neighbors@.len() && old_h[y].neighbors@[jj] == nb;
                                assert(old_h[old_h[y].neighbors@[jj].0 as int].g <= old_h[y].g + edge_cost(
                                    self.instance.goals@,
                                    old_h[y].config@,
                                    old_h[old_h[y].neighbors@[jj].0 as int].config@,
                                ));
                            } else {
                                assert(hs[y] == old_h[y]);
                                assert(old_h[old_h[y].neighbors@[j].0 as int].g <= old_h[y].g + edge_cost(
                                    self.instance.goals@,
                                    old_h[y].config@,
                                    old_h[old_h[y].neighbors@[j].0 as int].config@,
                                ));
                            }
                            assert(nb.0 < old_h.len());
                            assert(hs[nb.0 as int].g == old_h[nb.0 as int].g);
                            assert(hs[nb.0 as int].config == old_h[nb.0 as int].config);
                        } else {
                            assert(parent is Some);
                        }
                    }
                } else {
                    if let Some(pid) = parent {
                        assert(hs[y].neighbors@ == seq![pid]);
                        assert(hs[pid.0 as int].g == old_h[pid.0 as int].g);
                    } else {
                        assert(hs[y].neighbors@.len() == 0);
                    }
                }
            }
            // costs: the new node's is its parent's plus the step, the others are kept
            assert forall|y: int| 0 <= y < hs.len() implies #[trigger] exact_at(self.instance, hs, y) by {
                if y < old_h.len() {
                    assert(exact_at(self.instance, old_h, y));
                    if let Some(p) = hs[y].parent {
                        assert(old(self).node_ok(y));
                        assert(hs[p.0 as int].g == old_h[p.0 as int].g);
                        assert(hs[p.0 as int].config == old_h[p.0 as int].config);
                    }
                } else {
                    if let Some(pid) = parent {
                        assert(hs[pid.0 as int].g == old_h[pid.0 as int].g);
                        assert(hs[pid.0 as int].config == old_h[pid.0 as int].config);
                    }
                }
            }
        }
        h_id
    }
}


impl<'a> LaCAM<'a> {
    /// Takes the next low-level node of `h_id`, first adding its children: the next agent in
    /// the order constrained to each of its moves, in random order.
    fn get_next_lowlevel_node(&mut self, h_id: HNodeId) -> (r: Option<LNodeId>)
        requires
            old(self).inv(),
            h_id.0 < old(self).h_arena@.len(),
        ensures
            final(self).inv(),
            final(self).instance == old(self).instance,
            final(self).open == old(self).open,
            final(self).h_goal == old(self).h_goal,
            final(self).loop_cnt == old(self).loop_cnt,
            final(self).flg_star == old(self).flg_star,
            final(self).h_arena@.len() == old(self).h_arena@.len(),
            forall|x: int| 0 <= x < final(self).h_arena@.len() ==> (#[trigger] final(self).h_arena@[x]).config
                == old(self).h_arena@[x].config && final(self).h_arena@[x].order == old(self).h_arena@[x].order
                && final(self).h_arena@[x].g == old(self).h_arena@[x].g && final(self).h_arena@[x].f
                == old(self).h_arena@[x].f,
            match r {
                None => final(self).measure() == old(self).measure(),
                Some(l) => {
                    &&& l.0 < final(self).l_arena@.len()
                    &&& final(self).lnode_ok(final(self).l_arena@[l.0 as int], final(self).h_arena@[h_id.0 as int])
                    &&& final(self).measure() < old(self).measure()
                },
            },
            forall|y: int|
                0 <= y < old(self).h_arena@.len() && y != h_id.0 ==> (#[trigger] final(self).h_arena@[y]).search_tree
                    == old(self).h_arena@[y].search_tree,
            old(self).l_arena@.len() <= final(self).l_arena@.len(),
            forall|i: int| 0 <= i < old(self).l_arena@.len() ==> #[trigger] final(self).l_arena@[i] == old(self).l_arena@[i],
            r is None ==> final(self).h_arena@[h_id.0 as int].search_tree@.len() == 0,
            r is None <==> old(self).h_arena@[h_id.0 as int].search_tree@.len() == 0,
            r is None ==> final(self).h_arena@ == old(self).h_arena@ && final(self).l_arena@ == old(self).l_arena@,
            r matches Some(l) ==> ({
                let node = old(self).h_arena@[h_id.0 as int];
                let t0 = node.search_tree@;
                let t1 = final(self).h_arena@[h_id.0 as int].search_tree@;
                let c = old(self).l_arena@[l.0 as int].constraints@;
                &&& l == t0[0]
                &&& t1.len() >= t0.len() - 1
                &&& t1.subrange(0, t0.len() - 1) == t0.drop_first()
                &&& c.len() >= old(self).n() ==> t1 == t0.drop_first()
                &&& c.len() < old(self).n() ==> {
                    let a = node.order@[c.len() as int];
                    let moves = old(self).graph().acts(node.config@[a as int] as int);
                    &&& t1.len() == t0.len() - 1 + moves.len()
                    &&& forall|k: int|
                        t0.len() - 1 <= k < t1.len() ==> (#[trigger] t1[k]).0 >= old(self).l_arena@.len() && extends_by(
                            final(self).l_arena@[t1[k].0 as int],
                            c,
                            a,
                            moves,
                        )
                    &&& forall|u: usize|
                        #[trigger] moves.contains(u) ==> exists|k: int|
                            t0.len() - 1 <= k < t1.len() && final(self).l_arena@[(#[trigger] t1[k]).0 as int].constraints@.last()
                                == (a, u)
                }
            }),
            forall|y: int|
                0 <= y < old(self).h_arena@.len() ==> (#[trigger] final(self).h_arena@[y]).neighbors == old(
                    self,
                ).h_arena@[y].neighbors,
            forall|c: Seq<usize>|
                successor(old(self).instance, old(self).h_arena@[h_id.0 as int].config@, c) && #[trigger] covered(
                    old(self).h_arena@,
                    old(self).l_arena@,
                    h_id.0 as int,
                    c,
                ) ==> covered(final(self).h_arena@, final(self).l_arena@, h_id.0 as int, c) || (r matches Some(l)
                    && final(self).l_arena@[l.0 as int].constraints@.len() == old(self).n() && consistent(
                    final(self).l_arena@[l.0 as int],
                    c,
                )),
    {
        let ghost old_h = self.h_arena@;
        let ghost old_l = self.l_arena@;
        let ghost nn = self.n();
        let ghost x = h_id.0 as int;
        proof {
            assert(self.node_ok(x));
        }
        if self.h_arena.get(h_id).search_tree.len() == 0 {
            return None;
        }
        let ghost tree0 = old_h[x].search_tree@;
        let l_id = {
            let node = self.h_arena.get_mut(h_id);
            node.search_tree.pop_front().unwrap()
        };
        let ghost tree1 = tree0.drop_first();
        assert(l_id == tree0[0]);
        assert(self.h_arena@[x].search_tree@ == tree1);
        let depth = self.l_arena.get(l_id).constraints.len();
        let n = self.instance.num_agents;
        proof {
            assert(self.lnode_ok(old_l[l_id.0 as int], old_h[x]));
            lemma_tree_weight_front(nn, old_l, tree0);
        }
        if depth < n {
            let parent_constraints = copy_constraints(&self.l_arena.get(l_id).constraints);
            let i = self.h_arena.get(h_id).order[depth];
            let current_v = self.h_arena.get(h_id).config[i];
            let ghost g = self.graph();
            proof {
                assert(old_h[x].config@.len() == nn);
                g.lemma_neighbors_in_range(current_v as int);
            }
            let neighbors = self.instance.graph.get_neighbors(current_v);
            let mut cands: Vec<usize> = Vec::new();
            let mut t: usize = 0;
            while t < neighbors.len()
                invariant
                    0 <= t <= neighbors@.len(),
                    cands@ == neighbors@.subrange(0, t as int),
                decreases neighbors@.len() - t,
            {
                cands.push(neighbors[t]);
                proof {
                    assert(cands@ =~= neighbors@.subrange(0, t + 1));
                }
                t += 1;
            }
            cands.push(current_v);
            proof {
                assert(cands@ =~= g.acts(current_v as int)) by {
                    assert(g.adjacency_ok(current_v as int));
                    assert(neighbors@.subrange(0, neighbors@.len() as int) =~= neighbors@);
                }
            }
            // shuffle the candidates
            let ghost h_popped = self.h_arena@;
            let mut k: usize = cands.len() - 1;
            while k >= 1
                invariant
                    self.instance == old(self).instance,
                    self.open == old(self).open,
                    self.h_goal == old(self).h_goal,
                    self.loop_cnt == old(self).loop_cnt,
                    self.flg_star == old(self).flg_star,
                    self.dist_table == old(self).dist_table,
                    self.pibt == old(self).pibt,
                    self.explored == old(self).explored,
                    self.deadline == old(self).deadline,
                    self.h_arena@ == h_popped,
                    self.l_arena@ == old_l,
                    cands@.len() == g.acts(current_v as int).len(),
                    cands@.len() <= 5,
                    k < cands@.len(),
                    forall|a: int| 0 <= a < cands@.len() ==> g.acts(current_v as int).contains(#[trigger] cands@[a]),
                    forall|a: usize| #[trigger] g.acts(current_v as int).contains(a) ==> cands@.contains(a),
                decreases k,
            {
                let j = random_index(&mut self.rng, k);
                let a = cands[k];
                let b = cands[j];
                let ghost before = cands@;
                cands.set(k, b);
                cands.set(j, a);
                proof {
                    assert forall|v: usize| #[trigger] g.acts(current_v as int).contains(v) implies cands@.contains(v) by {
                        assert(before.contains(v));
                        let p = choose|p: int| 0 <= p < before.len() && before[p] == v;
                        if p == k {
                            assert(cands@[j as int] == v);
                        } else if p == j {
                            assert(cands@[k as int] == v);
                        } else {
                            assert(cands@[p] == v);
                        }
                    }
                }
                k -= 1;
            }
            let ghost l_mid = self.l_arena@;
            let mut c: usize = 0;
            while c < cands.len()
                invariant
                    self.instance == old(self).instance,
                    self.open == old(self).open,
                    self.h_goal == old(self).h_goal,
                    self.loop_cnt == old(self).loop_cnt,
                    self.flg_star == old(self).flg_star,
                    self.dist_table == old(self).dist_table,
                    self.pibt == old(self).pibt,
                    self.explored == old(self).explored,
                    self.deadline == old(self).deadline,
                    x == h_id.0,
                    l_id.0 < old_l.len(),
                    h_id.0 < old_h.len(),
                    self.h_arena@.len() == old_h.len(),
                    forall|y: int| 0 <= y < old_h.len() && y != x ==> #[trigger] self.h_arena@[y] == old_h[y],
                    ({
                        let nd = self.h_arena@[x];
                        let od = old_h[x];
                        &&& nd.config == od.config
                        &&& nd.parent == od.parent
                        &&& nd.neighbors == od.neighbors
                        &&& nd.g == od.g
                        &&& nd.h == od.h
                        &&& nd.f == od.f
                        &&& nd.priorities == od.priorities
                        &&& nd.order == od.order
                    }),
                    self.l_arena@.len() >= old_l.len(),
                    forall|y: int| 0 <= y < old_l.len() ==> #[trigger] self.l_arena@[y] == old_l[y],
                    self.h_arena@[x].search_tree@.len() == tree1.len() + c,
                    forall|t: int| 0 <= t < tree1.len() ==> #[trigger] self.h_arena@[x].search_tree@[t] == tree1[t],
                    forall|t: int|
                        0 <= t < self.h_arena@[x].search_tree@.len() ==> (#[trigger] self.h_arena@[x].search_tree@[t]).0
                            < self.l_arena@.len() && lnode_ok_in(
                            self.instance,
                            self.l_arena@[self.h_arena@[x].search_tree@[t].0 as int],
                            self.h_arena@[x],
                        ),
                    tree_weight(nn, self.l_arena@, self.h_arena@[x].search_tree@) == tree_weight(nn, old_l, tree1) + c
                        * lsize((nn - (depth + 1)) as nat),
                    forall|t: int| 0 <= t < tree1.len() ==> (#[trigger] tree1[t]).0 < old_l.len(),
                    0 <= c <= cands@.len(),
                    cands@.len() <= 5,
                    forall|a: int| 0 <= a < cands@.len() ==> g.acts(current_v as int).contains(#[trigger] cands@[a]),
                    parent_constraints@ == old_l[l_id.0 as int].constraints@,
                    lnode_ok_in(self.instance, old_l[l_id.0 as int], old_h[x]),
                    depth == parent_constraints@.len(),
                    depth < n,
                    n == nn,
                    n == self.instance.num_agents,
                    forall|t: int|
                        0 <= t < c ==> (#[trigger] self.l_arena@[self.h_arena@[x].search_tree@[tree1.len() + t].0 as int]).constraints@
                            == parent_constraints@.push((i, cands@[t])),
                    forall|t: int| 0 <= t < c ==> (#[trigger] self.h_arena@[x].search_tree@[tree1.len() + t]).0 >= old_l.len(),
                    cands@.len() == g.acts(current_v as int).len(),
                    forall|a: usize| #[trigger] g.acts(current_v as int).contains(a) ==> cands@.contains(a),
                    i < n,
                    old_h[x].config@.len() == n,
                    current_v == old_h[x].config@[i as int],
                    i == old_h[x].order@[depth as int],
                    g == self.graph(),
                decreases cands@.len() - c,
            {
                let u = cands[c];
                let mut new_constraints = copy_constraints(&parent_constraints);
                new_constraints.push((i, u));
                let ghost lb = self.l_arena@;
                let ghost tb = self.h_arena@[x].search_tree@;
                let child_id = self.l_arena.allocate(LNode { constraints: new_constraints });
                let node = self.h_arena.get_mut(h_id);
                node.search_tree.push_back(child_id);
                proof {
                    let nd = self.h_arena@[x];
                    assert(nd.search_tree@ == tb.push(child_id));
                    assert(self.l_arena@ == lb.push(LNode { constraints: new_constraints }));
                    assert forall|t: int| 0 <= t < tb.len() implies (#[trigger] tb[t]).0 < lb.len() by {
                        assert(tb[t] == nd.search_tree@[t]);
                    }
                    lemma_tree_weight_extend(nn, lb, self.l_arena@, tb);
                    lemma_tree_weight_push(nn, self.l_arena@, tb, child_id);
                    let cl = self.l_arena@[child_id.0 as int];
                    assert(cl.constraints@ == parent_constraints@.push((i, u)));
                    assert(nd.config == old_h[x].config);
                    assert(lnode_ok_in(self.instance, cl, nd)) by {
                        let pl = old_l[l_id.0 as int];
                        assert(nd.order == old_h[x].order);
                        assert forall|q: int| 0 <= q < cl.constraints@.len() implies (#[trigger] cl.constraints@[q]).0 < self.instance.num_agents
                            && self.instance.graph.acts(nd.config@[cl.constraints@[q].0 as int] as int).contains(cl.constraints@[q].1)
                            && cl.constraints@[q].0 == nd.order@[q] by {
                            if q < depth {
                                assert(cl.constraints@[q] == pl.constraints@[q]);
                                assert(pl.constraints@[q].0 < self.instance.num_agents);
                                assert(self.instance.graph.acts(old_h[x].config@[pl.constraints@[q].0 as int] as int).contains(pl.constraints@[q].1));
                            } else {
                                assert(cl.constraints@[q] == (i, u));
                                assert(g.acts(current_v as int).contains(cands@[c as int]));
                            }
                        }
                    }
                    assert forall|t: int|
                        0 <= t < nd.search_tree@.len() implies (#[trigger] nd.search_tree@[t]).0 < self.l_arena@.len()
                            && lnode_ok_in(self.instance, self.l_arena@[nd.search_tree@[t].0 as int], nd) by {
                        if t < tb.len() {
                            assert(nd.search_tree@[t] == tb[t]);
                            assert(self.l_arena@[tb[t].0 as int] == lb[tb[t].0 as int]);
                        }
                    }
                    assert((c + 1) * lsize((nn - (depth + 1)) as nat) == c * lsize((nn - (depth + 1)) as nat) + lsize(
                        (nn - (depth + 1)) as nat)) by (nonlinear_arith);
                    assert forall|t: int|
                        0 <= t < c + 1 implies (#[trigger] self.l_arena@[nd.search_tree@[tree1.len() + t].0 as int]).constraints@
                            == parent_constraints@.push((i, cands@[t])) by {
                        if t < c {
                            assert(nd.search_tree@[tree1.len() + t] == tb[tree1.len() + t]);
                            assert(self.l_arena@[tb[tree1.len() + t].0 as int] == lb[tb[tree1.len() + t].0 as int]);
                        } else {
                            assert(nd.search_tree@[tree1.len() + t] == child_id);
                        }
                    }
                }
                c += 1;
            }
            proof {
                // the children: one per move of the next agent, each after the popped node's
                // constraints
                let t1 = self.h_arena@[x].search_tree@;
                let moves = g.acts(current_v as int);
                assert(t1.subrange(0, tree1.len() as int) =~= tree1);
                assert forall|k: int| tree1.len() <= k < t1.len() implies (#[trigger] t1[k]).0 >= old_l.len() && extends_by(
                    self.l_arena@[t1[k].0 as int],
                    parent_constraints@,
                    i,
                    moves,
                ) by {
                    let t = k - tree1.len();
                    assert(t1[tree1.len() + t] == t1[k]);
                    let cs = self.l_arena@[t1[k].0 as int].constraints@;
                    assert(cs == parent_constraints@.push((i, cands@[t])));
                    assert(cs.drop_last() =~= parent_constraints@);
                    assert(moves.contains(cands@[t]));
                }
                assert forall|u: usize| #[trigger] moves.contains(u) implies exists|k: int|
                    tree1.len() <= k < t1.len() && self.l_arena@[(#[trigger] t1[k]).0 as int].constraints@.last() == (i, u) by {
                    let t = choose|t: int| 0 <= t < cands@.len() && cands@[t] == u;
                    let k = tree1.len() + t;
                    assert(t1[k] == t1[tree1.len() + t]);
                    assert(self.l_arena@[t1[k].0 as int].constraints@ == parent_constraints@.push((i, cands@[t])));
                }
            }
            proof {
                // every next configuration allowed by the popped node is allowed by one of its
                // children
                let hs = self.h_arena@;
                let ls = self.l_arena@;
                let pl = old_l[l_id.0 as int];
                assert forall|cc: Seq<usize>|
                    successor(self.instance, old_h[x].config@, cc) && consistent(pl, cc) implies exists|k: int|
                        0 <= k < hs[x].search_tree@.len() && consistent(ls[(#[trigger] hs[x].search_tree@[k]).0 as int], cc) by {
                    assert(g.acts(current_v as int).contains(cc[i as int]));
                    assert(cands@.contains(cc[i as int]));
                    let t = choose|t: int| 0 <= t < cands@.len() && cands@[t] == cc[i as int];
                    let kk = tree1.len() + t;
                    let cl = ls[hs[x].search_tree@[kk].0 as int];
                    assert(cl.constraints@ == parent_constraints@.push((i, cands@[t])));
                    assert forall|q: int| 0 <= q < cl.constraints@.len() implies cc[(#[trigger] cl.constraints@[q]).0 as int]
                        == cl.constraints@[q].1 by {
                        if q < depth {
                            assert(cl.constraints@[q] == pl.constraints@[q]);
                        }
                    }
                    assert(consistent(cl, cc));
                }
            }
            proof {
                let r = (nn - (depth + 1)) as nat;
                assert(lsize((nn - depth) as nat) == 1 + 5 * lsize(r));
                assert(cands@.len() * lsize(r) <= 5 * lsize(r)) by (nonlinear_arith)
                    requires
                        cands@.len() <= 5,
                ;
            }
        } else {
            proof {
                assert(lsize((nn - depth) as nat) == 1);
                assert(self.h_arena@[x].search_tree@ =~= tree0.drop_first());
            }
        }
        proof {
            let hs = self.h_arena@;
            let ls = self.l_arena@;
            assert forall|y: int, k: int|
                0 <= y < old_h.len() && 0 <= k < old_h[y].search_tree@.len() implies (#[trigger] old_h[y].search_tree@[k]).0
                    < old_l.len() by {
                assert(old(self).node_ok(y));
            }
            lemma_arena_weight_extend(nn, old_l, ls, old_h);
            lemma_arena_weight_update(nn, ls, old_h, x, hs[x]);
            assert(hs =~= old_h.update(x, hs[x]));
            assert forall|t: int| 0 <= t < tree0.len() implies (#[trigger] tree0[t]).0 < old_l.len() by {}
            lemma_tree_weight_extend(nn, old_l, ls, tree0);
            assert forall|y: int| 0 <= y < hs.len() implies (#[trigger] hs[y]).config == old_h[y].config && hs[y].g == old_h[y].g by {}
            assert forall|y: int, z: int|
                0 <= y < old_h.len() && #[trigger] lists(old_h[y], z) implies lists(hs[y], z) by {
                let k = choose|k: int| 0 <= k < old_h[y].neighbors@.len() && (#[trigger] old_h[y].neighbors@[k]).0 == z;
                assert(hs[y].neighbors == old_h[y].neighbors);
                assert(hs[y].neighbors@[k].0 == z);
            }
            assert forall|y: int| 0 <= y < hs.len() implies #[trigger] node_ok_in(self.instance, hs, ls, y) by {
                if y != x {
                    LaCAM::lemma_node_ok_frame(old(self), self, y);
                    assert(self.node_ok(y));
                } else {
                    let nd = hs[x];
                    let od = old_h[x];
                    assert(old(self).node_ok(x));
                    if let Some(p) = nd.parent {
                        assert(hs[p.0 as int] == old_h[p.0 as int]);
                    }
                    assert forall|k: int|
                        0 <= k < nd.neighbors@.len() implies (#[trigger] nd.neighbors@[k]).0 < hs.len() && step_ok_in(
                            self.instance,
                            nd.config@,
                            hs[nd.neighbors@[k].0 as int].config@,
                        ) by {
                        assert(hs[nd.neighbors@[k].0 as int].config == old_h[nd.neighbors@[k].0 as int].config);
                    }
                    assert(self.node_ok(x));
                }
            }
            assert(self.configs() =~= old(self).configs()) by {
                assert forall|y: int| 0 <= y < hs.len() implies #[trigger] self.configs()[y] == old(self).configs()[y] by {}
            }
            assert forall|y: int, z: int| 0 <= y < z < hs.len() implies #[trigger] hs[y].config@ != #[trigger] hs[z].config@ by {
                assert(old_h[y].config@ != old_h[z].config@);
            }
            assert forall|y: int| 0 <= y < hs.len() implies #[trigger] exact_at(self.instance, hs, y) by {
                assert(exact_at(self.instance, old_h, y));
                if let Some(p) = hs[y].parent {
                    assert(old(self).node_ok(y));
                }
            }
            assert forall|y: int| 0 <= y < hs.len() implies #[trigger] relaxed_at(self.instance, hs, y) by {
                assert(relaxed_at(self.instance, old_h, y));
                assert(old(self).node_ok(y));
                assert forall|j: int| 0 <= j < hs[y].neighbors@.len() implies hs[(#[trigger] hs[y].neighbors@[j]).0 as int].g
                    <= hs[y].g + edge_cost(
                    self.instance.goals@,
                    hs[y].config@,
                    hs[hs[y].neighbors@[j].0 as int].config@,
                ) by {
                    assert(hs[y].neighbors == old_h[y].neighbors);
                    assert(old_h[old_h[y].neighbors@[j].0 as int].g <= old_h[y].g + edge_cost(
                        self.instance.goals@,
                        old_h[y].config@,
                        old_h[old_h[y].neighbors@[j].0 as int].config@,
                    ));
                }
            }
            assert(self.inv());
            // what the old low-level nodes allowed, the new ones allow, but for a full set of
            // constraints, which goes back to the caller
            assert(hs[x].search_tree@.len() >= tree1.len());
            assert(forall|t: int| 0 <= t < tree1.len() ==> #[trigger] hs[x].search_tree@[t] == tree1[t]);
            assert forall|cc: Seq<usize>|
                successor(self.instance, old_h[x].config@, cc) && #[trigger] covered(old_h, old_l, x, cc) implies covered(
                    hs,
                    ls,
                    x,
                    cc,
                ) || (ls[l_id.0 as int].constraints@.len() == nn && consistent(ls[l_id.0 as int], cc)) by {
                if reached(old_h, x, cc) {
                    let k = choose|k: int|
                        0 <= k < old_h[x].neighbors@.len() && old_h[(#[trigger] old_h[x].neighbors@[k]).0 as int].config@ == cc;
                    assert(hs[x].neighbors == old_h[x].neighbors);
                    assert(old(self).node_ok(x));
                    assert(hs[hs[x].neighbors@[k].0 as int].config == old_h[old_h[x].neighbors@[k].0 as int].config);
                } else {
                    let k = choose|k: int|
                        0 <= k < tree0.len() && consistent(old_l[(#[trigger] tree0[k]).0 as int], cc);
                    if k > 0 {
                        assert(hs[x].search_tree@[k - 1] == tree0[k]);
                        assert(ls[tree0[k].0 as int] == old_l[tree0[k].0 as int]);
                    } else {
                        assert(ls[l_id.0 as int] == old_l[l_id.0 as int]);
                        if depth < n {
                            let kk = choose|kk: int|
                                0 <= kk < hs[x].search_tree@.len() && consistent(ls[(#[trigger] hs[x].search_tree@[kk]).0 as int], cc);
                        }
                    }
                }
            }
        }
        Some(l_id)
    }
}


impl<'a> LaCAM<'a> {
    /// Lowering the cost of node `x` to the cost through its neighbour `p` keeps the structure
    /// of the search, and lowers the sum of the costs.
    proof fn lemma_relax(a: &Self, b: &Self, pid: HNodeId, xid: HNodeId)
        requires
            a.inv_core(),
            b.instance == a.instance,
            b.dist_table == a.dist_table,
            b.pibt == a.pibt,
            b.l_arena == a.l_arena,
            b.explored == a.explored,
            b.open == a.open,
            b.h_goal == a.h_goal,
            pid.0 < a.h_arena@.len(),
            xid.0 < a.h_arena@.len(),
            a.h_arena@[pid.0 as int].neighbors@.contains(xid),
            b.h_arena@.len() == a.h_arena@.len(),
            forall|y: int| 0 <= y < a.h_arena@.len() && y != xid.0 ==> #[trigger] b.h_arena@[y] == a.h_arena@[y],
            costs_only(a.h_arena@[xid.0 as int], b.h_arena@[xid.0 as int]),
            b.h_arena@[xid.0 as int].parent == Some(pid),
            b.h_arena@[xid.0 as int].g == a.h_arena@[pid.0 as int].g + edge_cost(
                a.instance.goals@,
                a.h_arena@[pid.0 as int].config@,
                a.h_arena@[xid.0 as int].config@,
            ),
            b.h_arena@[xid.0 as int].g < a.h_arena@[xid.0 as int].g,
            b.h_arena@[xid.0 as int].f == total(b.h_arena@[xid.0 as int].g, b.h_arena@[xid.0 as int].h),
        ensures
            b.inv_core(),
            g_sum(b.h_arena@) < g_sum(a.h_arena@),
    {
        let p = pid.0 as int;
        let x = xid.0 as int;
        let ha = a.h_arena@;
        let hb = b.h_arena@;
        let nn = a.n();
        assert(a.node_ok(p));
        assert(a.node_ok(x));
        // `x` is not `p`: the cost through `p` is at least the cost of `p`
        assert(x != p);
        assert(ha[p].config@ != ha[x].config@) by {
            if p < x {
                assert(ha[p].config@ != ha[x].config@);
            } else {
                assert(ha[x].config@ != ha[p].config@);
            }
        }
        let cp = ha[p].config@;
        let cx = ha[x].config@;
        assert(exists|i: int| 0 <= i < nn && cp[i] != cx[i]) by {
            if forall|i: int| 0 <= i < nn ==> cp[i] == cx[i] {
                assert(cp =~= cx);
            }
        }
        lemma_edge_cost_bounds(a.instance.goals@, cp, cx, nn as int);
        // the root keeps cost 0, so `x` is not the root
        if x == 0 {
            assert(ha[x].g <= x * nn);
            assert(x * nn == 0) by (nonlinear_arith)
                requires
                    x == 0,
            ;
        }
        assert(x != 0);
        let k = choose|k: int| 0 <= k < ha[p].neighbors@.len() && ha[p].neighbors@[k] == xid;
        assert(step_ok_in(a.instance, cp, ha[ha[p].neighbors@[k].0 as int].config@));
        assert(hb =~= ha.update(x, hb[x]));
        lemma_g_sum_update(ha, x, hb[x]);
        assert forall|y: int| 0 <= y < ha.len() implies (#[trigger] hb[y]).config == ha[y].config && hb[y].g
            <= ha[y].g by {}
        assert forall|y: int, z: int| 0 <= y < ha.len() && #[trigger] lists(ha[y], z) implies lists(hb[y], z) by {
            let q = choose|q: int| 0 <= q < ha[y].neighbors@.len() && (#[trigger] ha[y].neighbors@[q]).0 == z;
            assert(hb[y].neighbors == ha[y].neighbors);
            assert(hb[y].neighbors@[q].0 == z);
        }
        assert(lists(ha[p], x)) by {
            assert(ha[p].neighbors@[k].0 == x);
        }
        assert forall|y: int| 0 <= y < hb.len() implies #[trigger] node_ok_in(b.instance, hb, b.l_arena@, y) by {
            if y != x {
                assert(a.node_ok(y));
                LaCAM::lemma_node_ok_frame(a, b, y);
                assert(b.node_ok(y));
            } else {
                let nd = hb[x];
                let od = ha[x];
                assert(hb[p].config == ha[p].config);
                assert forall|q: int|
                    0 <= q < nd.neighbors@.len() implies (#[trigger] nd.neighbors@[q]).0 < hb.len() && step_ok_in(
                        b.instance,
                        nd.config@,
                        hb[nd.neighbors@[q].0 as int].config@,
                    ) by {
                    assert(hb[nd.neighbors@[q].0 as int].config == ha[nd.neighbors@[q].0 as int].config);
                }
                assert(nd.g <= x * nn);
                assert forall|q: int|
                    0 <= q < nd.search_tree@.len() implies (#[trigger] nd.search_tree@[q]).0 < b.l_arena@.len()
                        && b.lnode_ok(b.l_arena@[nd.search_tree@[q].0 as int], nd) by {
                    assert(od.search_tree@[q] == nd.search_tree@[q]);
                    assert(a.lnode_ok(a.l_arena@[od.search_tree@[q].0 as int], od));
                }
                assert(hb[p] == ha[p]);
                assert(b.node_ok(x));
            }
        }
        assert(b.configs() =~= a.configs()) by {
            assert forall|y: int| 0 <= y < hb.len() implies #[trigger] b.configs()[y] == a.configs()[y] by {}
        }
        assert forall|y: int, z: int| 0 <= y < z < hb.len() implies #[trigger] hb[y].config@ != #[trigger] hb[z].config@ by {
            assert(ha[y].config@ != ha[z].config@);
        }
        assert(hb[0].config == ha[0].config);
        if let Some(id) = b.h_goal {
            assert(hb[id.0 as int].config == ha[id.0 as int].config);
        }
    }

    /// Records that `to_id` is one step from `from_id`, then lowers the cost of every node now
    /// reached more cheaply through a neighbour, taking it as its parent; the nodes so lowered
    /// below the goal's total go to the front of `open`.
    fn rewrite(&mut self, from_id: HNodeId, to_id: HNodeId)
        requires
            old(self).inv(),
            from_id.0 < old(self).h_arena@.len(),
            to_id.0 < old(self).h_arena@.len(),
            old(self).step_ok(
                old(self).h_arena@[from_id.0 as int].config@,
                old(self).h_arena@[to_id.0 as int].config@,
            ),
        ensures
            final(self).inv(),
            final(self).instance == old(self).instance,
            final(self).h_goal == old(self).h_goal,
            final(self).loop_cnt == old(self).loop_cnt,
            final(self).flg_star == old(self).flg_star,
            final(self).l_arena == old(self).l_arena,
            final(self).h_arena@.len() == old(self).h_arena@.len(),
            forall|x: int|
                0 <= x < old(self).h_arena@.len() ==> (#[trigger] final(self).h_arena@[x]).config == old(
                    self,
                ).h_arena@[x].config && final(self).h_arena@[x].search_tree == old(self).h_arena@[x].search_tree
                    && final(self).h_arena@[x].g <= old(self).h_arena@[x].g,
            final(self).h_arena@[from_id.0 as int].neighbors@.contains(to_id),
            final(self).measure() == old(self).measure(),
            forall|y: int| in_open(old(self).open@, y) ==> #[trigger] in_open(final(self).open@, y),
            forall|y: int, z: int|
                0 <= y < old(self).h_arena@.len() && #[trigger] lists(old(self).h_arena@[y], z) ==> lists(
                    final(self).h_arena@[y],
                    z,
                ),
            old(self).h_goal matches Some(gid) ==> forall|y: int|
                0 <= y < old(self).h_arena@.len() ==> #[trigger] in_open(final(self).open@, y)
                    || final(self).h_arena@[y].g == old(self).h_arena@[y].g
                    || final(self).h_arena@[y].f >= final(self).h_arena@[gid.0 as int].f,
    {
        let ghost old_h = self.h_arena@;
        proof {
            assert(self.node_ok(from_id.0 as int));
        }
        {
            let node = self.h_arena.get_mut(from_id);
            insert_sorted(&mut node.neighbors, to_id);
        }
        let ghost base = self.h_arena@;
        proof {
            let x = from_id.0 as int;
            assert(base =~= old_h.update(x, base[x]));
            assert forall|y: int| 0 <= y < old_h.len() implies (#[trigger] base[y]).config == old_h[y].config
                && base[y].g <= old_h[y].g by {}
            assert forall|y: int, z: int|
                0 <= y < old_h.len() && #[trigger] lists(old_h[y], z) implies lists(base[y], z) by {
                let q = choose|q: int| 0 <= q < old_h[y].neighbors@.len() && (#[trigger] old_h[y].neighbors@[q]).0 == z;
                if y == x {
                    assert(old_h[y].neighbors@.contains(old_h[y].neighbors@[q]));
                    assert(base[y].neighbors@.contains(old_h[y].neighbors@[q]));
                    let q2 = choose|q2: int| 0 <= q2 < base[y].neighbors@.len() && base[y].neighbors@[q2] == old_h[y].neighbors@[q];
                    assert(base[y].neighbors@[q2].0 == z);
                } else {
                    assert(base[y] == old_h[y]);
                    assert(base[y].neighbors@[q].0 == z);
                }
            }
            assert forall|y: int| 0 <= y < base.len() implies #[trigger] node_ok_in(self.instance, base, self.l_arena@, y) by {
                if y != x {
                    LaCAM::lemma_node_ok_frame(old(self), self, y);
                    assert(self.node_ok(y));
                } else {
                    let nd = base[x];
                    let od = old_h[x];
                    assert(old(self).node_ok(x));
                    if let Some(p) = nd.parent {
                        assert(base[p.0 as int] == old_h[p.0 as int]);
                    }
                    assert forall|q: int|
                        0 <= q < nd.neighbors@.len() implies (#[trigger] nd.neighbors@[q]).0 < base.len() && step_ok_in(
                            self.instance,
                            nd.config@,
                            base[nd.neighbors@[q].0 as int].config@,
                        ) by {
                        assert(nd.neighbors@.contains(nd.neighbors@[q]));
                        if nd.neighbors@[q] != to_id {
                            assert(od.neighbors@.contains(nd.neighbors@[q]));
                            let qq = choose|qq: int| 0 <= qq < od.neighbors@.len() && od.neighbors@[qq] == nd.neighbors@[q];
                            assert(base[od.neighbors@[qq].0 as int].config == old_h[od.neighbors@[qq].0 as int].config);
                        }
                    }
                    assert forall|q: int|
                        0 <= q < nd.search_tree@.len() implies (#[trigger] nd.search_tree@[q]).0 < self.l_arena@.len()
                            && self.lnode_ok(self.l_arena@[nd.search_tree@[q].0 as int], nd) by {}
                    assert(self.node_ok(x));
                }
            }
            assert(self.configs() =~= old(self).configs()) by {
                assert forall|y: int| 0 <= y < base.len() implies #[trigger] self.configs()[y] == old(self).configs()[y] by {}
            }
            assert forall|y: int, z: int| 0 <= y < z < base.len() implies #[trigger] base[y].config@ != #[trigger] base[z].config@ by {
                assert(old_h[y].config@ != old_h[z].config@);
            }
            assert(base[0].config == old_h[0].config);
            if let Some(id) = self.h_goal {
                assert(base[id.0 as int].config == old_h[id.0 as int].config);
            }
            assert(self.inv_core());
            assert forall|y: int| 0 <= y < base.len() implies costs_only(base[y], #[trigger] base[y]) by {}
            assert forall|y: int| 0 <= y < base.len() implies #[trigger] exact_at(self.instance, base, y) by {
                assert(exact_at(self.instance, old_h, y));
                if let Some(p) = base[y].parent {
                    assert(old(self).node_ok(y));
                    assert(base[p.0 as int].g == old_h[p.0 as int].g);
                }
            }
            assert forall|y: int| 0 <= y < base.len() && y != x implies #[trigger] relaxed_at(self.instance, base, y) by {
                assert(relaxed_at(self.instance, old_h, y));
                assert(base[y] == old_h[y]);
                assert(old(self).node_ok(y));
                assert forall|j: int| 0 <= j < base[y].neighbors@.len() implies base[(#[trigger] base[y].neighbors@[j]).0 as int].g
                    <= base[y].g + edge_cost(
                    self.instance.goals@,
                    base[y].config@,
                    base[base[y].neighbors@[j].0 as int].config@,
                ) by {
                    assert(old_h[old_h[y].neighbors@[j].0 as int].g <= old_h[y].g + edge_cost(
                        self.instance.goals@,
                        old_h[y].config@,
                        old_h[old_h[y].neighbors@[j].0 as int].config@,
                    ));
                }
            }
        }
        let mut queue: VecDeque<HNodeId> = VecDeque::new();
        queue.push_back(from_id);
        proof {
            assert(queue@[0] == from_id);
            assert(in_open(queue@, from_id.0 as int));
        }
        while queue.len() > 0
            invariant
                self.inv_core(),
                forall|y: int|
                    0 <= y < self.h_arena@.len() ==> #[trigger] exact_at(self.instance, self.h_arena@, y) || pending(
                        self.h_arena@[y],
                        queue@,
                    ),
                forall|y: int|
                    0 <= y < self.h_arena@.len() ==> #[trigger] relaxed_at(self.instance, self.h_arena@, y) || in_open(
                        queue@,
                        y,
                    ),
                self.instance == old(self).instance,
                self.h_goal == old(self).h_goal,
                self.loop_cnt == old(self).loop_cnt,
                self.flg_star == old(self).flg_star,
                self.l_arena == old(self).l_arena,
                self.dist_table == old(self).dist_table,
                self.pibt == old(self).pibt,
                self.explored == old(self).explored,
                self.deadline == old(self).deadline,
                forall|y: int| in_open(old(self).open@, y) ==> #[trigger] in_open(self.open@, y),
                old(self).h_goal matches Some(gid) ==> forall|y: int|
                    0 <= y < old_h.len() ==> #[trigger] in_open(self.open@, y) || self.h_arena@[y].g == old_h[y].g
                        || self.h_arena@[y].f >= self.h_arena@[gid.0 as int].f,
                base.len() == old_h.len(),
                self.h_arena@.len() == base.len(),
                forall|y: int| 0 <= y < base.len() ==> costs_only(base[y], #[trigger] self.h_arena@[y]),
                forall|y: int| 0 <= y < old_h.len() ==> (#[trigger] base[y]).config == old_h[y].config
                    && base[y].search_tree == old_h[y].search_tree && base[y].g <= old_h[y].g,
                from_id.0 < base.len(),
                base[from_id.0 as int].neighbors@.contains(to_id),
                forall|q: int| 0 <= q < queue@.len() ==> (#[trigger] queue@[q]).0 < base.len(),
            decreases g_sum(self.h_arena@), queue@.len(),
        {
            let ghost old_q = queue@;
            let n_from = queue.pop_front().unwrap();
            let ghost g0 = g_sum(self.h_arena@);
            let ghost q0 = queue@.len();
            let ghost xf = n_from.0 as int;
            proof {
                assert(self.node_ok(xf));
            }
            let from_g = self.h_arena.get(n_from).g;
            let from_config = self.h_arena.get(n_from).config.clone();
            let nbrs = copy_ids(&self.h_arena.get(n_from).neighbors);
            proof {
                // the children of the node just taken from the queue wait for its visit
                let hs = self.h_arena@;
                assert(old_q[0] == n_from);
                assert forall|y: int| 0 <= y < hs.len() implies #[trigger] exact_at(self.instance, hs, y) || pending(
                    hs[y],
                    queue@,
                ) || waiting(hs[y], y, n_from, nbrs@, 0) by {
                    if !exact_at(self.instance, hs, y) && !pending(hs[y], queue@) {
                        assert(pending(hs[y], old_q));
                        let p = hs[y].parent->0;
                        let i = choose|i: int| 0 <= i < old_q.len() && old_q[i] == p;
                        if i > 0 {
                            assert(queue@[i - 1] == p);
                        }
                        assert(p == n_from);
                        assert(self.node_ok(y));
                        assert(lists(hs[xf], y));
                        let j = choose|j: int| 0 <= j < hs[xf].neighbors@.len() && (#[trigger] hs[xf].neighbors@[j]).0 == y;
                        assert(nbrs@[j].0 == y);
                    }
                }
                assert forall|y: int| 0 <= y < hs.len() implies #[trigger] relaxed_at(self.instance, hs, y) || in_open(
                    queue@,
                    y,
                ) || (y == xf && relaxed_upto(self.instance, hs, y, 0)) by {
                    if !relaxed_at(self.instance, hs, y) && in_open(old_q, y) {
                        let i = choose|i: int| 0 <= i < old_q.len() && (#[trigger] old_q[i]).0 == y;
                        if i > 0 {
                            assert(queue@[i - 1] == old_q[i]);
                        }
                    }
                }
            }
            let mut k: usize = 0;
            while k < nbrs.len()
                invariant
                    self.inv_core(),
                    forall|y: int|
                        0 <= y < self.h_arena@.len() ==> #[trigger] exact_at(self.instance, self.h_arena@, y) || pending(
                            self.h_arena@[y],
                            queue@,
                        ) || waiting(self.h_arena@[y], y, n_from, nbrs@, k as int),
                    forall|y: int|
                        0 <= y < self.h_arena@.len() ==> #[trigger] relaxed_at(self.instance, self.h_arena@, y) || in_open(
                            queue@,
                            y,
                        ) || (y == xf && relaxed_upto(self.instance, self.h_arena@, y, k as int)),
                    self.instance == old(self).instance,
                    self.h_goal == old(self).h_goal,
                    self.loop_cnt == old(self).loop_cnt,
                    self.flg_star == old(self).flg_star,
                    self.l_arena == old(self).l_arena,
                    self.dist_table == old(self).dist_table,
                    self.pibt == old(self).pibt,
                    self.explored == old(self).explored,
                    self.deadline == old(self).deadline,
                    forall|y: int| in_open(old(self).open@, y) ==> #[trigger] in_open(self.open@, y),
                    old(self).h_goal matches Some(gid) ==> forall|y: int|
                        0 <= y < old_h.len() ==> #[trigger] in_open(self.open@, y) || self.h_arena@[y].g == old_h[y].g
                            || self.h_arena@[y].f >= self.h_arena@[gid.0 as int].f,
                    base.len() == old_h.len(),
                    self.h_arena@.len() == base.len(),
                    forall|y: int| 0 <= y < base.len() ==> costs_only(base[y], #[trigger] self.h_arena@[y]),
                    forall|q: int| 0 <= q < queue@.len() ==> (#[trigger] queue@[q]).0 < base.len(),
                    0 <= xf < base.len(),
                    xf == n_from.0,
                    nbrs@ == self.h_arena@[xf].neighbors@,
                    from_g == self.h_arena@[xf].g,
                    from_config@ == self.h_arena@[xf].config@,
                    g_sum(self.h_arena@) < g0 || (g_sum(self.h_arena@) == g0 && queue@.len() == q0),
                    0 <= k <= nbrs@.len(),
                decreases nbrs@.len() - k,
            {
                let n_to = nbrs[k];
                let total = self.h_arena.len();
                proof {
                    assert(self.node_ok(xf));
                    assert(n_to.0 < base.len());
                    assert(self.node_ok(n_to.0 as int));
                    assert(from_g <= xf * self.n());
                }
                let cost = self.get_edge_cost(&from_config, &self.h_arena.get(n_to).config);
                proof {
                    assert(from_g + cost <= (xf + 1) * self.n()) by (nonlinear_arith)
                        requires
                            from_g <= xf * self.n(),
                            cost <= self.n(),
                    ;
                    assert(xf + 1 <= total);
                    assert((xf + 1) * self.n() <= 0xFFFF_FFFF_FFFF_FFFF * 0xFFFF_FFFF_FFFF_FFFF) by (nonlinear_arith)
                        requires
                            xf + 1 <= 0xFFFF_FFFF_FFFF_FFFF,
                            self.n() <= 0xFFFF_FFFF_FFFF_FFFF,
                    ;
                }
                let new_g = from_g + cost;
                let ghost h0 = self.h_arena@;
                let ghost qk = queue@;
                proof {
                    // the neighbours are listed once each
                    assert forall|j: int| 0 <= j < nbrs@.len() && (#[trigger] nbrs@[j]).0 == n_to.0 implies j == k by {
                        if j < k {
                            assert(nbrs@[j].0 < nbrs@[k as int].0);
                        } else if j > k {
                            assert(nbrs@[k as int].0 < nbrs@[j].0);
                        }
                    }
                }
                if new_g < self.h_arena.get(n_to).g {
                    let ghost pre = *self;
                    let to_h = self.h_arena.get(n_to).h;
                    {
                        let node = self.h_arena.get_mut(n_to);
                        node.g = new_g;
                        node.f = new_g.saturating_add(to_h);
                        node.parent = Some(n_from);
                    }
                    proof {
                        assert(pre.h_arena@[xf].neighbors@[k as int] == n_to);
                        LaCAM::lemma_relax(&pre, self, n_from, n_to);
                        assert forall|y: int| 0 <= y < base.len() implies costs_only(base[y], #[trigger] self.h_arena@[y]) by {
                            assert(costs_only(base[y], pre.h_arena@[y]));
                        }
                        assert(n_to.0 != xf);
                    }
                    queue.push_back(n_to);
                    let ghost open_pre = self.open@;
                    if let Some(goal_id) = self.h_goal {
                        if self.h_arena.get(n_to).f < self.h_arena.get(goal_id).f {
                            let ghost open_before = self.open@;
                            self.open.push_front(n_to);
                            proof {
                                assert forall|y: int| in_open(open_before, y) implies #[trigger] in_open(self.open@, y) by {
                                    let q = choose|q: int| 0 <= q < open_before.len() && (#[trigger] open_before[q]).0 == y;
                                    assert(self.open@[q + 1] == open_before[q]);
                                }
                                assert(self.open@[0] == n_to);
                                assert(in_open(self.open@, n_to.0 as int));
                            }
                        }
                    }
                    proof {
                        // a node made cheaper is queued again unless it still costs no less than the goal
                        if let Some(gid) = old(self).h_goal {
                            assert(pre.node_ok(n_to.0 as int));
                            assert forall|y: int| 0 <= y < old_h.len() implies #[trigger] in_open(self.open@, y)
                                || self.h_arena@[y].g == old_h[y].g || self.h_arena@[y].f >= self.h_arena@[gid.0 as int].f by {
                                if y != n_to.0 && in_open(pre.open@, y) {
                                    assert(in_open(open_pre, y));
                                }
                            }
                        }
                    }
                    proof {
                        // `n_to` now costs its parent's plus the step; its children wait in the queue
                        let hs = self.h_arena@;
                        assert(queue@ == qk.push(n_to));
                        assert forall|y: int| 0 <= y < hs.len() implies #[trigger] exact_at(self.instance, hs, y)
                            || pending(hs[y], queue@) || waiting(hs[y], y, n_from, nbrs@, k + 1) by {
                            if y == n_to.0 {
                                assert(hs[xf] == h0[xf]);
                                assert(exact_at(self.instance, hs, y));
                            } else {
                                assert(hs[y] == h0[y]);
                                if hs[y].parent == Some(n_to) {
                                    assert(queue@[queue@.len() - 1] == n_to);
                                    assert(pending(hs[y], queue@));
                                } else if exact_at(self.instance, h0, y) {
                                    if let Some(p) = hs[y].parent {
                                        assert(self.node_ok(y));
                                        assert(p.0 < hs.len());
                                        assert(p != n_to);
                                        assert(p.0 != n_to.0);
                                        assert(hs[p.0 as int] == h0[p.0 as int]);
                                    }
                                } else if pending(h0[y], qk) {
                                    let p = hs[y].parent->0;
                                    let i = choose|i: int| 0 <= i < qk.len() && qk[i] == p;
                                    assert(queue@[i] == p);
                                } else {
                                    assert(waiting(h0[y], y, n_from, nbrs@, k as int));
                                }
                            }
                        }
                        // edges into `n_to` only got cheaper; edges out of it wait in the queue
                        assert(self.node_ok(xf));
                        assert forall|y: int| 0 <= y < hs.len() implies #[trigger] relaxed_at(self.instance, hs, y)
                            || in_open(queue@, y) || (y == xf && relaxed_upto(self.instance, hs, y, k + 1)) by {
                            if y == n_to.0 {
                                assert(queue@[queue@.len() - 1] == n_to);
                            } else {
                                assert(hs[y] == h0[y]);
                                assert(h0[y].neighbors == base[y].neighbors);
                                if in_open(qk, y) {
                                    let i = choose|i: int| 0 <= i < qk.len() && (#[trigger] qk[i]).0 == y;
                                    assert(queue@[i] == qk[i]);
                                } else {
                                    assert(self.node_ok(y));
                                    assert(relaxed_at(self.instance, h0, y) || (y == xf && relaxed_upto(
                                        self.instance,
                                        h0,
                                        y,
                                        k as int,
                                    )));
                                    let lim = if y == xf && !relaxed_at(self.instance, h0, y) {
                                        k as int
                                    } else {
                                        hs[y].neighbors@.len() as int
                                    };
                                    assert(relaxed_upto(self.instance, h0, y, lim));
                                    assert forall|j: int| 0 <= j < lim implies hs[(#[trigger] hs[y].neighbors@[j]).0 as int].g
                                        <= hs[y].g + edge_cost(
                                        self.instance.goals@,
                                        hs[y].config@,
                                        hs[hs[y].neighbors@[j].0 as int].config@,
                                    ) by {
                                        let z = hs[y].neighbors@[j].0 as int;
                                        assert(h0[h0[y].neighbors@[j].0 as int].g <= h0[y].g + edge_cost(
                                            self.instance.goals@,
                                            h0[y].config@,
                                            h0[h0[y].neighbors@[j].0 as int].config@,
                                        ));
                                        assert(hs[z].g <= h0[z].g);
                                        assert(hs[z].config == h0[z].config);
                                    }
                                    if y == xf {
                                        assert(hs[y].neighbors@[k as int] == n_to);
                                        assert forall|j: int| 0 <= j < k + 1 implies hs[(#[trigger] hs[y].neighbors@[j]).0 as int].g
                                            <= hs[y].g + edge_cost(
                                            self.instance.goals@,
                                            hs[y].config@,
                                            hs[hs[y].neighbors@[j].0 as int].config@,
                                        ) by {
                                            if j < k {
                                                assert(j < lim);
                                            }
                                        }
                                    }
                                }
                            }
                        }
                    }
                } else {
                    proof {
                        // a child of `n_from` that is not lowered already costs as much as through it
                        let hs = self.h_arena@;
                        assert forall|y: int| 0 <= y < hs.len() implies #[trigger] exact_at(self.instance, hs, y)
                            || pending(hs[y], queue@) || waiting(hs[y], y, n_from, nbrs@, k + 1) by {
                            if y == n_to.0 && hs[y].parent == Some(n_from) {
                                assert(self.node_ok(y));
                            } else if y != n_to.0 && waiting(hs[y], y, n_from, nbrs@, k as int) {
                                let j = choose|j: int| k <= j < nbrs@.len() && (#[trigger] nbrs@[j]).0 == y;
                                assert(j != k);
                            }
                        }
                        // `n_to` already costs no more than through `n_from`
                        assert forall|y: int| 0 <= y < hs.len() implies #[trigger] relaxed_at(self.instance, hs, y)
                            || in_open(queue@, y) || (y == xf && relaxed_upto(self.instance, hs, y, k + 1)) by {
                            if y == xf && !relaxed_at(self.instance, hs, y) && !in_open(queue@, y) {
                                assert(hs[y].neighbors@[k as int] == n_to);
                                assert forall|j: int| 0 <= j < k + 1 implies hs[(#[trigger] hs[y].neighbors@[j]).0 as int].g
                                    <= hs[y].g + edge_cost(
                                    self.instance.goals@,
                                    hs[y].config@,
                                    hs[hs[y].neighbors@[j].0 as int].config@,
                                ) by {
                                    if j < k {
                                        assert(relaxed_upto(self.instance, hs, y, k as int));
                                    }
                                }
                            }
                        }
                    }
                }
                k += 1;
            }
        }
        proof {
            let hs = self.h_arena@;
            lemma_arena_weight_same_trees(self.n(), self.l_arena@, hs, old_h);
            assert forall|x: int| 0 <= x < old_h.len() implies (#[trigger] hs[x]).config == old_h[x].config
                && hs[x].search_tree == old_h[x].search_tree && hs[x].g <= old_h[x].g by {
                assert(costs_only(base[x], hs[x]));
            }
            assert(costs_only(base[from_id.0 as int], hs[from_id.0 as int]));
        }
    }
}

/// The parent of `node` waits in `queue` to pass on a lower cost.
pub open spec fn pending(node: HNode, queue: Seq<HNodeId>) -> bool {
    node.parent matches Some(p) && queue.contains(p)
}

/// Node `y` is a child of `p` that `p` has yet to visit: it comes at or after position `k` of
/// the neighbours `nbrs` of `p`.
pub open spec fn waiting(node: HNode, y: int, p: HNodeId, nbrs: Seq<HNodeId>, k: int) -> bool {
    node.parent == Some(p) && exists|j: int| k <= j < nbrs.len() && (#[trigger] nbrs[j]).0 == y
}

/// A copy of a list of node numbers.
fn copy_ids(v: &Vec<HNodeId>) -> (r: Vec<HNodeId>)
    ensures
        r@ == v@,
{
    let mut r: Vec<HNodeId> = Vec::new();
    let mut i: usize = 0;
    while i < v.len()
        invariant
            0 <= i <= v@.len(),
            r@ == v@.subrange(0, i as int),
        decreases v@.len() - i,
    {
        r.push(v[i]);
        proof {
            assert(r@ =~= v@.subrange(0, i + 1));
        }
        i += 1;
    }
    assert(r@ =~= v@);
    r
}


/// The configurations from node `x` of `hs` back along the parents to the first node.
pub open spec fn back_chain(hs: Seq<HNode>, x: int) -> Seq<Seq<usize>>
    decreases hs[x].g,
{
    match hs[x].parent {
        Some(p) => if hs[p.0 as int].g < hs[x].g {
            seq![hs[x].config@] + back_chain(hs, p.0 as int)
        } else {
            seq![hs[x].config@]
        },
        None => seq![hs[x].config@],
    }
}

/// The views of a list of configurations.
pub open spec fn views(r: Seq<Config>) -> Seq<Seq<usize>> {
    r.map_values(|c: Config| c@)
}

/// The cost of the steps of a path listed backwards: from `r[k + 1]` to `r[k]`, for the first
/// `m` entries.
pub open spec fn rev_loss(goals: Seq<usize>, r: Seq<Seq<usize>>, m: int) -> nat
    decreases m,
{
    if m <= 1 {
        0
    } else {
        rev_loss(goals, r, m - 1) + edge_cost(goals, r[m - 1], r[m - 2])
    }
}

/// The cost of a prefix depends only on the prefix.
proof fn lemma_rev_loss_prefix(goals: Seq<usize>, a: Seq<Seq<usize>>, b: Seq<Seq<usize>>, m: int)
    requires
        0 <= m <= a.len(),
        m <= b.len(),
        forall|i: int| 0 <= i < m ==> #[trigger] a[i] == b[i],
    ensures
        rev_loss(goals, a, m) == rev_loss(goals, b, m),
    decreases m,
{
    if m > 1 {
        lemma_rev_loss_prefix(goals, a, b, m - 1);
        assert(a[m - 1] == b[m - 1] && a[m - 2] == b[m - 2]);
    }
}

/// A path read forwards costs what it costs read backwards: the steps of `p` up to time `t`
/// are the last steps of its reversal `r`.
proof fn lemma_loss_reversed(goals: Seq<usize>, p: Seq<Seq<usize>>, r: Seq<Seq<usize>>, len: int, t: int)
    requires
        p.len() == len,
        r.len() == len,
        1 <= t <= len,
        forall|i: int| 0 <= i < len ==> #[trigger] p[i] == r[len - 1 - i],
    ensures
        loss_upto(p, goals, t) + rev_loss(goals, r, len - t + 1) == rev_loss(goals, r, len),
    decreases t,
{
    if t > 1 {
        lemma_loss_reversed(goals, p, r, len, t - 1);
        assert(p[t - 2] == r[len - t + 1]);
        assert(p[t - 1] == r[len - t]);
    }
}

impl<'a> LaCAM<'a> {
    /// The configurations from the start to node `h_id`, following the parents back.
    fn backtrack(&self, h_id: HNodeId) -> (plan: Solution)
        requires
            self.inv(),
            h_id.0 < self.h_arena@.len(),
        ensures
            plan@.len() >= 1,
            plan@[0]@ == self.instance.starts@,
            plan@.last()@ == self.h_arena@[h_id.0 as int].config@,
            forall|t: int| 0 <= t < plan@.len() ==> self.positions_ok(#[trigger] plan@[t]@),
            forall|t: int| 0 <= t < plan@.len() - 1 ==> self.step_ok(#[trigger] plan@[t]@, plan@[t + 1]@),
            loss_upto(plan_view(plan@), self.instance.goals@, plan@.len() as int) == self.h_arena@[h_id.0 as int].g,
            plan_view(plan@) == back_chain(self.h_arena@, h_id.0 as int).reverse(),
    {
        let ghost hs = self.h_arena@;
        let ghost goals = self.instance.goals@;
        let ghost mut last: int = h_id.0 as int;
        // the configurations from `h_id` back to the start
        let mut rev: Vec<Config> = Vec::new();
        let mut current: Option<HNodeId> = Some(h_id);
        while current.is_some()
            invariant
                self.inv(),
                hs == self.h_arena@,
                h_id.0 < hs.len(),
                current matches Some(c) ==> c.0 < hs.len(),
                rev@.len() == 0 ==> current == Some(h_id),
                rev@.len() > 0 ==> rev@[0]@ == hs[h_id.0 as int].config@,
                rev@.len() > 0 ==> match current {
                    Some(c) => self.step_ok(hs[c.0 as int].config@, rev@.last()@),
                    None => rev@.last()@ == self.instance.starts@,
                },
                forall|t: int| 0 <= t < rev@.len() ==> self.positions_ok(#[trigger] rev@[t]@),
                forall|t: int| 0 <= t < rev@.len() - 1 ==> self.step_ok(#[trigger] rev@[t + 1]@, rev@[t]@),
                goals == self.instance.goals@,
                rev@.len() > 0 ==> {
                    &&& 0 <= last < hs.len()
                    &&& current == hs[last].parent
                    &&& rev@.last()@ == hs[last].config@
                    &&& hs[h_id.0 as int].g == hs[last].g + rev_loss(goals, views(rev@), rev@.len() as int)
                },
                match current {
                    Some(c) => views(rev@) + back_chain(hs, c.0 as int) == back_chain(hs, h_id.0 as int),
                    None => views(rev@) == back_chain(hs, h_id.0 as int),
                },
            decreases match current {
                Some(c) => hs[c.0 as int].g + 1,
                None => 0,
            },
        {
            let id = current.unwrap();
            proof {
                assert(self.node_ok(id.0 as int));
            }
            let ghost before = rev@;
            let node = self.h_arena.get(id);
            rev.push(node.config.clone());
            current = node.parent;
            proof {
                if let Some(p) = node.parent {
                    assert(self.node_ok(p.0 as int));
                } else {
                    assert(id.0 == 0);
                }
                let vb = views(before);
                let vr = views(rev@);
                assert(vr =~= vb.push(hs[id.0 as int].config@));
                if let Some(p) = node.parent {
                    assert(back_chain(hs, id.0 as int) == seq![hs[id.0 as int].config@] + back_chain(hs, p.0 as int));
                    assert(vr + back_chain(hs, p.0 as int) =~= vb + back_chain(hs, id.0 as int));
                } else {
                    assert(vr =~= vb + back_chain(hs, id.0 as int));
                }
                if before.len() > 0 {
                    // the cost of the last node is the cost of `id` plus the step from it
                    assert(exact_at(self.instance, hs, last));
                    assert(vr[vr.len() - 2] == hs[last].config@);
                    assert(rev_loss(goals, vr, vr.len() as int) == rev_loss(goals, vr, vb.len() as int) + edge_cost(
                        goals,
                        hs[id.0 as int].config@,
                        hs[last].config@,
                    ));
                    lemma_rev_loss_prefix(goals, vb, vr, vb.len() as int);
                }
                last = id.0 as int;
            }
        }
        // the same, from the start
        let ghost r0 = rev@;
        let mut plan: Vec<Config> = Vec::new();
        while rev.len() > 0
            invariant
                rev@ == r0.subrange(0, rev@.len() as int),
                plan@.len() + rev@.len() == r0.len(),
                forall|t: int| 0 <= t < plan@.len() ==> #[trigger] plan@[t] == r0[r0.len() - 1 - t],
            decreases rev@.len(),
        {
            let c = rev.pop().unwrap();
            plan.push(c);
            proof {
                assert(rev@ =~= r0.subrange(0, rev@.len() as int));
            }
        }
        proof {
            assert(plan@[0] == r0[r0.len() - 1]);
            assert(plan@.last() == r0[0]);
            // the root costs nothing
            assert(last == 0) by {
                assert(self.node_ok(last));
            }
            assert(hs[0].g == 0) by {
                assert(self.node_ok(0));
                assert(hs[0].g <= 0 * self.n());
                assert(0 * self.n() == 0) by (nonlinear_arith);
            }
            assert forall|i: int| 0 <= i < plan@.len() implies #[trigger] plan_view(plan@)[i] == views(r0)[plan@.len() - 1 - i] by {
                assert(plan@[i] == r0[r0.len() - 1 - i]);
            }
            lemma_loss_reversed(goals, plan_view(plan@), views(r0), plan@.len() as int, plan@.len() as int);
            assert(plan_view(plan@) =~= back_chain(hs, h_id.0 as int).reverse());
            assert forall|t: int| 0 <= t < plan@.len() implies self.positions_ok(#[trigger] plan@[t]@) by {
                assert(plan@[t] == r0[r0.len() - 1 - t]);
            }
            assert forall|t: int| 0 <= t < plan@.len() - 1 implies self.step_ok(#[trigger] plan@[t]@, plan@[t + 1]@) by {
                let u = r0.len() - 2 - t;
                assert(plan@[t] == r0[u + 1]);
                assert(plan@[t + 1] == r0[u]);
            }
        }
        plan
    }
}


/// Every configuration of `plan` is a configuration of the instance.
pub open spec fn plan_view(plan: Seq<Config>) -> Seq<Seq<usize>> {
    plan.map_values(|c: Config| c@)
}

/// Every configuration of a plan from the starts is met, when the nodes hold the starts and
/// every next configuration of every node is met.
proof fn lemma_plan_met(instance: &Instance, hs: Seq<HNode>, ls: Seq<LNode>, plan: Seq<Seq<usize>>, t: int)
    requires
        config_distinct(instance.starts@),
        valid_plan(instance, plan),
        hs.len() > 0,
        hs[0].config@ == instance.starts@,
        forall|x: int, c: Seq<usize>|
            0 <= x < hs.len() && successor(instance, hs[x].config@, c) ==> #[trigger] covered(hs, ls, x, c),
        forall|x: int| 0 <= x < hs.len() ==> (#[trigger] hs[x].search_tree@).len() == 0,
        forall|x: int, k: int| 0 <= x < hs.len() && 0 <= k < hs[x].neighbors@.len() ==> (#[trigger] hs[x].neighbors@[k]).0 < hs.len(),
        0 <= t < plan.len(),
    ensures
        met(hs, plan[t]),
    decreases t,
{
    if t == 0 {
        assert(hs[0].config@ == plan[0]);
    } else {
        lemma_plan_met(instance, hs, ls, plan, t - 1);
        let y = choose|y: int| 0 <= y < hs.len() && #[trigger] hs[y].config@ == plan[t - 1];
        assert(config_ok(instance, plan[t]));
        assert(moves(instance.graph, plan[t - 1], plan[t]));
        assert(config_distinct(plan[t]));
        assert(no_swap(plan[t - 1], plan[t]));
        assert(successor(instance, hs[y].config@, plan[t]));
        assert(covered(hs, ls, y, plan[t]));
        assert(hs[y].search_tree@.len() == 0);
        let k = choose|k: int| 0 <= k < hs[y].neighbors@.len() && hs[(#[trigger] hs[y].neighbors@[k]).0 as int].config@ == plan[t];
        assert(hs[y].neighbors@[k].0 < hs.len());
    }
}

/// When every node's constraints are used up, none of them is at the goals, and every next
/// configuration of every node is met, no plan leads from the starts to the goals.
proof fn lemma_no_plan(instance: &Instance, hs: Seq<HNode>, ls: Seq<LNode>)
    requires
        config_distinct(instance.starts@),
        hs.len() > 0,
        hs[0].config@ == instance.starts@,
        forall|x: int, c: Seq<usize>|
            0 <= x < hs.len() && successor(instance, hs[x].config@, c) ==> #[trigger] covered(hs, ls, x, c),
        forall|x: int| 0 <= x < hs.len() ==> (#[trigger] hs[x].search_tree@).len() == 0,
        forall|x: int| 0 <= x < hs.len() ==> #[trigger] hs[x].config@ != instance.goals@,
        forall|x: int, k: int| 0 <= x < hs.len() && 0 <= k < hs[x].neighbors@.len() ==> (#[trigger] hs[x].neighbors@[k]).0 < hs.len(),
    ensures
        forall|plan: Seq<Seq<usize>>| !#[trigger] valid_plan(instance, plan),
{
    assert forall|plan: Seq<Seq<usize>>| !#[trigger] valid_plan(instance, plan) by {
        if valid_plan(instance, plan) {
            lemma_plan_met(instance, hs, ls, plan, plan.len() - 1);
            let y = choose|y: int| 0 <= y < hs.len() && #[trigger] hs[y].config@ == plan[plan.len() - 1];
            assert(plan.last() == instance.goals@);
        }
    }
}

/// Following a plan from time `t`, where node `y` holds its configuration at no more than the
/// cost of the plan so far: the goal node costs no more than the whole plan, when every node
/// not used up is, counting its distance to the goals, at least as costly as the goal node.
proof fn lemma_walk_cost(
    instance: &Instance,
    hs: Seq<HNode>,
    ls: Seq<LNode>,
    gid: int,
    plan: Seq<Seq<usize>>,
    t: int,
    y: int,
)
    requires
        instance.wf(),
        config_distinct(instance.starts@),
        valid_plan(instance, plan),
        forall|x: int, c: Seq<usize>|
            0 <= x < hs.len() && successor(instance, hs[x].config@, c) ==> #[trigger] covered(hs, ls, x, c),
        forall|x: int, k: int| 0 <= x < hs.len() && 0 <= k < hs[x].neighbors@.len() ==> (#[trigger] hs[x].neighbors@[k]).0 < hs.len(),
        forall|x: int| 0 <= x < hs.len() ==> #[trigger] relaxed_at(instance, hs, x),
        forall|x: int| 0 <= x < hs.len() ==> (#[trigger] hs[x].search_tree@).len() == 0 || hs[x].f >= hs[gid].f,
        forall|x: int|
            0 <= x < hs.len() ==> (#[trigger] hs[x]).f == total(hs[x].g, hs[x].h) && hs[x].h == dist_sum(
                instance.graph,
                instance.goals@,
                hs[x].config@,
                instance.num_agents as int,
            ),
        forall|x: int, z: int| 0 <= x < z < hs.len() ==> #[trigger] hs[x].config@ != #[trigger] hs[z].config@,
        0 <= gid < hs.len(),
        hs[gid].config@ == instance.goals@,
        0 <= t < plan.len(),
        0 <= y < hs.len(),
        hs[y].config@ == plan[t],
        hs[y].g <= loss_upto(plan, instance.goals@, t + 1),
    ensures
        hs[gid].g <= loss_upto(plan, instance.goals@, plan.len() as int),
    decreases plan.len() - t,
{
    let goals = instance.goals@;
    let n = instance.num_agents as int;
    lemma_rest_cost(instance, plan, t);
    lemma_dist_sum_at_goals(instance.graph, goals, n);
    assert(hs[gid].f == hs[gid].g);
    if hs[y].search_tree@.len() != 0 {
        assert(hs[y].f >= hs[gid].f);
        assert(hs[y].f <= hs[y].g + hs[y].h);
    } else if t == plan.len() - 1 {
        assert(plan[t] == goals);
        if y < gid {
            assert(hs[y].config@ != hs[gid].config@);
        } else if gid < y {
            assert(hs[gid].config@ != hs[y].config@);
        }
    } else {
        assert(config_ok(instance, plan[t + 1]));
        assert(moves(instance.graph, plan[t], plan[t + 1]));
        assert(config_distinct(plan[t + 1]));
        assert(no_swap(plan[t], plan[t + 1]));
        assert(successor(instance, hs[y].config@, plan[t + 1]));
        assert(covered(hs, ls, y, plan[t + 1]));
        let k = choose|k: int| 0 <= k < hs[y].neighbors@.len() && hs[(#[trigger] hs[y].neighbors@[k]).0 as int].config@ == plan[t + 1];
        let z = hs[y].neighbors@[k].0 as int;
        assert(relaxed_at(instance, hs, y));
        assert(hs[z].g <= hs[y].g + edge_cost(goals, hs[y].config@, hs[z].config@));
        assert(loss_upto(plan, goals, t + 2) == loss_upto(plan, goals, t + 1) + edge_cost(goals, plan[t], plan[t + 1]));
        lemma_walk_cost(instance, hs, ls, gid, plan, t + 1, z);
    }
}

impl<'a> LaCAM<'a> {
    /// The constraints of `l` as a partial next configuration for `n` agents: each
    /// constrained agent gets its vertex, the others none.
    fn constraints_to_partial(n: usize, l: &LNode) -> (q: PartialConfig)
        requires
            forall|k: int| 0 <= k < l.constraints@.len() ==> (#[trigger] l.constraints@[k]).0 < n,
        ensures
            q@.len() == n,
            forall|a: int|
                0 <= a < n && (#[trigger] q@[a]) is Some ==> exists|k: int|
                    0 <= k < l.constraints@.len() && l.constraints@[k] == (a as usize, q@[a]->0),
            forall|k: int| 0 <= k < l.constraints@.len() ==> (#[trigger] q@[l.constraints@[k].0 as int]) is Some,
    {
        let mut q: PartialConfig = Vec::new();
        let mut a: usize = 0;
        while a < n
            invariant
                0 <= a <= n,
                q@.len() == a,
                forall|b: int| 0 <= b < a ==> (#[trigger] q@[b]) is None,
            decreases n - a,
        {
            q.push(None);
            a += 1;
        }
        let mut c: usize = 0;
        while c < l.constraints.len()
            invariant
                forall|k: int| 0 <= k < l.constraints@.len() ==> (#[trigger] l.constraints@[k]).0 < n,
                0 <= c <= l.constraints@.len(),
                q@.len() == n,
                forall|b: int|
                    0 <= b < n && (#[trigger] q@[b]) is Some ==> exists|k: int|
                        0 <= k < c && l.constraints@[k] == (b as usize, q@[b]->0),
                forall|k: int| 0 <= k < c ==> (#[trigger] q@[l.constraints@[k].0 as int]) is Some,
            decreases l.constraints@.len() - c,
        {
            let (agent, vertex) = l.constraints[c];
            let ghost before = q@;
            q.set(agent, Some(vertex));
            proof {
                assert forall|b: int|
                    0 <= b < n && (#[trigger] q@[b]) is Some implies exists|k: int|
                        0 <= k < c + 1 && l.constraints@[k] == (b as usize, q@[b]->0) by {
                    if b == agent {
                        assert(l.constraints@[c as int] == (b as usize, q@[b]->0));
                    } else {
                        assert(before[b] == q@[b]);
                    }
                }
                assert forall|k: int| 0 <= k < c + 1 implies (#[trigger] q@[l.constraints@[k].0 as int]) is Some by {
                    if l.constraints@[k].0 != agent {
                        assert(before[l.constraints@[k].0 as int] is Some);
                    }
                }
            }
            c += 1;
        }
        q
    }

    /// The full configuration of a partial one in which every agent has a vertex.
    fn unwrap_config(q: &PartialConfig) -> (c: Config)
        requires
            forall|a: int| 0 <= a < q@.len() ==> (#[trigger] q@[a]) is Some,
        ensures
            c@.len() == q@.len(),
            forall|a: int| 0 <= a < q@.len() ==> #[trigger] q@[a] == Some(c@[a]),
    {
        let mut c: Config = Vec::new();
        let mut a: usize = 0;
        while a < q.len()
            invariant
                forall|b: int| 0 <= b < q@.len() ==> (#[trigger] q@[b]) is Some,
                0 <= a <= q@.len(),
                c@.len() == a,
                forall|b: int| 0 <= b < a ==> #[trigger] q@[b] == Some(c@[b]),
            decreases q@.len() - a,
        {
            c.push(q[a].unwrap());
            a += 1;
        }
        c
    }

    /// What the search ended with, in the state `self`: a valid plan along the parents of the
    /// goal node, whose loss is the goal node's cost (the least of all plans when nothing is
    /// left in `open`, with pairwise different starts); `Timeout` with the goals not met and
    /// nodes still to visit; or `NoSolution` with nothing left to visit and, with pairwise
    /// different starts, no valid plan at all.
    pub open spec fn ended_with(&self, outcome: SolveOutcome) -> bool {
        match outcome {
                SolveOutcome::Solved(plan) => {
                    &&& self.h_goal is Some
                    &&& valid_plan(self.instance, plan_view(plan@))
                    &&& loss_upto(plan_view(plan@), self.instance.goals@, plan@.len() as int)
                        == self.h_arena@[(self.h_goal->0).0 as int].g
                    &&& plan_view(plan@) == back_chain(self.h_arena@, (self.h_goal->0).0 as int).reverse()
                    &&& self.instance.starts@ == self.instance.goals@ ==> plan_view(plan@) == seq![
                        self.instance.starts@,
                    ]
                    &&& self.open@.len() == 0 && config_distinct(self.instance.starts@) ==> forall|
                        p: Seq<Seq<usize>>,
                    |
                        #[trigger] valid_plan(self.instance, p) ==> loss_upto(
                            plan_view(plan@),
                            self.instance.goals@,
                            plan@.len() as int,
                        ) <= loss_upto(p, self.instance.goals@, p.len() as int)
                },
                SolveOutcome::Timeout => self.h_goal is None && self.open@.len() > 0,
                SolveOutcome::NoSolution => {
                    &&& self.h_goal is None
                    &&& self.open@.len() == 0
                    &&& config_distinct(self.instance.starts@) ==> forall|plan: Seq<Seq<usize>>|
                        !#[trigger] valid_plan(self.instance, plan)
                },
            }
    }

    /// `self` is further on than `old`: the goals were met for the first time, or, with that
    /// unchanged, less is left to search, or as much with fewer nodes in `open`.
    pub open spec fn advanced_from(&self, old: &Self) -> bool {
        ||| old.h_goal is None && self.h_goal is Some
        ||| (old.h_goal is None) == (self.h_goal is None) && (self.measure() < old.measure() || (self.measure()
            == old.measure() && self.open@.len() < old.open@.len()))
    }

    /// Runs the search from the starts. It ends with a plan once the goals are reached (with
    /// `flg_star`, once nothing cheaper is left to try or the deadline passes; when it ends with
    /// `open` empty, no plan has a lower loss), with `Timeout` when the deadline passes before,
    /// and with `NoSolution` when nothing is left to try. Whatever the outcome, the nodes it
    /// met stay in the arena, the first at the starts, with what it tried recorded as
    /// `explored_ok` states.
    pub fn solve(&mut self) -> (outcome: SolveOutcome)
        requires
            old(self).inv(),
            old(self).h_arena@.len() == 0,
            old(self).h_goal is None,
        ensures
            final(self).inv(),
            final(self).instance == old(self).instance,
            final(self).h_arena@.len() >= 1,
            final(self).h_arena@[0].config@ == final(self).instance.starts@,
            final(self).explored_ok(),
            final(self).loop_cnt >= old(self).loop_cnt,
            final(self).instance.starts@ == final(self).instance.goals@ && !final(self).flg_star && outcome is Solved
                ==> final(self).loop_cnt == one_more(old(self).loop_cnt),
            final(self).ended_with(outcome),
    {
        let n = self.instance.num_agents;
        let starts = self.instance.starts.clone();
        proof {
            assert(self.positions_ok(starts@)) by {
                assert forall|i: int| 0 <= i < starts@.len() implies #[trigger] reachable(
                    self.graph(),
                    self.instance.goals@[i] as int,
                    starts@[i] as int,
                ) by {
                    assert(self.instance.connected());
                }
            }
        }
        let h_init = self.create_highlevel_node(&starts, None);
        self.open.push_front(h_init);
        proof {
            // the start allows every next configuration, and waits in `open`
            let hs = self.h_arena@;
            let ls = self.l_arena@;
            assert forall|x: int, c: Seq<usize>|
                0 <= x < hs.len() && successor(self.instance, hs[x].config@, c) implies #[trigger] covered(hs, ls, x, c) by {
                assert(x == 0);
                assert(consistent(ls[hs[0].search_tree@[0].0 as int], c));
            }
            assert forall|x: int| 0 <= x < hs.len() implies #[trigger] in_open(self.open@, x) || (hs[x].search_tree@.len()
                == 0 && hs[x].config@ != self.instance.goals@) by {
                assert(self.open@[0].0 == x);
            }
        }
        loop
            invariant
                self.inv(),
                self.instance == old(self).instance,
                self.flg_star == old(self).flg_star,
                self.h_arena@.len() >= 1,
                self.explored_ok(),
                self.loop_cnt >= old(self).loop_cnt,
                self.instance.starts@ == self.instance.goals@ && !self.flg_star ==> self.h_goal is None,
                self.instance.starts@ == self.instance.goals@ && self.h_goal is None ==> self.loop_cnt == old(
                    self,
                ).loop_cnt && self.open@.len() > 0 && self.open@[0] == HNodeId(0),
            decreases (if self.h_goal is None {
                1int
            } else {
                0int
            }), self.measure(), self.open@.len(),
        {
            let expired = if self.open.len() > 0 {
                self.deadline.is_expired()
            } else {
                false
            };
            proof {
                if self.instance.starts@ == self.instance.goals@ && self.h_goal is None {
                    assert(self.h_arena@[0].config@ == self.instance.starts@);
                }
            }
            match self.search_step(expired) {
                Some(outcome) => {
                    return outcome;
                },
                None => {},
            }
        }
    }

    /// The outcome of the search as it stands: the plan to the goal node when the goals were
    /// met, `Timeout` while nodes are left to visit, `NoSolution` when none is.
    fn finish(&self) -> (outcome: SolveOutcome)
        requires
            self.inv(),
            self.explored_ok(),
            self.h_arena@.len() >= 1,
        ensures
            self.ended_with(outcome),
            outcome is Solved <==> self.h_goal is Some,
            outcome is Timeout <==> self.h_goal is None && self.open@.len() > 0,
    {
        if let Some(goal_id) = self.h_goal {
            let plan = self.backtrack(goal_id);
            proof {
                let pv = plan_view(plan@);
                assert(pv.len() == plan@.len());
                assert forall|t: int| 0 <= t < pv.len() implies #[trigger] pv[t] == plan@[t]@ by {}
                assert(pv[0] == plan@[0]@);
                assert(pv.last() == plan@.last()@);
                assert forall|t: int| 0 <= t < pv.len() implies config_ok(self.instance, #[trigger] pv[t]) by {
                    assert(self.positions_ok(plan@[t]@));
                }
                assert forall|t: int| 0 <= t < pv.len() - 1 implies moves(self.instance.graph, #[trigger] pv[t], pv[t + 1]) by {
                    assert(self.step_ok(plan@[t]@, plan@[t + 1]@));
                }
                if config_distinct(self.instance.starts@) {
                    assert forall|t: int| 0 <= t < pv.len() implies config_distinct(#[trigger] pv[t]) by {
                        if t == 0 {
                            assert(pv[0] == self.instance.starts@);
                        } else {
                            assert(self.step_ok(plan@[t - 1]@, plan@[t]@));
                        }
                    }
                    assert forall|t: int| 0 <= t < pv.len() - 1 implies no_swap(#[trigger] pv[t], pv[t + 1]) by {
                        assert(self.step_ok(plan@[t]@, plan@[t + 1]@));
                    }
                }
                assert(pv.len() >= 1);
                assert(pv[0] == self.instance.starts@);
                assert(pv.last() == self.instance.goals@);
                // with nothing left in `open`, no plan costs less than the goal node
                let hs = self.h_arena@;
                let gi = goal_id.0 as int;
                if self.instance.starts@ == self.instance.goals@ {
                    // the goal node is the first node, which has no parent
                    if gi != 0 {
                        assert(hs[0].config@ != hs[gi].config@);
                    }
                    assert(self.node_ok(0));
                    assert(back_chain(hs, 0) == seq![hs[0].config@]);
                    assert(back_chain(hs, 0).reverse() =~= seq![hs[0].config@]);
                }
                if self.open@.len() == 0 && config_distinct(self.instance.starts@) {
                    assert forall|x: int, k: int| 0 <= x < hs.len() && 0 <= k < hs[x].neighbors@.len() implies (
                    #[trigger] hs[x].neighbors@[k]).0 < hs.len() by {
                        assert(self.node_ok(x));
                    }
                    assert forall|x: int| 0 <= x < hs.len() implies (#[trigger] hs[x].search_tree@).len() == 0
                        || hs[x].f >= hs[gi].f by {
                        assert(!in_open(self.open@, x));
                    }
                    assert forall|x: int| 0 <= x < hs.len() implies (#[trigger] hs[x]).f == total(hs[x].g, hs[x].h)
                        && hs[x].h == dist_sum(
                        self.instance.graph,
                        self.instance.goals@,
                        hs[x].config@,
                        self.instance.num_agents as int,
                    ) by {
                        assert(self.node_ok(x));
                    }
                    assert(self.node_ok(0));
                    assert forall|p: Seq<Seq<usize>>| #[trigger] valid_plan(self.instance, p) implies hs[gi].g <= loss_upto(
                        p,
                        self.instance.goals@,
                        p.len() as int,
                    ) by {
                        lemma_walk_cost(self.instance, hs, self.l_arena@, gi, p, 0, 0);
                    }
                }
            }
            SolveOutcome::Solved(plan)
        } else if self.open.len() > 0 {
            SolveOutcome::Timeout
        } else {
            proof {
                // nothing is left to try: every next configuration of every node was met, and
                // the goals never were
                let hs = self.h_arena@;
                if config_distinct(self.instance.starts@) {
                    assert(self.open@.len() == 0);
                    assert forall|x: int| 0 <= x < hs.len() implies (#[trigger] hs[x].search_tree@).len() == 0 by {
                        assert(!in_open(self.open@, x));
                    }
                    assert forall|x: int| 0 <= x < hs.len() implies #[trigger] hs[x].config@ != self.instance.goals@ by {
                        assert(!in_open(self.open@, x));
                    }
                    assert forall|x: int, k: int| 0 <= x < hs.len() && 0 <= k < hs[x].neighbors@.len() implies (
                    #[trigger] hs[x].neighbors@[k]).0 < hs.len() by {
                        assert(self.node_ok(x));
                    }
                    lemma_no_plan(self.instance, hs, self.l_arena@);
                }
            }
            SolveOutcome::NoSolution
        }
    }

    /// One round of the search, given whether the deadline has passed (`expired`). With
    /// nothing left in `open`, or past the deadline, it ends the search: with the plan when the
    /// goals were met, `Timeout` past the deadline with nodes left to visit, `NoSolution` with
    /// none. Otherwise it counts the round and visits the first node of `open`: it drops it when
    /// it is no cheaper than the goal node, marks the goals met when it is at them (which ends
    /// the search unless `flg_star`), and otherwise tries its next low-level node.
    pub fn search_step(&mut self, expired: bool) -> (r: Option<SolveOutcome>)
        requires
            old(self).inv(),
            old(self).explored_ok(),
            old(self).h_arena@.len() >= 1,
        ensures
            final(self).inv(),
            final(self).explored_ok(),
            final(self).h_arena@.len() >= 1,
            final(self).instance == old(self).instance,
            final(self).flg_star == old(self).flg_star,
            final(self).loop_cnt == (if !expired && old(self).open@.len() > 0 {
                one_more(old(self).loop_cnt)
            } else {
                old(self).loop_cnt
            }),
            old(self).open@.len() == 0 || expired ==> *final(self) == *old(self) && r is Some,
            old(self).open@.len() == 0 || expired ==> (r matches Some(o) && match o {
                SolveOutcome::Solved(_) => old(self).h_goal is Some,
                SolveOutcome::Timeout => old(self).h_goal is None && old(self).open@.len() > 0,
                SolveOutcome::NoSolution => old(self).h_goal is None && old(self).open@.len() == 0,
            }),
            r matches Some(o) ==> final(self).ended_with(o),
            !expired && old(self).open@.len() > 0 ==> match r {
                None => final(self).advanced_from(old(self)),
                Some(o) => o is Solved && old(self).h_goal is None && final(self).h_goal is Some && !old(self).flg_star,
            },
            !expired && old(self).open@.len() > 0 && old(self).h_goal is None
                && old(self).h_arena@[old(self).open@[0].0 as int].config@ == old(self).instance.goals@
                ==> final(self).h_goal == Some(old(self).open@[0]) && (r is Some <==> !old(self).flg_star),
    {
        if self.open.len() == 0 || expired {
            return Some(self.finish());
        }
                self.loop_cnt = self.loop_cnt.saturating_add(1);
                let h_id = self.open[0];
                proof {
                    assert(self.open@[0] == h_id);
                    assert(self.node_ok(h_id.0 as int));
                }
                let mut dropped = false;
                if let Some(goal_id) = self.h_goal {
                    if self.h_arena.get(h_id).f >= self.h_arena.get(goal_id).f {
                        let ghost open0 = self.open@;
                        self.open.pop_front();
                        dropped = true;
                        proof {
                            // a node no cheaper than the goal node leaves `open`
                            let hs = self.h_arena@;
                            assert forall|x: int| 0 <= x < hs.len() implies #[trigger] in_open(self.open@, x)
                                || hs[x].search_tree@.len() == 0 || hs[x].f >= hs[goal_id.0 as int].f by {
                                if x != h_id.0 && in_open(open0, x) {
                                    let k = choose|k: int| 0 <= k < open0.len() && (#[trigger] open0[k]).0 == x;
                                    assert(k > 0);
                                    assert(self.open@[k - 1] == open0[k]);
                                }
                            }
                        }
                    }
                }
                if !dropped {
                    if self.h_goal.is_none() && vec_eq(&self.h_arena.get(h_id).config, &self.instance.goals) {
                        let ghost pre = *self;
                        self.h_goal = Some(h_id);
                        proof {
                            let hs = self.h_arena@;
                            assert forall|x: int| 0 <= x < hs.len() implies #[trigger] in_open(self.open@, x)
                                || hs[x].search_tree@.len() == 0 || hs[x].f >= hs[h_id.0 as int].f by {
                                assert(in_open(pre.open@, x) || pre.h_arena@[x].search_tree@.len() == 0);
                            }
                        }
                        if !self.flg_star {
                            return Some(self.finish());
                        }
                    } else {
                        let ghost before = *self;
                        let ghost x0 = h_id.0 as int;
                        proof {
                            assert forall|y: int, k: int|
                                0 <= y < before.h_arena@.len() && 0 <= k < before.h_arena@[y].search_tree@.len() implies (
                                #[trigger] before.h_arena@[y].search_tree@[k]).0 < before.l_arena@.len() by {
                                assert(before.node_ok(y));
                            }
                        }
                        match self.get_next_lowlevel_node(h_id) {
                            None => {
                                let ghost s1 = *self;
                                self.open.pop_front();
                                proof {
                                    let hs = self.h_arena@;
                                    let ls = self.l_arena@;
                                    if config_distinct(self.instance.starts@) {
                                        assert forall|x: int, c: Seq<usize>|
                                            0 <= x < hs.len() && successor(self.instance, hs[x].config@, c) implies #[trigger] covered(
                                                hs,
                                                ls,
                                                x,
                                                c,
                                            ) by {
                                            assert(covered(before.h_arena@, before.l_arena@, x, c));
                                            if x != x0 {
                                                assert(before.node_ok(x));
                                                lemma_covered_grow(before.h_arena@, before.l_arena@, hs, ls, x, c);
                                            }
                                        }
                                    }
                                    if self.h_goal is None {
                                        assert forall|x: int| 0 <= x < hs.len() implies #[trigger] in_open(self.open@, x) || (
                                        hs[x].search_tree@.len() == 0 && hs[x].config@ != self.instance.goals@) by {
                                            if x != x0 && in_open(before.open@, x) {
                                                let k = choose|k: int| 0 <= k < before.open@.len() && (#[trigger] before.open@[k]).0 == x;
                                                assert(k > 0);
                                                assert(self.open@[k - 1] == before.open@[k]);
                                            }
                                        }
                                    }
                                    if let Some(gid) = self.h_goal {
                                        assert forall|x: int| 0 <= x < hs.len() implies #[trigger] in_open(self.open@, x)
                                            || hs[x].search_tree@.len() == 0 || hs[x].f >= hs[gid.0 as int].f by {
                                            if x != x0 && in_open(before.open@, x) {
                                                let k = choose|k: int| 0 <= k < before.open@.len() && (#[trigger] before.open@[k]).0 == x;
                                                assert(k > 0);
                                                assert(self.open@[k - 1] == before.open@[k]);
                                            }
                                        }
                                    }
                                }
                            },
                            Some(l_id) => {
                                let ghost s1 = *self;
                                self.expand(h_id, l_id, Ghost(before));
                                proof {
                                    let hs = self.h_arena@;
                                    let ls = self.l_arena@;
                                    assert forall|y: int, k: int|
                                        0 <= y < s1.h_arena@.len() && 0 <= k < s1.h_arena@[y].search_tree@.len() implies (
                                        #[trigger] s1.h_arena@[y].search_tree@[k]).0 < s1.l_arena@.len() by {
                                        assert(s1.node_ok(y));
                                    }
                                    if config_distinct(self.instance.starts@) {
                                        assert forall|x: int, c: Seq<usize>|
                                            0 <= x < hs.len() && successor(self.instance, hs[x].config@, c) implies #[trigger] covered(
                                                hs,
                                                ls,
                                                x,
                                                c,
                                            ) by {
                                            if x < s1.h_arena@.len() {
                                                assert(covered(before.h_arena@, before.l_arena@, x, c));
                                                assert(before.node_ok(x));
                                                assert(s1.node_ok(x));
                                                if x != x0 {
                                                    lemma_covered_grow(before.h_arena@, before.l_arena@, s1.h_arena@, s1.l_arena@, x, c);
                                                }
                                                if covered(s1.h_arena@, s1.l_arena@, x, c) {
                                                    lemma_covered_grow(s1.h_arena@, s1.l_arena@, hs, ls, x, c);
                                                } else {
                                                    assert(reached(hs, x, c));
                                                }
                                            } else {
                                                assert(consistent(ls[hs[x].search_tree@[0].0 as int], c));
                                            }
                                        }
                                    }
                                    if self.h_goal is None {
                                        assert forall|x: int| 0 <= x < hs.len() implies #[trigger] in_open(self.open@, x) || (
                                        hs[x].search_tree@.len() == 0 && hs[x].config@ != self.instance.goals@) by {
                                            if x < s1.h_arena@.len() {
                                                if x == x0 {
                                                    assert(before.open@[0].0 == x);
                                                    assert(in_open(before.open@, x));
                                                }
                                                if in_open(before.open@, x) {
                                                    assert(in_open(s1.open@, x));
                                                }
                                            }
                                        }
                                    }
                                    if let Some(gid) = self.h_goal {
                                        let gi = gid.0 as int;
                                        assert(s1.node_ok(gi));
                                        assert(self.node_ok(gi));
                                        assert forall|x: int| 0 <= x < hs.len() implies #[trigger] in_open(self.open@, x)
                                            || hs[x].search_tree@.len() == 0 || hs[x].f >= hs[gi].f by {
                                            if x < s1.h_arena@.len() {
                                                if x == x0 {
                                                    assert(before.open@[0].0 == x);
                                                    assert(in_open(before.open@, x));
                                                }
                                                if in_open(before.open@, x) {
                                                    assert(in_open(s1.open@, x));
                                                } else if hs[x].search_tree@.len() != 0 {
                                                    assert(before.h_arena@[x].f >= before.h_arena@[gi].f);
                                                    assert(s1.node_ok(x));
                                                    assert(self.node_ok(x));
                                                    assert(in_open(self.open@, x) || hs[x].g == s1.h_arena@[x].g || hs[x].f >= hs[gi].f);
                                                }
                                            }
                                        }
                                    }
                                }
                            },
                        }
                    }
                }
        None
    }

    /// Tries the constraints of the low-level node `l_id` from node `h_id`: when PIBT completes
    /// them to a next configuration, the node of that configuration (a new one if it was not met
    /// yet, after lowering costs through it otherwise) goes to the front of `open`.
    fn expand(&mut self, h_id: HNodeId, l_id: LNodeId, Ghost(before): Ghost<Self>)
        requires
            old(self).inv(),
            h_id.0 < old(self).h_arena@.len(),
            l_id.0 < old(self).l_arena@.len(),
            old(self).lnode_ok(old(self).l_arena@[l_id.0 as int], old(self).h_arena@[h_id.0 as int]),
            old(self).measure() < before.measure(),
        ensures
            final(self).inv(),
            final(self).instance == old(self).instance,
            final(self).h_goal == old(self).h_goal,
            final(self).loop_cnt == old(self).loop_cnt,
            final(self).flg_star == old(self).flg_star,
            final(self).h_arena@.len() >= old(self).h_arena@.len(),
            final(self).measure() < before.measure(),
            forall|y: int|
                0 <= y < old(self).h_arena@.len() ==> (#[trigger] final(self).h_arena@[y]).config == old(
                    self,
                ).h_arena@[y].config && final(self).h_arena@[y].search_tree == old(self).h_arena@[y].search_tree,
            old(self).l_arena@.len() <= final(self).l_arena@.len(),
            forall|i: int| 0 <= i < old(self).l_arena@.len() ==> #[trigger] final(self).l_arena@[i] == old(self).l_arena@[i],
            forall|y: int| in_open(old(self).open@, y) ==> #[trigger] in_open(final(self).open@, y),
            forall|y: int| old(self).h_arena@.len() <= y < final(self).h_arena@.len() ==> #[trigger] in_open(final(self).open@, y),
            forall|y: int|
                old(self).h_arena@.len() <= y < final(self).h_arena@.len() ==> (#[trigger] final(self).h_arena@[y]).search_tree@.len()
                    == 1 && final(self).l_arena@[final(self).h_arena@[y].search_tree@[0].0 as int].constraints@.len() == 0,
            forall|c: Seq<usize>|
                config_distinct(old(self).instance.starts@) && successor(
                    old(self).instance,
                    old(self).h_arena@[h_id.0 as int].config@,
                    c,
                ) && old(self).l_arena@[l_id.0 as int].constraints@.len() == old(self).n() && #[trigger] consistent(
                    old(self).l_arena@[l_id.0 as int],
                    c,
                ) ==> reached(final(self).h_arena@, h_id.0 as int, c),
            forall|y: int|
                0 <= y < old(self).h_arena@.len() ==> (#[trigger] final(self).h_arena@[y]).g <= old(self).h_arena@[y].g,
            old(self).h_goal matches Some(gid) ==> forall|y: int|
                0 <= y < old(self).h_arena@.len() ==> #[trigger] in_open(final(self).open@, y)
                    || final(self).h_arena@[y].g == old(self).h_arena@[y].g
                    || final(self).h_arena@[y].f >= final(self).h_arena@[gid.0 as int].f,
            forall|y: int, z: int|
                0 <= y < old(self).h_arena@.len() && #[trigger] lists(old(self).h_arena@[y], z) ==> lists(
                    final(self).h_arena@[y],
                    z,
                ),
    {
        let ghost old_h = self.h_arena@;
        let ghost old_l = self.l_arena@;
        let ghost old_open = self.open@;
        let n = self.instance.num_agents;
        let ghost x = h_id.0 as int;
        proof {
            assert(self.node_ok(x));
        }
        let q_from = self.h_arena.get(h_id).config.clone();
        let order = self.h_arena.get(h_id).order.clone();
        let mut q_to = Self::constraints_to_partial(n, self.l_arena.get(l_id));
        let ghost q0 = q_to@;
        let ghost g = self.graph();
        proof {
            let l = self.l_arena@[l_id.0 as int];
            assert forall|a: int| 0 <= a < n && (#[trigger] q0[a]) is Some implies g.acts(q_from@[a] as int).contains(
                q0[a]->0,
            ) by {
                let k = choose|k: int| 0 <= k < l.constraints@.len() && l.constraints@[k] == (a as usize, q0[a]->0);
                assert(l.constraints@[k].0 < n);
            }
            assert forall|a: int| 0 <= a < q0.len() && (#[trigger] q0[a]) is Some implies q0[a]->0 < g.vertices@.len() by {
                g.lemma_neighbors_in_range(q_from@[a] as int);
                assert(g.acts(q_from@[a] as int).contains(q0[a]->0));
            }
        }
        proof {
            // a full set of constraints allowing a next configuration is that configuration,
            // which PIBT then completes
            let l = old_l[l_id.0 as int];
            let nd = old_h[x];
            if l.constraints@.len() == n {
                assert forall|c: Seq<usize>|
                    config_distinct(self.instance.starts@) && successor(self.instance, nd.config@, c) && #[trigger] consistent(
                        l,
                        c,
                    ) implies (forall|a: int| 0 <= a < q0.len() ==> q0[a] == Some(c[a])) && !constraints_collide(
                    q_from@,
                    q0,
                ) by {
                    assert forall|a: int| 0 <= a < q0.len() implies q0[a] == Some(c[a]) by {
                        assert(nd.order@.contains(a as usize));
                        let k = choose|k: int| 0 <= k < nd.order@.len() && nd.order@[k] == a as usize;
                        assert(l.constraints@[k].0 == nd.order@[k]);
                        assert(q0[l.constraints@[k].0 as int] is Some);
                        let k2 = choose|k2: int| 0 <= k2 < l.constraints@.len() && l.constraints@[k2] == (a as usize, q0[a]->0);
                        assert(c[l.constraints@[k2].0 as int] == l.constraints@[k2].1);
                    }
                    assert(config_distinct(c));
                    assert(config_distinct(q_from@));
                    assert(no_swap(q_from@, c));
                    if exists|a: int, b: int| 0 <= a < b < q0.len() && (#[trigger] q0[a]) is Some && #[trigger] q0[b] == q0[a] {
                        let (a, b) = choose|a: int, b: int| 0 <= a < b < q0.len() && (#[trigger] q0[a]) is Some && #[trigger] q0[b] == q0[a];
                        assert(c[a] != c[b]);
                    }
                    assert forall|a: int, b: int|
                        0 <= a < q0.len() && 0 <= b < q0.len() && a != b implies !(#[trigger] q0[a] == Some(q_from@[b])
                            && #[trigger] q0[b] == Some(q_from@[a])) by {
                        assert(q0[a] == Some(c[a]) && q0[b] == Some(c[b]));
                    }
                }
            }
        }
        let ghost full = old_l[l_id.0 as int].constraints@.len() == n;
        if self.pibt.set_new_config(&q_from, &mut q_to, order, &mut self.dist_table) {
            let q_new = Self::unwrap_config(&q_to);
            proof {
                assert forall|a: int| 0 <= a < q_new@.len() implies #[trigger] g.acts(q_from@[a] as int).contains(
                    q_new@[a],
                ) by {
                    assert(q_to@[a] == Some(q_new@[a]));
                    if q0[a] is Some {
                        assert(q_to@[a] == q0[a]);
                    }
                }
                assert(moves(g, q_from@, q_new@));
                assert(config_distinct(q_new@)) by {
                    assert forall|a: int, b: int| 0 <= a < b < q_new@.len() implies q_new@[a] != q_new@[b] by {
                        assert(q_to@[a] != q_to@[b]);
                    }
                }
                if config_distinct(q_from@) {
                    assert(swap_free(q_from@, q_to@));
                    assert forall|a: int, b: int|
                        0 <= a < q_from@.len() && 0 <= b < q_from@.len() && a != b implies !(#[trigger] q_new@[a] == q_from@[b]
                            && #[trigger] q_new@[b] == q_from@[a]) by {
                        assert(q_to@[a] == Some(q_new@[a]));
                        assert(q_to@[b] == Some(q_new@[b]));
                    }
                }
                assert(self.step_ok(q_from@, q_new@));
                lemma_moves_reachable(g, self.instance.goals@, q_from@, q_new@);
                assert(self.positions_ok(q_new@));
            }
            proof {
                // a full set of constraints comes out unchanged
                if full {
                    assert forall|c: Seq<usize>|
                        config_distinct(self.instance.starts@) && successor(self.instance, old_h[x].config@, c)
                            && #[trigger] consistent(old_l[l_id.0 as int], c) implies q_new@ == c by {
                        assert forall|a: int| 0 <= a < q_new@.len() implies q_new@[a] == c[a] by {
                            assert(q0[a] is Some);
                            assert(q_to@[a] == q0[a]);
                        }
                    }
                }
            }
            let ghost mut to_node = h_id;
            match self.explored.get(&q_new, &self.h_arena) {
                Some(existing) => {
                    let to_id = HNodeId(existing);
                    proof {
                        to_node = to_id;
                    }
                    let ghost mid_h = self.h_arena@;
                    self.rewrite(h_id, to_id);
                    let ghost open_before = self.open@;
                    self.open.push_front(to_id);
                    proof {
                        assert forall|y: int| in_open(open_before, y) implies #[trigger] in_open(self.open@, y) by {
                            let q = choose|q: int| 0 <= q < open_before.len() && (#[trigger] open_before[q]).0 == y;
                            assert(self.open@[q + 1] == open_before[q]);
                        }
                        assert forall|y: int| in_open(old_open, y) implies #[trigger] in_open(self.open@, y) by {
                            assert(in_open(open_before, y));
                        }
                        assert(self.h_arena@[existing as int].config@ == q_new@);
                    }
                },
                None => {
                    let h_new = self.create_highlevel_node(&q_new, Some(h_id));
                    let ghost open_before = self.open@;
                    self.open.push_front(h_new);
                    proof {
                        to_node = h_new;
                        assert forall|y: int| in_open(old_open, y) implies #[trigger] in_open(self.open@, y) by {
                            let q = choose|q: int| 0 <= q < open_before.len() && (#[trigger] open_before[q]).0 == y;
                            assert(self.open@[q + 1] == open_before[q]);
                        }
                        assert(self.open@[0] == h_new);
                        assert(in_open(self.open@, h_new.0 as int));
                        assert(self.h_arena@[h_new.0 as int].config@ == q_new@);
                    }
                },
            }
            proof {
                assert forall|c: Seq<usize>|
                    config_distinct(old(self).instance.starts@) && successor(old(self).instance, old_h[x].config@, c)
                        && old_l[l_id.0 as int].constraints@.len() == old(self).n() && #[trigger] consistent(
                        old_l[l_id.0 as int],
                        c,
                    ) implies reached(self.h_arena@, x, c) by {
                    assert(q_new@ == c);
                    let hs = self.h_arena@;
                    assert(self.node_ok(x));
                    assert(hs[x].neighbors@.contains(to_node));
                    let k = choose|k: int| 0 <= k < hs[x].neighbors@.len() && hs[x].neighbors@[k] == to_node;
                    assert(hs[hs[x].neighbors@[k].0 as int].config@ == c);
                }
            }
        } else {
            proof {
                assert forall|y: int| in_open(old_open, y) implies #[trigger] in_open(self.open@, y) by {}
            }
        }
    }
}

} // verus!
