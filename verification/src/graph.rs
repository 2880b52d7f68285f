//! Construction of the static audio graph.
//!
//! A [`GraphBuilder`] collects nodes and their forward and feedback
//! connections. [`GraphBuilder::build`] sorts the forward edges
//! topologically, plans which shared buffer each node writes into, and
//! records the inputs of every node, giving a [`StaticGraph`] that the audio
//! thread walks once per pull without allocating.
use crate::buffers::{
    adjacency_of, alloc_upto, compute_last_usage, is_feedback_source, last_use_table,
    lemma_buffer_reuse_is_safe, lemma_max_target_position, plan_buffers, position_in, AllocState,
};
use crate::topology::{
    dag_add_edge, dag_add_node, dag_edges, dag_new, dag_node_count, dag_toposort, flatten_edges,
    is_acyclic, is_node_permutation, is_topological_order, toposort_result,
};
use std::collections::HashMap;
use vstd::prelude::*;

verus! {

broadcast use vstd::std_specs::hash::group_hash_axioms;

/// The bits that `uuid` fixes in a random (version 4, RFC 4122 variant) UUID.
pub open spec fn is_random_uuid(x: u128) -> bool {
    x & 0xF000_C000_0000_0000_0000u128 == 0x4000_8000_0000_0000_0000u128
}

/// Calls `uuid::Uuid::new_v4` and returns the UUID as a `u128`. The value is
/// random; the crate's source fixes its version nibble to 4 and its variant
/// bits to the RFC 4122 variant, which is all this contract claims.
#[verifier::external_body]
fn new_random_uuid() -> (r: u128)
    ensures
        is_random_uuid(r),
{
    uuid::Uuid::new_v4().as_u128()
}

/// A unique identifier for a node in the audio graph: a random UUID, held as
/// its 128-bit value.
#[derive(Debug, Clone, Copy, PartialEq, Eq, Hash, Structural)]
pub struct NodeId(pub u128);

impl NodeId {
    /// A fresh random identifier.
    pub fn new() -> (id: Self)
        ensures
            is_random_uuid(id.0),
    {
        NodeId(new_random_uuid())
    }
}

impl Default for NodeId {
    fn default() -> (id: Self)
        ensures
            is_random_uuid(id.0),
    {
        Self::new()
    }
}

/// Variant `k` of the identifier `base`: `k` (below 2^64) written into bits
/// 0..61 and 64..65, which `uuid` leaves random, and every other bit of
/// `base` kept.
pub open spec fn id_variant_spec(base: u128, k: u128) -> u128 {
    (base & 0xFFFF_FFFF_FFFF_FFFC_C000_0000_0000_0000u128) | ((k & 0x3FFF_FFFF_FFFF_FFFFu128) | ((k
        >> 62u32) << 64u32))
}

/// Computes `id_variant_spec(base, k)`.
fn id_variant(base: u128, k: usize) -> (r: u128)
    ensures
        r == id_variant_spec(base, k as u128),
{
    let k: u128 = k as u128;
    (base & 0xFFFF_FFFF_FFFF_FFFC_C000_0000_0000_0000u128) | ((k & 0x3FFF_FFFF_FFFF_FFFFu128) | ((k
        >> 62u32) << 64u32))
}

/// A variant of a random identifier is a random identifier.
proof fn lemma_id_variant_is_random(base: u128, k: u128)
    by (bit_vector)
    requires
        base & 0xF000_C000_0000_0000_0000u128 == 0x4000_8000_0000_0000_0000u128,
        k < 0x1_0000_0000_0000_0000u128,
    ensures
        ((base & 0xFFFF_FFFF_FFFF_FFFC_C000_0000_0000_0000u128) | ((k & 0x3FFF_FFFF_FFFF_FFFFu128) | ((k
            >> 62u32) << 64u32))) & 0xF000_C000_0000_0000_0000u128 == 0x4000_8000_0000_0000_0000u128,
{
}

/// Different variants of one identifier differ.
proof fn lemma_id_variants_differ(base: u128, a: u128, b: u128)
    by (bit_vector)
    requires
        a < 0x1_0000_0000_0000_0000u128,
        b < 0x1_0000_0000_0000_0000u128,
        a != b,
    ensures
        ((base & 0xFFFF_FFFF_FFFF_FFFC_C000_0000_0000_0000u128) | ((a & 0x3FFF_FFFF_FFFF_FFFFu128) | ((a
            >> 62u32) << 64u32))) != ((base & 0xFFFF_FFFF_FFFF_FFFC_C000_0000_0000_0000u128) | ((b
            & 0x3FFF_FFFF_FFFF_FFFFu128) | ((b >> 62u32) << 64u32))),
{
}

/// Why a graph could not be built.
#[derive(Debug, Clone, Copy, PartialEq, Eq, Structural)]
pub enum BuildError {
    /// The forward edges contain a cycle; feedback loops must use
    /// `connect_feedback`.
    Cycle,
    /// The destination id names no node of this builder.
    UnknownDestination,
}

/// The inputs of node `d` along forward edges: each source index, once per
/// edge into `d`, by source index and then by insertion order.
pub open spec fn forward_inputs(adj: Seq<Seq<usize>>, d: usize) -> Seq<usize>
    decreases adj.len(),
{
    if adj.len() == 0 {
        Seq::empty()
    } else {
        forward_inputs(adj.drop_last(), d) + copies_of_source(adj.last(), d, (adj.len() - 1) as usize)
    }
}

/// `s` once for each occurrence of `d` in `targets`.
pub open spec fn copies_of_source(targets: Seq<usize>, d: usize, s: usize) -> Seq<usize>
    decreases targets.len(),
{
    if targets.len() == 0 {
        Seq::empty()
    } else {
        let prev = copies_of_source(targets.drop_last(), d, s);
        if targets.last() == d {
            prev.push(s)
        } else {
            prev
        }
    }
}

/// The inputs of node `d` along feedback edges, in insertion order.
pub open spec fn feedback_inputs(feedback: Seq<(usize, usize)>, d: usize) -> Seq<usize>
    decreases feedback.len(),
{
    if feedback.len() == 0 {
        Seq::empty()
    } else {
        let prev = feedback_inputs(feedback.drop_last(), d);
        if feedback.last().1 == d {
            prev.push(feedback.last().0)
        } else {
            prev
        }
    }
}

/// Whether a feedback edge `(source, destination)` ends at node `d`.
pub open spec fn ends_at(d: usize) -> spec_fn((usize, usize)) -> bool {
    |e: (usize, usize)| e.1 == d
}

/// `x` is the source of a feedback edge that ends at `d`.
pub open spec fn is_edge_source(feedback: Seq<(usize, usize)>, d: usize, x: usize) -> bool {
    exists|k: int| 0 <= k < feedback.len() && (#[trigger] feedback[k]).1 == d && feedback[k].0 == x
}

/// Law: the feedback inputs of node `d` are the sources of the feedback
/// edges that end at `d`: one entry per such edge (so as many entries as
/// there are such edges), in the order in which the edges were added, and
/// nothing else. Every such edge's source is among them.
pub proof fn lemma_feedback_inputs_are_edge_sources(feedback: Seq<(usize, usize)>, d: usize)
    ensures
        feedback_inputs(feedback, d) == feedback.filter(ends_at(d)).map_values(|e: (usize, usize)| e.0),
        feedback_inputs(feedback, d).len() == feedback.filter(ends_at(d)).len(),
        forall|k: int|
            0 <= k < feedback.len() && (#[trigger] feedback[k]).1 == d ==> feedback_inputs(feedback, d).contains(
                feedback[k].0,
            ),
        forall|m: int|
            0 <= m < feedback_inputs(feedback, d).len() ==> is_edge_source(
                feedback,
                d,
                #[trigger] feedback_inputs(feedback, d)[m],
            ),
    decreases feedback.len(),
{
    if feedback.len() > 0 {
        let init = feedback.drop_last();
        lemma_feedback_inputs_are_edge_sources(init, d);
        let prev = feedback_inputs(init, d);
        let all = feedback_inputs(feedback, d);
        let e = feedback.last();
        reveal(Seq::filter);
        assert(feedback.filter(ends_at(d)) == if ends_at(d)(e) {
            init.filter(ends_at(d)).push(e)
        } else {
            init.filter(ends_at(d))
        });
        if e.1 == d {
            assert(all == prev.push(e.0));
            assert(feedback.filter(ends_at(d)).map_values(|e: (usize, usize)| e.0) =~= init.filter(
                ends_at(d),
            ).map_values(|e: (usize, usize)| e.0).push(e.0));
        } else {
            assert(all == prev);
        }
        assert forall|k: int|
            0 <= k < feedback.len() && (#[trigger] feedback[k]).1 == d implies all.contains(feedback[k].0) by {
            if k < feedback.len() - 1 {
                assert(init[k] == feedback[k]);
                let p = choose|p: int| 0 <= p < prev.len() && prev[p] == feedback[k].0;
                assert(all[p] == prev[p]);
            } else {
                assert(all[all.len() - 1] == e.0);
            }
        }
        assert forall|m: int| 0 <= m < all.len() implies is_edge_source(feedback, d, #[trigger] all[m]) by {
            if m < prev.len() {
                assert(all[m] == prev[m]);
                assert(is_edge_source(init, d, prev[m]));
                let k = choose|k: int| 0 <= k < init.len() && (#[trigger] init[k]).1 == d && init[k].0 == prev[m];
                assert(feedback[k] == init[k]);
            } else {
                assert(feedback[feedback.len() - 1] == e);
            }
        }
    } else {
        assert(feedback_inputs(feedback, d).len() == 0);
    }
}

/// Builder for constructing the audio processing graph.
///
/// `GraphBuilder` allows you to add nodes and define the connections (edges)
/// between them. It supports both standard forward connections and feedback loops.
pub struct GraphBuilder<N> {
    nodes: Vec<N>,
    edges: Vec<Vec<usize>>,
    feedback_edges: Vec<(usize, usize)>,
    id_to_index: HashMap<u128, usize>,
}

impl<N> GraphBuilder<N> {
    /// The nodes, by index.
    pub closed spec fn nodes_view(&self) -> Seq<N> {
        self.nodes@
    }

    /// For each node index, the targets of its forward edges in insertion order.
    pub closed spec fn adjacency(&self) -> Seq<Seq<usize>> {
        adjacency_of(self.edges@)
    }

    /// The feedback edges `(source, destination)` in insertion order.
    pub closed spec fn feedback(&self) -> Seq<(usize, usize)> {
        self.feedback_edges@
    }

    /// Node index of each identifier handed out by `add_node`.
    pub closed spec fn ids(&self) -> Map<u128, usize> {
        self.id_to_index@
    }

    /// Every edge and identifier refers to an existing node.
    pub closed spec fn wf(&self) -> bool {
        let n = self.nodes@.len();
        &&& self.edges@.len() == n
        &&& forall|s: int, m: int|
            0 <= s < n && 0 <= m < self.edges@[s]@.len() ==> #[trigger] self.edges@[s]@[m] < n
        &&& forall|k: int|
            0 <= k < self.feedback_edges@.len() ==> (#[trigger] self.feedback_edges@[k]).0 < n
                && self.feedback_edges@[k].1 < n
        &&& forall|id: u128| #[trigger] self.id_to_index@.contains_key(id) ==> self.id_to_index@[id] < n
        &&& self.id_to_index@.dom().len() <= n
    }

    /// What a well-formed builder guarantees: one adjacency list per node,
    /// every forward and feedback edge between existing nodes, and every
    /// identifier mapped to an existing node.
    pub proof fn lemma_wf_in_range(&self)
        requires
            self.wf(),
        ensures
            self.adjacency().len() == self.nodes_view().len(),
            forall|s: int, m: int|
                0 <= s < self.adjacency().len() && 0 <= m < self.adjacency()[s].len()
                    ==> #[trigger] self.adjacency()[s][m] < self.nodes_view().len(),
            forall|k: int|
                0 <= k < self.feedback().len() ==> (#[trigger] self.feedback()[k]).0 < self.nodes_view().len()
                    && self.feedback()[k].1 < self.nodes_view().len(),
            forall|id: u128|
                #[trigger] self.ids().contains_key(id) ==> self.ids()[id] < self.nodes_view().len(),
            self.ids().dom().finite(),
            self.ids().dom().len() <= self.nodes_view().len(),
    {
        assert forall|s: int, m: int|
            0 <= s < self.adjacency().len() && 0 <= m < self.adjacency()[s].len()
                implies #[trigger] self.adjacency()[s][m] < self.nodes_view().len() by {
            assert(self.adjacency()[s] == self.edges@[s]@);
        }
    }

    /// A random identifier that no node of this builder has yet. `uuid` gives
    /// a fresh one but for a clash of chance; on a clash the variants
    /// `0, 1, 2, ...` of the drawn identifier are tried, and since the builder
    /// holds fewer identifiers than there are variants, one of them is free.
    fn fresh_id(&self) -> (id: NodeId)
        requires
            self.wf(),
        ensures
            is_random_uuid(id.0),
            !self.ids().contains_key(id.0),
    {
        let raw = NodeId::new().0;
        if !self.id_to_index.contains_key(&raw) {
            return NodeId(raw);
        }
        let count: usize = self.nodes.len();
        let ghost dom = self.id_to_index@.dom();
        let ghost mut tried: Set<u128> = Set::empty();
        let mut k: usize = 0;
        let mut candidate = id_variant(raw, 0);
        while self.id_to_index.contains_key(&candidate)
            invariant
                dom == self.id_to_index@.dom(),
                dom.finite(),
                dom.len() <= count,
                is_random_uuid(raw),
                candidate == id_variant_spec(raw, k as u128),
                k <= dom.len(),
                tried.finite(),
                tried.len() == k,
                tried.subset_of(dom),
                forall|x: u128|
                    #[trigger] tried.contains(x) ==> exists|j: usize| j < k && x == #[trigger] id_variant_spec(raw, j as u128),
            decreases dom.len() - k,
        {
            proof {
                if tried.contains(candidate) {
                    let j = choose|j: usize| j < k && candidate == #[trigger] id_variant_spec(raw, j as u128);
                    lemma_id_variants_differ(raw, j as u128, k as u128);
                }
                let old_tried = tried;
                tried = tried.insert(candidate);
                assert forall|x: u128| #[trigger] tried.contains(x) implies exists|j: usize|
                    j < k + 1 && x == #[trigger] id_variant_spec(raw, j as u128) by {
                    if x == candidate {
                        assert(k < k + 1 && x == id_variant_spec(raw, k as u128));
                    } else {
                        assert(old_tried.contains(x));
                    }
                }
                vstd::set_lib::lemma_len_subset(tried, dom);
            }
            k = k + 1;
            candidate = id_variant(raw, k);
        }
        proof {
            lemma_id_variant_is_random(raw, k as u128);
        }
        NodeId(candidate)
    }

    /// An empty builder.
    pub fn new() -> (b: Self)
        ensures
            b.wf(),
            b.nodes_view() == Seq::<N>::empty(),
            b.adjacency() == Seq::<Seq<usize>>::empty(),
            b.feedback() == Seq::<(usize, usize)>::empty(),
            b.ids() == Map::<u128, usize>::empty(),
    {
        let b = GraphBuilder {
            nodes: Vec::new(),
            edges: Vec::new(),
            feedback_edges: Vec::new(),
            id_to_index: HashMap::new(),
        };
        assert(b.adjacency() =~= Seq::<Seq<usize>>::empty());
        b
    }

    /// Adds a node to the graph and returns its [`NodeId`], which no other
    /// node of the builder has.
    pub fn add_node(&mut self, node: N) -> (id: NodeId)
        requires
            old(self).wf(),
        ensures
            final(self).wf(),
            final(self).nodes_view() == old(self).nodes_view().push(node),
            final(self).adjacency() == old(self).adjacency().push(Seq::<usize>::empty()),
            final(self).feedback() == old(self).feedback(),
            final(self).ids() == old(self).ids().insert(id.0, old(self).nodes_view().len() as usize),
            !old(self).ids().contains_key(id.0),
            is_random_uuid(id.0),
    {
        let id = self.fresh_id();
        let index = self.nodes.len();
        self.nodes.push(node);
        self.edges.push(Vec::new());
        self.id_to_index.insert(id.0, index);
        assert(self.adjacency() =~= old(self).adjacency().push(Seq::<usize>::empty()));
        assert forall|s: int, m: int|
            0 <= s < self.nodes@.len() && 0 <= m < self.edges@[s]@.len() implies #[trigger] self.edges@[s]@[m]
                < self.nodes@.len() by {
            if s < index {
                assert(self.edges@[s] == old(self).edges@[s]);
            }
        }
        id
    }

    /// Connects the output of the source node to the input of the destination node.
    /// Ids that name no node of this builder are ignored.
    pub fn connect(&mut self, source: NodeId, destination: NodeId)
        requires
            old(self).wf(),
        ensures
            final(self).wf(),
            final(self).nodes_view() == old(self).nodes_view(),
            final(self).feedback() == old(self).feedback(),
            final(self).ids() == old(self).ids(),
            final(self).adjacency() == if old(self).ids().contains_key(source.0) && old(
                self,
            ).ids().contains_key(destination.0) {
                let s = old(self).ids()[source.0] as int;
                old(self).adjacency().update(
                    s,
                    old(self).adjacency()[s].push(old(self).ids()[destination.0]),
                )
            } else {
                old(self).adjacency()
            },
    {
        let src = self.id_to_index.get(&source.0);
        let dst = self.id_to_index.get(&destination.0);
        match (src, dst) {
            (Some(sr), Some(dr)) => {
                let s = *sr;
                let d = *dr;
                self.edges[s].push(d);
                assert(self.adjacency() =~= old(self).adjacency().update(
                    s as int,
                    old(self).adjacency()[s as int].push(d),
                ));
                assert forall|i: int, m: int|
                    0 <= i < self.nodes@.len() && 0 <= m < self.edges@[i]@.len() implies #[trigger] self.edges@[i]@[m]
                        < self.nodes@.len() by {
                    if i != s {
                        assert(self.edges@[i] == old(self).edges@[i]);
                    } else if m < old(self).edges@[i]@.len() {
                        assert(self.edges@[i]@[m] == old(self).edges@[i]@[m]);
                    }
                }
            },
            _ => {},
        }
    }

    /// Establishes a feedback connection (back-edge) between nodes.
    ///
    /// Feedback edges are excluded from topological sorting and introduce a 1-block delay.
    /// Use this for feedback loops (e.g., in delays or recursive filters).
    /// Ids that name no node of this builder are ignored.
    pub fn connect_feedback(&mut self, source: NodeId, destination: NodeId)
        requires
            old(self).wf(),
        ensures
            final(self).wf(),
            final(self).nodes_view() == old(self).nodes_view(),
            final(self).adjacency() == old(self).adjacency(),
            final(self).ids() == old(self).ids(),
            final(self).feedback() == if old(self).ids().contains_key(source.0) && old(
                self,
            ).ids().contains_key(destination.0) {
                old(self).feedback().push((old(self).ids()[source.0], old(self).ids()[destination.0]))
            } else {
                old(self).feedback()
            },
    {
        let src = self.id_to_index.get(&source.0);
        let dst = self.id_to_index.get(&destination.0);
        match (src, dst) {
            (Some(sr), Some(dr)) => {
                let s = *sr;
                let d = *dr;
                self.feedback_edges.push((s, d));
            },
            _ => {},
        }
    }
}

/// For each node index below `n`, its forward inputs, as `forward_inputs` states.
fn collect_forward_inputs(edges: &Vec<Vec<usize>>) -> (r: Vec<Vec<usize>>)
    requires
        forall|s: int, m: int|
            0 <= s < edges@.len() && 0 <= m < edges@[s]@.len() ==> #[trigger] edges@[s]@[m] < edges@.len(),
    ensures
        r@.len() == edges@.len(),
        forall|d: int| 0 <= d < edges@.len() ==> #[trigger] r@[d]@ == forward_inputs(adjacency_of(edges@), d as usize),
{
    let n = edges.len();
    let ghost adj = adjacency_of(edges@);
    let mut inputs_map: Vec<Vec<usize>> = Vec::new();
    let mut v: usize = 0;
    while v < n
        invariant
            v <= n,
            inputs_map@.len() == v,
            forall|d: int| 0 <= d < v ==> (#[trigger] inputs_map@[d])@ == Seq::<usize>::empty(),
        decreases n - v,
    {
        inputs_map.push(Vec::new());
        v = v + 1;
    }
    let mut src: usize = 0;
    while src < n
        invariant
            src <= n,
            n == edges@.len(),
            adj == adjacency_of(edges@),
            forall|s: int, m: int|
                0 <= s < edges@.len() && 0 <= m < edges@[s]@.len() ==> #[trigger] edges@[s]@[m]
                    < edges@.len(),
            inputs_map@.len() == n,
            forall|d: int|
                0 <= d < n ==> #[trigger] inputs_map@[d]@ == forward_inputs(adj.take(src as int), d as usize),
        decreases n - src,
    {
        let targets = &edges[src];
        assert(adj[src as int] == targets@);
        let mut j: usize = 0;
        while j < targets.len()
            invariant
                j <= targets@.len(),
                src < n,
                n == edges@.len(),
                targets@ == adj[src as int],
                forall|m: int| 0 <= m < targets@.len() ==> #[trigger] targets@[m] < n,
                inputs_map@.len() == n,
                forall|d: int|
                    0 <= d < n ==> #[trigger] inputs_map@[d]@ == forward_inputs(adj.take(src as int), d as usize)
                        + copies_of_source(targets@.take(j as int), d as usize, src),
            decreases targets@.len() - j,
        {
            let d0 = targets[j];
            let ghost t1 = targets@.take(j + 1);
            assert(t1.drop_last() =~= targets@.take(j as int));
            assert(t1.last() == d0);
            let ghost before = inputs_map@;
            inputs_map[d0].push(src);
            assert forall|d: int| 0 <= d < n implies #[trigger] inputs_map@[d]@ == forward_inputs(
                adj.take(src as int),
                d as usize,
            ) + copies_of_source(t1, d as usize, src) by {
                if d == d0 as int {
                    assert(inputs_map@[d]@ =~= before[d]@.push(src));
                } else {
                    assert(inputs_map@[d] == before[d]);
                }
            }
            j = j + 1;
        }
        assert(targets@.take(targets@.len() as int) =~= targets@);
        assert(adj.take(src + 1).drop_last() =~= adj.take(src as int));
        assert(adj.take(src + 1).last() == adj[src as int]);
        src = src + 1;
    }
    assert(adj.take(n as int) =~= adj);
    inputs_map
}

/// For each node index below `n`, its feedback inputs, as `feedback_inputs` states.
fn collect_feedback_inputs(feedback: &Vec<(usize, usize)>, n: usize) -> (r: Vec<Vec<usize>>)
    requires
        forall|k: int| 0 <= k < feedback@.len() ==> (#[trigger] feedback@[k]).1 < n,
    ensures
        r@.len() == n,
        forall|d: int| 0 <= d < n ==> #[trigger] r@[d]@ == feedback_inputs(feedback@, d as usize),
{
    let mut map: Vec<Vec<usize>> = Vec::new();
    let mut v: usize = 0;
    while v < n
        invariant
            v <= n,
            map@.len() == v,
            forall|d: int| 0 <= d < v ==> (#[trigger] map@[d])@ == Seq::<usize>::empty(),
        decreases n - v,
    {
        map.push(Vec::new());
        v = v + 1;
    }
    let mut k: usize = 0;
    while k < feedback.len()
        invariant
            k <= feedback@.len(),
            forall|k: int| 0 <= k < feedback@.len() ==> (#[trigger] feedback@[k]).1 < n,
            map@.len() == n,
            forall|d: int|
                0 <= d < n ==> #[trigger] map@[d]@ == feedback_inputs(feedback@.take(k as int), d as usize),
        decreases feedback@.len() - k,
    {
        let (s0, d0) = feedback[k];
        let ghost f1 = feedback@.take(k + 1);
        assert(f1.drop_last() =~= feedback@.take(k as int));
        assert(f1.last() == (s0, d0));
        let ghost before = map@;
        map[d0].push(s0);
        assert forall|d: int| 0 <= d < n implies #[trigger] map@[d]@ == feedback_inputs(f1, d as usize) by {
            if d == d0 as int {
                assert(map@[d]@ =~= before[d]@.push(s0));
            } else {
                assert(map@[d] == before[d]);
            }
        }
        k = k + 1;
    }
    assert(feedback@.take(feedback@.len() as int) =~= feedback@);
    map
}

/// Whether each node index below `n` is the source of a feedback edge.
fn feedback_source_flags(feedback: &Vec<(usize, usize)>, n: usize) -> (r: Vec<bool>)
    requires
        forall|k: int| 0 <= k < feedback@.len() ==> (#[trigger] feedback@[k]).0 < n,
    ensures
        r@.len() == n,
        forall|v: int| 0 <= v < n ==> #[trigger] r@[v] == is_feedback_source(feedback@, v as usize),
{
    let mut flags: Vec<bool> = Vec::new();
    let mut v: usize = 0;
    while v < n
        invariant
            v <= n,
            flags@.len() == v,
            forall|d: int| 0 <= d < v ==> !(#[trigger] flags@[d]),
        decreases n - v,
    {
        flags.push(false);
        v = v + 1;
    }
    let mut k: usize = 0;
    while k < feedback.len()
        invariant
            k <= feedback@.len(),
            forall|k: int| 0 <= k < feedback@.len() ==> (#[trigger] feedback@[k]).0 < n,
            flags@.len() == n,
            forall|v: int|
                0 <= v < n ==> #[trigger] flags@[v] == exists|j: int|
                    0 <= j < k && (#[trigger] feedback@[j]).0 == v as usize,
        decreases feedback@.len() - k,
    {
        let s0 = feedback[k].0;
        flags.set(s0, true);
        assert forall|v: int| 0 <= v < n implies #[trigger] flags@[v] == exists|j: int|
            0 <= j < k + 1 && (#[trigger] feedback@[j]).0 == v as usize by {
            if v == s0 as int {
                assert(feedback@[k as int].0 == v as usize);
            }
        }
        k = k + 1;
    }
    flags
}

/// The edges of a prefix of the adjacency lists are a prefix of all its edges.
proof fn lemma_flatten_prefix_len(adj: Seq<Seq<usize>>, a: int)
    requires
        0 <= a <= adj.len(),
    ensures
        flatten_edges(adj.take(a)).len() <= flatten_edges(adj).len(),
    decreases adj.len(),
{
    if a < adj.len() {
        assert(adj.drop_last().take(a) =~= adj.take(a));
        lemma_flatten_prefix_len(adj.drop_last(), a);
    } else {
        assert(adj.take(a) =~= adj);
    }
}

/// Each adjacency entry `s -> adj[s][m]` is one of the flattened edges.
proof fn lemma_flatten_contains(adj: Seq<Seq<usize>>, s: int, m: int)
    requires
        0 <= s < adj.len(),
        0 <= m < adj[s].len(),
    ensures
        exists|k: int|
            0 <= k < flatten_edges(adj).len() && #[trigger] flatten_edges(adj)[k] == (s as usize, adj[s][m]),
    decreases adj.len(),
{
    let prev = flatten_edges(adj.drop_last());
    let last = (adj.len() - 1) as usize;
    let tail = adj.last().map_values(|t: usize| (last, t));
    if s < adj.len() - 1 {
        assert(adj.drop_last()[s] == adj[s]);
        lemma_flatten_contains(adj.drop_last(), s, m);
        let k = choose|k: int| 0 <= k < prev.len() && #[trigger] prev[k] == (s as usize, adj[s][m]);
        assert(flatten_edges(adj)[k] == prev[k]);
    } else {
        assert(flatten_edges(adj)[prev.len() + m] == tail[m]);
    }
}

/// A node's output buffer is not taken over by any node that runs after it
/// and no later than one of its forward consumers.
pub open spec fn inputs_intact(order: Seq<usize>, adj: Seq<Seq<usize>>, assign: Seq<usize>) -> bool {
    forall|i: int, j: int, c: int, m: int|
        #![trigger order[i], order[j], order[c], adj[order[i] as int][m]]
        0 <= i < order.len() && 0 <= j < order.len() && 0 <= m < adj[order[i] as int].len()
            && adj[order[i] as int][m] == order[j] && i < c <= j ==> assign[order[c] as int]
            != assign[order[i] as int]
}

/// The output buffers of the destination and of every feedback source are
/// taken over by no node that runs after them.
pub open spec fn kept_to_end(
    order: Seq<usize>,
    feedback: Seq<(usize, usize)>,
    dest: usize,
    assign: Seq<usize>,
) -> bool {
    forall|i: int, c: int|
        #![trigger order[i], order[c]]
        0 <= i < c < order.len() && (order[i] == dest || is_feedback_source(feedback, order[i]))
            ==> assign[order[c] as int] != assign[order[i] as int]
}

/// The buffer ids that the planner gives a graph whose nodes run in `order`.
pub open spec fn planned_buffers(
    order: Seq<usize>,
    adj: Seq<Seq<usize>>,
    feedback: Seq<(usize, usize)>,
    dest: usize,
) -> AllocState {
    let n = adj.len();
    alloc_upto(order, last_use_table(order, adj, feedback, dest, n), n, n as int)
}

/// Law: with nodes run in a topological order, every node reads its forward
/// inputs before any other node overwrites them, and the destination and
/// feedback sources keep their outputs to the end of the pull.
pub proof fn lemma_planned_buffers_are_intact(
    order: Seq<usize>,
    adj: Seq<Seq<usize>>,
    feedback: Seq<(usize, usize)>,
    dest: usize,
)
    requires
        adj.len() <= usize::MAX,
        is_topological_order(order, adj.len(), flatten_edges(adj)),
        forall|s: int, m: int| 0 <= s < adj.len() && 0 <= m < adj[s].len() ==> #[trigger] adj[s][m] < adj.len(),
    ensures
        inputs_intact(order, adj, planned_buffers(order, adj, feedback, dest).assign),
        kept_to_end(order, feedback, dest, planned_buffers(order, adj, feedback, dest).assign),
        planned_buffers(order, adj, feedback, dest).next <= adj.len(),
        planned_buffers(order, adj, feedback, dest).assign.len() == adj.len(),
        forall|v: int|
            0 <= v < adj.len() ==> #[trigger] planned_buffers(order, adj, feedback, dest).assign[v]
                < planned_buffers(order, adj, feedback, dest).next,
{
    let n = adj.len();
    let lu = last_use_table(order, adj, feedback, dest, n);
    assert forall|i: int| 0 <= i < n implies lu[#[trigger] order[i] as int] >= i by {
        let node = order[i];
        assert(order.contains(node));
        let pos = position_in(order, node);
        assert(order[pos] == node);
        assert(order[i] == node);
        assert(pos == i);
        if !(node == dest || is_feedback_source(feedback, node)) {
            assert forall|m: int| 0 <= m < adj[node as int].len() implies order.contains(
                #[trigger] adj[node as int][m],
            ) by {
                assert(adj[node as int][m] < n);
            }
            lemma_max_target_position(order, adj[node as int], pos);
        }
    }
    lemma_buffer_reuse_is_safe(order, lu, n);
    let assign = planned_buffers(order, adj, feedback, dest).assign;
    assert forall|i: int, j: int, c: int, m: int|
        #![trigger order[i], order[j], order[c], adj[order[i] as int][m]]
        0 <= i < order.len() && 0 <= j < order.len() && 0 <= m < adj[order[i] as int].len()
            && adj[order[i] as int][m] == order[j] && i < c <= j implies assign[order[c] as int]
        != assign[order[i] as int] by {
        let v = order[i];
        lemma_flatten_contains(adj, v as int, m);
        let k = choose|k: int|
            0 <= k < flatten_edges(adj).len() && #[trigger] flatten_edges(adj)[k] == (v, adj[v as int][m]);
        assert(flatten_edges(adj)[k].0 == order[i] && flatten_edges(adj)[k].1 == order[j]);
        assert(i < j);
        let pos = position_in(order, v);
        assert(order.contains(v));
        assert(order[pos] == v);
        assert(pos == i);
        let pt = position_in(order, order[j]);
        assert(order.contains(order[j]));
        assert(order[pt] == order[j]);
        assert(pt == j);
        if !(v == dest || is_feedback_source(feedback, v)) {
            assert forall|mm: int| 0 <= mm < adj[v as int].len() implies order.contains(
                #[trigger] adj[v as int][mm],
            ) by {
                assert(adj[v as int][mm] < n);
            }
            lemma_max_target_position(order, adj[v as int], pos);
            assert(position_in(order, adj[v as int][m]) <= lu[v as int]);
        }
        assert(c <= lu[order[i] as int]);
        assert(order[c] == order[c]);
    }
    assert forall|i: int, c: int|
        #![trigger order[i], order[c]]
        0 <= i < c < order.len() && (order[i] == dest || is_feedback_source(feedback, order[i]))
            implies assign[order[c] as int] != assign[order[i] as int] by {
        assert(lu[order[i] as int] == usize::MAX);
    }
}

/// Fully static, zero-allocation audio runtime core: the nodes, the order in
/// which they run, the shared buffer each writes into, and the inputs each reads.
pub struct StaticGraph<N> {
    nodes: Vec<N>,
    buffer_assignment: Vec<usize>,
    buffers_count: usize,
    inputs_map: Vec<Vec<usize>>,
    feedback_inputs_map: Vec<Vec<usize>>,
    feedback_sources: Vec<bool>,
    final_destination_index: usize,
    id_to_index: HashMap<u128, usize>,
    execution_order: Vec<usize>,
}

impl<N> StaticGraph<N> {
    /// The nodes, by index.
    pub closed spec fn nodes_view(&self) -> Seq<N> {
        self.nodes@
    }

    /// Node indices in the order in which they run.
    pub closed spec fn order(&self) -> Seq<usize> {
        self.execution_order@
    }

    /// Shared buffer id of each node.
    pub closed spec fn assignment(&self) -> Seq<usize> {
        self.buffer_assignment@
    }

    /// Number of shared buffers.
    pub closed spec fn buffer_total(&self) -> nat {
        self.buffers_count as nat
    }

    /// Forward inputs of each node.
    pub closed spec fn inputs_view(&self) -> Seq<Seq<usize>> {
        adjacency_of(self.inputs_map@)
    }

    /// Feedback inputs of each node.
    pub closed spec fn feedback_inputs_view(&self) -> Seq<Seq<usize>> {
        adjacency_of(self.feedback_inputs_map@)
    }

    /// Whether each node's output is kept for the next pull.
    pub closed spec fn feedback_flags(&self) -> Seq<bool> {
        self.feedback_sources@
    }

    /// Index of the node whose output a pull returns.
    pub closed spec fn destination(&self) -> usize {
        self.final_destination_index
    }

    /// Node index of each identifier.
    pub closed spec fn ids(&self) -> Map<u128, usize> {
        self.id_to_index@
    }

    /// All indices and buffer ids are in range.
    pub closed spec fn wf(&self) -> bool {
        let n = self.nodes@.len();
        &&& is_node_permutation(self.execution_order@, n)
        &&& self.buffer_assignment@.len() == n
        &&& forall|v: int| 0 <= v < n ==> #[trigger] self.buffer_assignment@[v] < self.buffers_count
        &&& self.inputs_map@.len() == n
        &&& forall|d: int, m: int|
            0 <= d < n && 0 <= m < self.inputs_map@[d]@.len() ==> #[trigger] self.inputs_map@[d]@[m] < n
        &&& self.feedback_inputs_map@.len() == n
        &&& forall|d: int, m: int|
            0 <= d < n && 0 <= m < self.feedback_inputs_map@[d]@.len() ==> #[trigger] self.feedback_inputs_map@[d]@[m]
                < n
        &&& self.feedback_sources@.len() == n
        &&& self.final_destination_index < n
        &&& forall|id: u128| #[trigger] self.id_to_index@.contains_key(id) ==> self.id_to_index@[id] < n
    }

    /// What a well-formed graph guarantees: the execution order is a
    /// permutation of the nodes, every node has a buffer below the buffer
    /// count and input lists that name existing nodes, and the destination
    /// and every identifier refer to existing nodes.
    pub proof fn lemma_wf_in_range(&self)
        requires
            self.wf(),
        ensures
            is_node_permutation(self.order(), self.nodes_view().len()),
            self.assignment().len() == self.nodes_view().len(),
            forall|v: int| 0 <= v < self.nodes_view().len() ==> #[trigger] self.assignment()[v] < self.buffer_total(),
            self.inputs_view().len() == self.nodes_view().len(),
            self.feedback_inputs_view().len() == self.nodes_view().len(),
            self.feedback_flags().len() == self.nodes_view().len(),
            forall|d: int, m: int|
                0 <= d < self.nodes_view().len() && 0 <= m < self.inputs_view()[d].len()
                    ==> #[trigger] self.inputs_view()[d][m] < self.nodes_view().len(),
            forall|d: int, m: int|
                0 <= d < self.nodes_view().len() && 0 <= m < self.feedback_inputs_view()[d].len()
                    ==> #[trigger] self.feedback_inputs_view()[d][m] < self.nodes_view().len(),
            self.destination() < self.nodes_view().len(),
            forall|id: u128|
                #[trigger] self.ids().contains_key(id) ==> self.ids()[id] < self.nodes_view().len(),
    {
        assert forall|d: int, m: int|
            0 <= d < self.nodes_view().len() && 0 <= m < self.inputs_view()[d].len()
                implies #[trigger] self.inputs_view()[d][m] < self.nodes_view().len() by {
            assert(self.inputs_view()[d] == self.inputs_map@[d]@);
        }
        assert forall|d: int, m: int|
            0 <= d < self.nodes_view().len() && 0 <= m < self.feedback_inputs_view()[d].len()
                implies #[trigger] self.feedback_inputs_view()[d][m] < self.nodes_view().len() by {
            assert(self.feedback_inputs_view()[d] == self.feedback_inputs_map@[d]@);
        }
    }

    /// Number of nodes.
    pub fn node_count(&self) -> (r: usize)
        ensures
            r == self.nodes_view().len(),
    {
        self.nodes.len()
    }

    /// Node indices in the order in which they run.
    pub fn execution_order(&self) -> (r: &Vec<usize>)
        ensures
            r@ == self.order(),
    {
        &self.execution_order
    }

    /// Shared buffer id of node `i`.
    pub fn buffer_of(&self, i: usize) -> (r: usize)
        requires
            self.wf(),
            i < self.nodes_view().len(),
        ensures
            r == self.assignment()[i as int],
            r < self.buffer_total(),
    {
        self.buffer_assignment[i]
    }

    /// Number of shared buffers the runtime must allocate.
    pub fn buffers_count(&self) -> (r: usize)
        ensures
            r == self.buffer_total(),
    {
        self.buffers_count
    }

    /// Forward inputs of node `i`.
    pub fn inputs_of(&self, i: usize) -> (r: &Vec<usize>)
        requires
            self.wf(),
            i < self.nodes_view().len(),
        ensures
            r@ == self.inputs_view()[i as int],
            forall|m: int| 0 <= m < r@.len() ==> #[trigger] r@[m] < self.nodes_view().len(),
    {
        &self.inputs_map[i]
    }

    /// Feedback inputs of node `i`.
    pub fn feedback_inputs_of(&self, i: usize) -> (r: &Vec<usize>)
        requires
            self.wf(),
            i < self.nodes_view().len(),
        ensures
            r@ == self.feedback_inputs_view()[i as int],
            forall|m: int| 0 <= m < r@.len() ==> #[trigger] r@[m] < self.nodes_view().len(),
    {
        &self.feedback_inputs_map[i]
    }

    /// Whether the output of node `i` is kept for the next pull.
    pub fn is_feedback_source(&self, i: usize) -> (r: bool)
        requires
            self.wf(),
            i < self.nodes_view().len(),
        ensures
            r == self.feedback_flags()[i as int],
    {
        self.feedback_sources[i]
    }

    /// Index of the node whose output a pull returns.
    pub fn final_destination_index(&self) -> (r: usize)
        requires
            self.wf(),
        ensures
            r == self.destination(),
            r < self.nodes_view().len(),
    {
        self.final_destination_index
    }

    /// Index of the node with the given id, if any.
    pub fn node_index(&self, id: NodeId) -> (r: Option<usize>)
        requires
            self.wf(),
        ensures
            r == if self.ids().contains_key(id.0) {
                Some(self.ids()[id.0])
            } else {
                None::<usize>
            },
            r matches Some(i) ==> i < self.nodes_view().len(),
    {
        match self.id_to_index.get(&id.0) {
            Some(i) => Some(*i),
            None => None,
        }
    }

    /// The node at index `i`, for processing or a parameter update.
    pub fn node_mut(&mut self, i: usize) -> (r: &mut N)
        requires
            i < old(self).nodes_view().len(),
        ensures
            *r == old(self).nodes_view()[i as int],
            final(self).nodes_view() == old(self).nodes_view().update(i as int, *final(r)),
            final(self).order() == old(self).order(),
            final(self).assignment() == old(self).assignment(),
            final(self).buffer_total() == old(self).buffer_total(),
            final(self).inputs_view() == old(self).inputs_view(),
            final(self).feedback_inputs_view() == old(self).feedback_inputs_view(),
            final(self).feedback_flags() == old(self).feedback_flags(),
            final(self).destination() == old(self).destination(),
            final(self).ids() == old(self).ids(),
            old(self).wf() ==> final(self).wf(),
    {
        &mut self.nodes[i]
    }
}

impl<N> GraphBuilder<N> {
    /// Number of nodes added so far.
    pub open spec fn node_total(&self) -> nat {
        self.nodes_view().len()
    }

    /// The builder fits `petgraph`'s `u32` node and edge indices.
    pub open spec fn within_index_limits(&self) -> bool {
        &&& self.node_total() < u32::MAX
        &&& flatten_edges(self.adjacency()).len() < u32::MAX
    }

    /// Number of nodes added so far.
    pub fn node_count(&self) -> (r: usize)
        ensures
            r == self.node_total(),
    {
        self.nodes.len()
    }

    /// Whether the graph fits `petgraph`'s `u32` node and edge indices, which
    /// `build` and `try_build` need.
    pub fn fits_index_limits(&self) -> (r: bool)
        requires
            self.wf(),
        ensures
            r == self.within_index_limits(),
    {
        let n = self.nodes.len();
        if n >= 0xFFFF_FFFF {
            return false;
        }
        let ghost adj = self.adjacency();
        let mut total: u64 = 0;
        let mut src: usize = 0;
        while src < n
            invariant
                src <= n,
                n == self.edges@.len(),
                adj == self.adjacency(),
                total == flatten_edges(adj.take(src as int)).len(),
                total < 0xFFFF_FFFF,
            decreases n - src,
        {
            let len = self.edges[src].len();
            proof {
                lemma_flatten_len_step(adj, src as int);
            }
            if len as u64 >= 0xFFFF_FFFFu64 - total {
                proof {
                    lemma_flatten_prefix_len(adj, src + 1);
                }
                return false;
            }
            total = total + len as u64;
            src = src + 1;
        }
        assert(adj.take(n as int) =~= adj);
        true
    }

    /// Sorts the forward edges with `petgraph`.
    fn sorted_order(&self) -> (r: Option<Vec<usize>>)
        requires
            self.wf(),
            self.within_index_limits(),
        ensures
            toposort_result(self.node_total(), flatten_edges(self.adjacency())) == (match r {
                Some(o) => Some(o@),
                None => None::<Seq<usize>>,
            }),
            r matches Some(o) ==> is_topological_order(o@, self.node_total(), flatten_edges(self.adjacency())),
            r is None <==> !is_acyclic(self.node_total(), flatten_edges(self.adjacency())),
    {
        let n = self.nodes.len();
        let ghost adj = self.adjacency();
        let mut g = dag_new();
        let mut i: usize = 0;
        while i < n
            invariant
                i <= n,
                n < u32::MAX,
                dag_node_count(g) == i,
                dag_edges(g) == Seq::<(usize, usize)>::empty(),
            decreases n - i,
        {
            dag_add_node(&mut g);
            i = i + 1;
        }
        let mut src: usize = 0;
        while src < n
            invariant
                src <= n,
                n == self.nodes@.len(),
                self.wf(),
                adj == self.adjacency(),
                flatten_edges(adj).len() < u32::MAX,
                dag_node_count(g) == n,
                dag_edges(g) == flatten_edges(adj.take(src as int)),
            decreases n - src,
        {
            let targets = &self.edges[src];
            assert(adj[src as int] == targets@);
            proof {
                lemma_flatten_prefix_len(adj, src + 1);
                assert(adj.take(src + 1).drop_last() =~= adj.take(src as int));
                assert(adj.take(src + 1).last() == adj[src as int]);
            }
            let mut j: usize = 0;
            while j < targets.len()
                invariant
                    j <= targets@.len(),
                    src < n,
                    n == self.nodes@.len(),
                    self.wf(),
                    targets@ == self.edges@[src as int]@,
                    flatten_edges(adj.take(src as int)).len() + targets@.len() < u32::MAX,
                    dag_node_count(g) == n,
                    dag_edges(g) == flatten_edges(adj.take(src as int)) + targets@.take(j as int).map_values(|t: usize| (src, t)),
                decreases targets@.len() - j,
            {
                let t = targets[j];
                dag_add_edge(&mut g, src, t);
                assert(targets@.take(j + 1)[j as int] == t);
                assert(targets@.take(j + 1).map_values(|t: usize| (src, t)) =~= targets@.take(j as int).map_values(|t: usize| (src, t)).push((src, t)));
                j = j + 1;
            }
            assert(targets@.take(targets@.len() as int) =~= targets@);
            assert(flatten_edges(adj.take(src + 1)) =~= flatten_edges(adj.take(src as int)) + targets@.map_values(|t: usize| (src, t)));
            src = src + 1;
        }
        assert(adj.take(n as int) =~= adj);
        let r = dag_toposort(&g);
        if let Some(o) = &r {
            assert(is_topological_order(o@, self.node_total(), flatten_edges(adj)));
        }
        r
    }

    /// Turns the builder into a [`StaticGraph`] whose nodes run in `order`, a
    /// topological order of its forward edges, towards node `dest_idx`.
    pub fn build_in_order(self, order: Vec<usize>, dest_idx: usize) -> (g: StaticGraph<N>)
        requires
            self.wf(),
            is_topological_order(order@, self.node_total(), flatten_edges(self.adjacency())),
            dest_idx < self.node_total(),
        ensures
            g.wf(),
            g.nodes_view() == self.nodes_view(),
            g.ids() == self.ids(),
            g.order() == order@,
            g.destination() == dest_idx,
            g.assignment() == planned_buffers(order@, self.adjacency(), self.feedback(), dest_idx).assign,
            g.buffer_total() == planned_buffers(order@, self.adjacency(), self.feedback(), dest_idx).next,
            g.inputs_view().len() == self.node_total(),
            forall|d: int| 0 <= d < self.node_total() ==> #[trigger] g.inputs_view()[d] == forward_inputs(self.adjacency(), d as usize),
            g.feedback_inputs_view().len() == self.node_total(),
            forall|d: int| 0 <= d < self.node_total() ==> #[trigger] g.feedback_inputs_view()[d] == feedback_inputs(self.feedback(), d as usize),
            g.feedback_flags().len() == self.node_total(),
            forall|v: int| 0 <= v < self.node_total() ==> #[trigger] g.feedback_flags()[v] == is_feedback_source(self.feedback(), v as usize),
            inputs_intact(g.order(), self.adjacency(), g.assignment()),
            kept_to_end(g.order(), self.feedback(), dest_idx, g.assignment()),
    {
        let ghost adj = self.adjacency();
        let ghost fb = self.feedback();
        let n = self.nodes.len();
        let last_usage = compute_last_usage(&order, &self.edges, &self.feedback_edges, dest_idx);
        let (buffer_assignment, buffers_count) = plan_buffers(&order, &last_usage);
        proof {
            lemma_planned_buffers_are_intact(order@, adj, fb, dest_idx);
        }
        let inputs_map = collect_forward_inputs(&self.edges);
        let feedback_inputs_map = collect_feedback_inputs(&self.feedback_edges, n);
        let feedback_sources = feedback_source_flags(&self.feedback_edges, n);
        let g = StaticGraph {
            nodes: self.nodes,
            buffer_assignment,
            buffers_count,
            inputs_map,
            feedback_inputs_map,
            feedback_sources,
            final_destination_index: dest_idx,
            id_to_index: self.id_to_index,
            execution_order: order,
        };
        assert forall|d: int, m: int|
            0 <= d < n && 0 <= m < g.inputs_map@[d]@.len() implies #[trigger] g.inputs_map@[d]@[m] < n by {
            lemma_forward_inputs_in_range(adj, d as usize, n as nat);
        }
        assert forall|d: int, m: int|
            0 <= d < n && 0 <= m < g.feedback_inputs_map@[d]@.len() implies #[trigger] g.feedback_inputs_map@[d]@[m] < n by {
            lemma_feedback_inputs_in_range(fb, d as usize, n as nat);
        }
        g
    }

    /// Topological sorting and generation of the [`StaticGraph`] with buffer
    /// reuse optimization, for a graph whose forward edges form no cycle and
    /// whose destination is one of its nodes.
    pub fn build(self, destination_id: NodeId) -> (g: StaticGraph<N>)
        requires
            self.wf(),
            self.within_index_limits(),
            is_acyclic(self.node_total(), flatten_edges(self.adjacency())),
            self.ids().contains_key(destination_id.0),
        ensures
            g.wf(),
            self.built_as(destination_id, g),
    {
        let order = self.sorted_order().unwrap();
        let dest_idx = *self.id_to_index.get(&destination_id.0).unwrap();
        self.build_in_order(order, dest_idx)
    }

    /// Like [`GraphBuilder::build`], but reports a cycle among the forward
    /// edges, or an unknown destination, as an error.
    pub fn try_build(self, destination_id: NodeId) -> (r: Result<StaticGraph<N>, BuildError>)
        requires
            self.wf(),
            self.within_index_limits(),
        ensures
            match r {
                Ok(g) => {
                    &&& is_acyclic(self.node_total(), flatten_edges(self.adjacency()))
                    &&& self.ids().contains_key(destination_id.0)
                    &&& g.wf()
                    &&& self.built_as(destination_id, g)
                },
                Err(BuildError::Cycle) => !is_acyclic(self.node_total(), flatten_edges(self.adjacency())),
                Err(BuildError::UnknownDestination) => {
                    &&& is_acyclic(self.node_total(), flatten_edges(self.adjacency()))
                    &&& !self.ids().contains_key(destination_id.0)
                },
            },
    {
        match self.sorted_order() {
            None => Err(BuildError::Cycle),
            Some(order) => match self.id_to_index.get(&destination_id.0) {
                None => Err(BuildError::UnknownDestination),
                Some(d) => {
                    let dest_idx = *d;
                    Ok(self.build_in_order(order, dest_idx))
                },
            },
        }
    }

    /// `g` is what building this builder towards `destination_id` gives: the
    /// same nodes and ids, `petgraph`'s order of the forward edges, the
    /// planned buffers, and the forward and feedback inputs of each node.
    pub open spec fn built_as(&self, destination_id: NodeId, g: StaticGraph<N>) -> bool {
        let adj = self.adjacency();
        let fb = self.feedback();
        let n = self.node_total();
        let dest = self.ids()[destination_id.0];
        &&& g.nodes_view() == self.nodes_view()
        &&& g.ids() == self.ids()
        &&& toposort_result(n, flatten_edges(adj)) == Some(g.order())
        &&& is_topological_order(g.order(), n, flatten_edges(adj))
        &&& g.destination() == dest
        &&& g.assignment() == planned_buffers(g.order(), adj, fb, dest).assign
        &&& g.buffer_total() == planned_buffers(g.order(), adj, fb, dest).next
        &&& g.inputs_view().len() == n
        &&& (forall|d: int| 0 <= d < n ==> #[trigger] g.inputs_view()[d] == forward_inputs(adj, d as usize))
        &&& g.feedback_inputs_view().len() == n
        &&& (forall|d: int| 0 <= d < n ==> #[trigger] g.feedback_inputs_view()[d] == feedback_inputs(fb, d as usize))
        &&& g.feedback_flags().len() == n
        &&& (forall|v: int| 0 <= v < n ==> #[trigger] g.feedback_flags()[v] == is_feedback_source(fb, v as usize))
        &&& inputs_intact(g.order(), adj, g.assignment())
        &&& kept_to_end(g.order(), fb, dest, g.assignment())
    }
}

impl<N> Default for GraphBuilder<N> {
    fn default() -> (b: Self)
        ensures
            b.wf(),
            b.nodes_view() == Seq::<N>::empty(),
            b.adjacency() == Seq::<Seq<usize>>::empty(),
            b.feedback() == Seq::<(usize, usize)>::empty(),
            b.ids() == Map::<u128, usize>::empty(),
    {
        Self::new()
    }
}

/// Every forward input of `d` is a node index below `n`.
proof fn lemma_forward_inputs_in_range(adj: Seq<Seq<usize>>, d: usize, n: nat)
    requires
        adj.len() <= n,
    ensures
        forall|m: int| 0 <= m < forward_inputs(adj, d).len() ==> #[trigger] forward_inputs(adj, d)[m] < n,
    decreases adj.len(),
{
    if adj.len() > 0 {
        lemma_forward_inputs_in_range(adj.drop_last(), d, n);
        lemma_copies_value(adj.last(), d, (adj.len() - 1) as usize);
        let prev = forward_inputs(adj.drop_last(), d);
        let c = copies_of_source(adj.last(), d, (adj.len() - 1) as usize);
        assert forall|m: int| 0 <= m < forward_inputs(adj, d).len() implies #[trigger] forward_inputs(adj, d)[m] < n by {
            if m < prev.len() {
                assert(forward_inputs(adj, d)[m] == prev[m]);
            } else {
                assert(forward_inputs(adj, d)[m] == c[m - prev.len()]);
            }
        }
    }
}

/// Every entry of `copies_of_source(targets, d, s)` is `s`.
proof fn lemma_copies_value(targets: Seq<usize>, d: usize, s: usize)
    ensures
        forall|m: int| 0 <= m < copies_of_source(targets, d, s).len() ==> #[trigger] copies_of_source(targets, d, s)[m] == s,
    decreases targets.len(),
{
    if targets.len() > 0 {
        lemma_copies_value(targets.drop_last(), d, s);
        let prev = copies_of_source(targets.drop_last(), d, s);
        assert forall|m: int| 0 <= m < copies_of_source(targets, d, s).len() implies #[trigger] copies_of_source(targets, d, s)[m] == s by {
            if targets.last() == d {
                assert(copies_of_source(targets, d, s) == prev.push(s));
                if m < prev.len() {
                    assert(copies_of_source(targets, d, s)[m] == prev[m]);
                }
            }
        }
    }
}

/// Every feedback input of `d` is a node index below `n`.
proof fn lemma_feedback_inputs_in_range(fb: Seq<(usize, usize)>, d: usize, n: nat)
    requires
        forall|k: int| 0 <= k < fb.len() ==> (#[trigger] fb[k]).0 < n,
    ensures
        forall|m: int| 0 <= m < feedback_inputs(fb, d).len() ==> #[trigger] feedback_inputs(fb, d)[m] < n,
    decreases fb.len(),
{
    if fb.len() > 0 {
        assert forall|k: int| 0 <= k < fb.drop_last().len() implies (#[trigger] fb.drop_last()[k]).0 < n by {
            assert(fb.drop_last()[k] == fb[k]);
        }
        lemma_feedback_inputs_in_range(fb.drop_last(), d, n);
        assert(fb.last() == fb[fb.len() - 1]);
        let prev = feedback_inputs(fb.drop_last(), d);
        assert forall|m: int| 0 <= m < feedback_inputs(fb, d).len() implies #[trigger] feedback_inputs(fb, d)[m] < n by {
            if fb.last().1 == d {
                assert(feedback_inputs(fb, d) == prev.push(fb.last().0));
                if m < prev.len() {
                    assert(feedback_inputs(fb, d)[m] == prev[m]);
                }
            }
        }
    }
}

/// Law: node `s` is a forward input of node `d` exactly when `s` has a
/// forward edge to `d`.
pub proof fn lemma_forward_inputs_members(adj: Seq<Seq<usize>>, d: usize, s: usize)
    requires
        adj.len() <= usize::MAX + 1,
    ensures
        forward_inputs(adj, d).contains(s) <==> (s < adj.len() && adj[s as int].contains(d)),
    decreases adj.len(),
{
    if adj.len() > 0 {
        let last = (adj.len() - 1) as usize;
        let prev = forward_inputs(adj.drop_last(), d);
        let c = copies_of_source(adj.last(), d, last);
        lemma_forward_inputs_members(adj.drop_last(), d, s);
        lemma_copies_value(adj.last(), d, last);
        lemma_copies_nonempty(adj.last(), d, last);
        let all = forward_inputs(adj, d);
        assert(all == prev + c);
        if all.contains(s) {
            let k = choose|k: int| 0 <= k < all.len() && all[k] == s;
            if k < prev.len() {
                assert(prev[k] == s);
                assert(adj.drop_last()[s as int] == adj[s as int]);
            } else {
                assert(c[k - prev.len()] == s);
                assert(c.len() > 0);
            }
        }
        if s < adj.len() && adj[s as int].contains(d) {
            if s < last {
                assert(adj.drop_last()[s as int] == adj[s as int]);
                assert(prev.contains(s));
                let k = choose|k: int| 0 <= k < prev.len() && prev[k] == s;
                assert(all[k] == s);
            } else {
                assert(c.len() > 0);
                assert(all[prev.len() as int] == c[0]);
            }
        }
    }
}

/// `copies_of_source(targets, d, s)` is non-empty exactly when `d` is a target.
proof fn lemma_copies_nonempty(targets: Seq<usize>, d: usize, s: usize)
    ensures
        copies_of_source(targets, d, s).len() > 0 <==> targets.contains(d),
    decreases targets.len(),
{
    if targets.len() > 0 {
        lemma_copies_nonempty(targets.drop_last(), d, s);
        if targets.drop_last().contains(d) {
            let k = choose|k: int| 0 <= k < targets.drop_last().len() && targets.drop_last()[k] == d;
            assert(targets[k] == d);
        }
        if targets.contains(d) && targets.last() != d {
            let k = choose|k: int| 0 <= k < targets.len() && targets[k] == d;
            assert(targets.drop_last()[k] == d);
        }
        if targets.last() == d {
            assert(targets[targets.len() - 1] == d);
        }
    }
}

/// Law: feedback edges take no part in the execution order: two builders
/// with the same nodes and forward edges run their nodes in the same order,
/// whatever their feedback edges and destinations.
pub proof fn lemma_feedback_does_not_change_order<N>(
    b1: GraphBuilder<N>,
    b2: GraphBuilder<N>,
    d1: NodeId,
    d2: NodeId,
    g1: StaticGraph<N>,
    g2: StaticGraph<N>,
)
    requires
        b1.node_total() == b2.node_total(),
        b1.adjacency() == b2.adjacency(),
        b1.built_as(d1, g1),
        b2.built_as(d2, g2),
    ensures
        g1.order() == g2.order(),
{
}

/// Number of edges in the first `src` adjacency lists.
proof fn lemma_flatten_len_step(adj: Seq<Seq<usize>>, src: int)
    requires
        0 <= src < adj.len(),
    ensures
        flatten_edges(adj.take(src + 1)).len() == flatten_edges(adj.take(src)).len() + adj[src].len(),
{
    assert(adj.take(src + 1).drop_last() =~= adj.take(src));
    assert(adj.take(src + 1).last() == adj[src]);
}

/// Every forward edge `s -> adj[s][t]` runs its source first.
pub proof fn lemma_edge_respected(order: Seq<usize>, adj: Seq<Seq<usize>>, s: usize, t: int)
    requires
        is_topological_order(order, adj.len(), flatten_edges(adj)),
        s < adj.len(),
        0 <= t < adj[s as int].len(),
    ensures
        forall|i: int, j: int|
            0 <= i < order.len() && 0 <= j < order.len() && #[trigger] order[i] == s && #[trigger] order[j]
                == adj[s as int][t] ==> i < j,
{
    lemma_flatten_contains(adj, s as int, t);
    let k = choose|k: int|
        0 <= k < flatten_edges(adj).len() && #[trigger] flatten_edges(adj)[k] == (s, adj[s as int][t]);
    assert forall|i: int, j: int|
        0 <= i < order.len() && 0 <= j < order.len() && #[trigger] order[i] == s && #[trigger] order[j]
            == adj[s as int][t] implies i < j by {
        assert(order[i] == flatten_edges(adj)[k].0 && order[j] == flatten_edges(adj)[k].1);
    }
}

} // verus!
