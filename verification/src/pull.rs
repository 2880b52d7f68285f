//! What one pull of a planned graph computes.
//!
//! A pull runs the nodes in execution order; each node computes its output
//! from the outputs of its forward inputs. This module models a pull in
//! which nodes share the planned buffers and one in which every node has a
//! buffer of its own, and proves that they compute the same values, in one
//! pull and over any number of pulls with feedback and stateful nodes.
use crate::buffers::is_feedback_source;
use crate::graph::{
    feedback_inputs, forward_inputs, inputs_intact, kept_to_end, lemma_edge_respected, lemma_forward_inputs_members,
    lemma_planned_buffers_are_intact, planned_buffers,
};
use crate::topology::{flatten_edges, is_topological_order};
use vstd::prelude::*;

verus! {

/// The values that `vals` holds at the positions `sources`.
pub open spec fn read_values<V>(vals: Seq<V>, sources: Seq<usize>) -> Seq<V> {
    sources.map_values(|s: usize| vals[s as int])
}

/// The buffer of each of `sources`.
pub open spec fn buffers_of(assign: Seq<usize>, sources: Seq<usize>) -> Seq<usize> {
    sources.map_values(|s: usize| assign[s as int])
}

/// Node outputs after the first `k` steps of a pull in which every node has
/// its own buffer: node `v` outputs `f(v, values of its forward inputs)`.
pub open spec fn private_pull<V>(
    order: Seq<usize>,
    adj: Seq<Seq<usize>>,
    f: spec_fn(usize, Seq<V>) -> V,
    init: Seq<V>,
    k: int,
) -> Seq<V>
    decreases k,
{
    if k <= 0 {
        init
    } else {
        let prev = private_pull(order, adj, f, init, k - 1);
        let v = order[k - 1];
        prev.update(v as int, f(v, read_values(prev, forward_inputs(adj, v))))
    }
}

/// Buffer contents after the first `k` steps of a pull in which node `v`
/// reads its inputs from, and writes its output to, the shared buffers `assign`.
pub open spec fn shared_pull<V>(
    order: Seq<usize>,
    adj: Seq<Seq<usize>>,
    assign: Seq<usize>,
    f: spec_fn(usize, Seq<V>) -> V,
    bufs: Seq<V>,
    k: int,
) -> Seq<V>
    decreases k,
{
    if k <= 0 {
        bufs
    } else {
        let prev = shared_pull(order, adj, assign, f, bufs, k - 1);
        let v = order[k - 1];
        prev.update(
            assign[v as int] as int,
            f(v, read_values(prev, buffers_of(assign, forward_inputs(adj, v)))),
        )
    }
}

/// No node placed after step `i` and before step `k` shares the buffer of `order[i]`.
pub open spec fn untouched_between(order: Seq<usize>, assign: Seq<usize>, i: int, k: int) -> bool {
    forall|c: int| i < c < k ==> assign[#[trigger] order[c] as int] != assign[order[i] as int]
}

/// What the two pulls need of the graph and the buffers.
pub open spec fn pull_inputs_ok<V>(
    order: Seq<usize>,
    adj: Seq<Seq<usize>>,
    assign: Seq<usize>,
    init: Seq<V>,
    bufs: Seq<V>,
) -> bool {
    &&& adj.len() <= usize::MAX
    &&& is_topological_order(order, adj.len(), flatten_edges(adj))
    &&& forall|s: int, m: int| 0 <= s < adj.len() && 0 <= m < adj[s].len() ==> #[trigger] adj[s][m] < adj.len()
    &&& assign.len() == adj.len()
    &&& forall|v: int| 0 <= v < adj.len() ==> #[trigger] assign[v] < bufs.len()
    &&& init.len() == adj.len()
    &&& inputs_intact(order, adj, assign)
}

/// Each step of the two pulls, by induction: the inputs a node reads agree,
/// and every buffer not yet taken over holds its node's output.
proof fn lemma_pulls_agree_upto<V>(
    order: Seq<usize>,
    adj: Seq<Seq<usize>>,
    assign: Seq<usize>,
    f: spec_fn(usize, Seq<V>) -> V,
    init: Seq<V>,
    bufs: Seq<V>,
    k: int,
)
    requires
        pull_inputs_ok(order, adj, assign, init, bufs),
        0 <= k <= adj.len(),
    ensures
        shared_pull(order, adj, assign, f, bufs, k).len() == bufs.len(),
        private_pull(order, adj, f, init, k).len() == adj.len(),
        forall|i: int|
            0 <= i < k && untouched_between(order, assign, i, k) ==> shared_pull(order, adj, assign, f, bufs, k)[assign[#[trigger] order[i] as int] as int]
                == private_pull(order, adj, f, init, k)[order[i] as int],
    decreases k,
{
    let n = adj.len();
    let sh = shared_pull(order, adj, assign, f, bufs, k);
    let pr = private_pull(order, adj, f, init, k);
    if k > 0 {
        lemma_pulls_agree_upto(order, adj, assign, f, init, bufs, k - 1);
        let sh0 = shared_pull(order, adj, assign, f, bufs, k - 1);
        let pr0 = private_pull(order, adj, f, init, k - 1);
        let v = order[k - 1];
        assert(order[k - 1] < n);
        assert(assign[v as int] < bufs.len());
        assert forall|i: int|
            0 <= i < k && untouched_between(order, assign, i, k) implies sh[assign[#[trigger] order[i] as int] as int]
            == pr[order[i] as int] by {
            if i < k - 1 {
                assert(order[i] != order[k - 1]);
                assert(assign[order[k - 1] as int] != assign[order[i] as int]);
                assert(untouched_between(order, assign, i, k - 1));
                assert(order[i] < n);
            } else {
                lemma_reads_agree(order, adj, assign, f, init, bufs, k - 1);
            }
        }
    }
}

/// At step `k`, a node reads from the shared buffers exactly the values its
/// inputs hold in the private pull.
proof fn lemma_reads_agree<V>(
    order: Seq<usize>,
    adj: Seq<Seq<usize>>,
    assign: Seq<usize>,
    f: spec_fn(usize, Seq<V>) -> V,
    init: Seq<V>,
    bufs: Seq<V>,
    k: int,
)
    requires
        pull_inputs_ok(order, adj, assign, init, bufs),
        0 <= k < adj.len(),
        shared_pull(order, adj, assign, f, bufs, k).len() == bufs.len(),
        private_pull(order, adj, f, init, k).len() == adj.len(),
        forall|i: int|
            0 <= i < k && untouched_between(order, assign, i, k) ==> shared_pull(order, adj, assign, f, bufs, k)[assign[#[trigger] order[i] as int] as int]
                == private_pull(order, adj, f, init, k)[order[i] as int],
    ensures
        read_values(
            shared_pull(order, adj, assign, f, bufs, k),
            buffers_of(assign, forward_inputs(adj, order[k])),
        ) == read_values(private_pull(order, adj, f, init, k), forward_inputs(adj, order[k])),
{
    let n = adj.len();
    let sh = shared_pull(order, adj, assign, f, bufs, k);
    let pr = private_pull(order, adj, f, init, k);
    let v = order[k];
    let ins = forward_inputs(adj, v);
    let lhs = read_values(sh, buffers_of(assign, ins));
    let rhs = read_values(pr, ins);
    assert forall|m: int| 0 <= m < ins.len() implies lhs[m] == rhs[m] by {
        let s = ins[m];
        assert(ins.contains(s));
        lemma_forward_inputs_members(adj, v, s);
        let t = choose|t: int| 0 <= t < adj[s as int].len() && adj[s as int][t] == v;
        assert(order.contains(s));
        let i = choose|i: int| 0 <= i < order.len() && order[i] == s;
        lemma_edge_respected(order, adj, s, t);
        assert(i < k);
        assert forall|c: int| i < c < k implies assign[#[trigger] order[c] as int] != assign[order[i] as int] by {
            assert(adj[order[i] as int][t] == order[k]);
        }
        assert(untouched_between(order, assign, i, k));
    }
    assert(lhs =~= rhs);
}

/// Law: a pull over the planned shared buffers computes exactly what a pull
/// with one buffer per node computes: every node reads the same input values
/// (and so produces the same output), and when the pull ends the buffers of
/// the destination and of every feedback source hold those nodes' outputs.
pub proof fn lemma_shared_pull_matches_private<V>(
    order: Seq<usize>,
    adj: Seq<Seq<usize>>,
    feedback: Seq<(usize, usize)>,
    dest: usize,
    f: spec_fn(usize, Seq<V>) -> V,
    init: Seq<V>,
    bufs: Seq<V>,
)
    requires
        adj.len() <= usize::MAX,
        is_topological_order(order, adj.len(), flatten_edges(adj)),
        forall|s: int, m: int| 0 <= s < adj.len() && 0 <= m < adj[s].len() ==> #[trigger] adj[s][m] < adj.len(),
        init.len() == adj.len(),
        bufs.len() == planned_buffers(order, adj, feedback, dest).next,
    ensures
        forall|k: int|
            0 <= k < adj.len() ==> #[trigger] read_values(
                shared_pull(order, adj, planned_buffers(order, adj, feedback, dest).assign, f, bufs, k),
                buffers_of(planned_buffers(order, adj, feedback, dest).assign, forward_inputs(adj, order[k])),
            ) == read_values(private_pull(order, adj, f, init, k), forward_inputs(adj, order[k])),
        forall|i: int|
            0 <= i < adj.len() && (order[i] == dest || is_feedback_source(feedback, order[i]))
                ==> shared_pull(
                order,
                adj,
                planned_buffers(order, adj, feedback, dest).assign,
                f,
                bufs,
                adj.len() as int,
            )[planned_buffers(order, adj, feedback, dest).assign[#[trigger] order[i] as int] as int]
                == private_pull(order, adj, f, init, adj.len() as int)[order[i] as int],
{
    let n = adj.len();
    let assign = planned_buffers(order, adj, feedback, dest).assign;
    lemma_planned_buffers_are_intact(order, adj, feedback, dest);
    assert(pull_inputs_ok(order, adj, assign, init, bufs));
    assert forall|k: int| 0 <= k < n implies #[trigger] read_values(
        shared_pull(order, adj, assign, f, bufs, k),
        buffers_of(assign, forward_inputs(adj, order[k])),
    ) == read_values(private_pull(order, adj, f, init, k), forward_inputs(adj, order[k])) by {
        lemma_pulls_agree_upto(order, adj, assign, f, init, bufs, k);
        lemma_reads_agree(order, adj, assign, f, init, bufs, k);
    }
    lemma_pulls_agree_upto(order, adj, assign, f, init, bufs, n as int);
    assert forall|i: int|
        0 <= i < n && (order[i] == dest || is_feedback_source(feedback, order[i])) implies shared_pull(
        order,
        adj,
        assign,
        f,
        bufs,
        n as int,
    )[assign[#[trigger] order[i] as int] as int] == private_pull(order, adj, f, init, n as int)[order[i] as int] by {
        assert(kept_to_end(order, feedback, dest, assign));
        assert forall|c: int| i < c < n implies assign[#[trigger] order[c] as int] != assign[order[i] as int] by {
            assert(order[c] == order[c]);
        }
        assert(untouched_between(order, assign, i, n as int));
    }
}

/// What a runtime carries from one pull to the next.
pub struct RunState<V> {
    /// Contents of the node buffers.
    pub bufs: Seq<V>,
    /// The output kept from the previous pull, for each feedback source.
    pub prev: Seq<V>,
    /// For each node, the inputs of each of its calls so far: the values of
    /// its forward inputs and of its feedback inputs.
    pub hist: Seq<Seq<(Seq<V>, Seq<V>)>>,
}

/// The node outputs of a pull, given what each node has been handed in
/// earlier pulls: `beh(v, calls)` is what node `v` outputs on its latest
/// call, after the calls `calls`. A node may keep state, so its output may
/// depend on every input it has been handed.
pub open spec fn node_step<V>(
    beh: spec_fn(usize, Seq<(Seq<V>, Seq<V>)>) -> V,
    feedback: Seq<(usize, usize)>,
    hist: Seq<Seq<(Seq<V>, Seq<V>)>>,
    prev: Seq<V>,
) -> spec_fn(usize, Seq<V>) -> V {
    |v: usize, fwd: Seq<V>| beh(v, hist[v as int].push((fwd, read_values(prev, feedback_inputs(feedback, v)))))
}

/// The step of `order` at which node `v` runs.
pub open spec fn position(order: Seq<usize>, v: int) -> int {
    choose|i: int| 0 <= i < order.len() && order[i] == v
}

/// One pull over the shared buffers `assign`: nodes run in `order`, then the
/// buffer of every feedback source is copied for the next pull.
pub open spec fn shared_step<V>(
    order: Seq<usize>,
    adj: Seq<Seq<usize>>,
    feedback: Seq<(usize, usize)>,
    assign: Seq<usize>,
    beh: spec_fn(usize, Seq<(Seq<V>, Seq<V>)>) -> V,
    s: RunState<V>,
) -> RunState<V> {
    let n = adj.len();
    let f = node_step(beh, feedback, s.hist, s.prev);
    let bufs = shared_pull(order, adj, assign, f, s.bufs, n as int);
    RunState {
        bufs,
        prev: Seq::new(
            n,
            |u: int|
                if is_feedback_source(feedback, u as usize) {
                    bufs[assign[u] as int]
                } else {
                    s.prev[u]
                },
        ),
        hist: Seq::new(
            n,
            |u: int|
                s.hist[u].push(
                    (
                        read_values(
                            shared_pull(order, adj, assign, f, s.bufs, position(order, u)),
                            buffers_of(assign, forward_inputs(adj, u as usize)),
                        ),
                        read_values(s.prev, feedback_inputs(feedback, u as usize)),
                    ),
                ),
        ),
    }
}

/// One pull in which every node has a buffer of its own.
pub open spec fn private_step<V>(
    order: Seq<usize>,
    adj: Seq<Seq<usize>>,
    feedback: Seq<(usize, usize)>,
    beh: spec_fn(usize, Seq<(Seq<V>, Seq<V>)>) -> V,
    s: RunState<V>,
) -> RunState<V> {
    let n = adj.len();
    let f = node_step(beh, feedback, s.hist, s.prev);
    let outs = private_pull(order, adj, f, s.bufs, n as int);
    RunState {
        bufs: outs,
        prev: Seq::new(
            n,
            |u: int|
                if is_feedback_source(feedback, u as usize) {
                    outs[u]
                } else {
                    s.prev[u]
                },
        ),
        hist: Seq::new(
            n,
            |u: int|
                s.hist[u].push(
                    (
                        read_values(
                            private_pull(order, adj, f, s.bufs, position(order, u)),
                            forward_inputs(adj, u as usize),
                        ),
                        read_values(s.prev, feedback_inputs(feedback, u as usize)),
                    ),
                ),
        ),
    }
}

/// The state after `t` pulls over the shared buffers.
pub open spec fn shared_run<V>(
    order: Seq<usize>,
    adj: Seq<Seq<usize>>,
    feedback: Seq<(usize, usize)>,
    assign: Seq<usize>,
    beh: spec_fn(usize, Seq<(Seq<V>, Seq<V>)>) -> V,
    start: RunState<V>,
    t: nat,
) -> RunState<V>
    decreases t,
{
    if t == 0 {
        start
    } else {
        shared_step(order, adj, feedback, assign, beh, shared_run(order, adj, feedback, assign, beh, start, (t - 1) as nat))
    }
}

/// The state after `t` pulls with one buffer per node.
pub open spec fn private_run<V>(
    order: Seq<usize>,
    adj: Seq<Seq<usize>>,
    feedback: Seq<(usize, usize)>,
    beh: spec_fn(usize, Seq<(Seq<V>, Seq<V>)>) -> V,
    start: RunState<V>,
    t: nat,
) -> RunState<V>
    decreases t,
{
    if t == 0 {
        start
    } else {
        private_step(order, adj, feedback, beh, private_run(order, adj, feedback, beh, start, (t - 1) as nat))
    }
}

/// Law: over any number of pulls, the runtime with the planned shared
/// buffers hands every node the same inputs on every call as the runtime
/// with one buffer per node (so stateful nodes stay in step), keeps the same
/// outputs for the feedback edges, and returns the same destination output
/// from every pull. Both start with no calls made and the same kept outputs.
pub proof fn lemma_shared_runs_match_private<V>(
    order: Seq<usize>,
    adj: Seq<Seq<usize>>,
    feedback: Seq<(usize, usize)>,
    dest: usize,
    beh: spec_fn(usize, Seq<(Seq<V>, Seq<V>)>) -> V,
    shared_start: RunState<V>,
    private_start: RunState<V>,
    t: nat,
)
    requires
        adj.len() <= usize::MAX,
        is_topological_order(order, adj.len(), flatten_edges(adj)),
        forall|s: int, m: int| 0 <= s < adj.len() && 0 <= m < adj[s].len() ==> #[trigger] adj[s][m] < adj.len(),
        dest < adj.len(),
        shared_start.bufs.len() == planned_buffers(order, adj, feedback, dest).next,
        private_start.bufs.len() == adj.len(),
        shared_start.prev == private_start.prev,
        shared_start.hist == private_start.hist,
    ensures
        shared_run(order, adj, feedback, planned_buffers(order, adj, feedback, dest).assign, beh, shared_start, t).hist
            == private_run(order, adj, feedback, beh, private_start, t).hist,
        shared_run(order, adj, feedback, planned_buffers(order, adj, feedback, dest).assign, beh, shared_start, t).prev
            == private_run(order, adj, feedback, beh, private_start, t).prev,
        t > 0 ==> shared_run(order, adj, feedback, planned_buffers(order, adj, feedback, dest).assign, beh, shared_start, t).bufs[
            planned_buffers(order, adj, feedback, dest).assign[dest as int] as int]
            == private_run(order, adj, feedback, beh, private_start, t).bufs[dest as int],
    decreases t,
{
    lemma_runs_keep_lengths(order, adj, feedback, dest, beh, shared_start, private_start, t);
    if t > 0 {
        let assign = planned_buffers(order, adj, feedback, dest).assign;
        let n = adj.len();
        lemma_shared_runs_match_private(order, adj, feedback, dest, beh, shared_start, private_start, (t - 1) as nat);
        lemma_runs_keep_lengths(order, adj, feedback, dest, beh, shared_start, private_start, (t - 1) as nat);
        let sp = shared_run(order, adj, feedback, assign, beh, shared_start, (t - 1) as nat);
        let pp = private_run(order, adj, feedback, beh, private_start, (t - 1) as nat);
        let f = node_step(beh, feedback, sp.hist, sp.prev);
        assert(f == node_step(beh, feedback, pp.hist, pp.prev));
        lemma_shared_pull_matches_private(order, adj, feedback, dest, f, pp.bufs, sp.bufs);
        let ss = shared_step(order, adj, feedback, assign, beh, sp);
        let ps = private_step(order, adj, feedback, beh, pp);
        assert(order.contains(dest));
        assert(order[position(order, dest as int)] == dest);
        assert forall|u: int| 0 <= u < n implies #[trigger] ss.hist[u] == ps.hist[u] by {
            assert(order.contains(u as usize));
            let k = position(order, u);
            assert(0 <= k < n && order[k] == u);
        }
        assert(ss.hist =~= ps.hist);
        assert forall|u: int| 0 <= u < n implies #[trigger] ss.prev[u] == ps.prev[u] by {
            assert(order.contains(u as usize));
            let k = position(order, u);
            assert(0 <= k < n && order[k] == u);
        }
        assert(ss.prev =~= ps.prev);
    }
}

/// The buffers keep their lengths from pull to pull.
proof fn lemma_runs_keep_lengths<V>(
    order: Seq<usize>,
    adj: Seq<Seq<usize>>,
    feedback: Seq<(usize, usize)>,
    dest: usize,
    beh: spec_fn(usize, Seq<(Seq<V>, Seq<V>)>) -> V,
    shared_start: RunState<V>,
    private_start: RunState<V>,
    t: nat,
)
    requires
        adj.len() <= usize::MAX,
        is_topological_order(order, adj.len(), flatten_edges(adj)),
        forall|s: int, m: int| 0 <= s < adj.len() && 0 <= m < adj[s].len() ==> #[trigger] adj[s][m] < adj.len(),
        shared_start.bufs.len() == planned_buffers(order, adj, feedback, dest).next,
        private_start.bufs.len() == adj.len(),
    ensures
        shared_run(order, adj, feedback, planned_buffers(order, adj, feedback, dest).assign, beh, shared_start, t).bufs.len()
            == planned_buffers(order, adj, feedback, dest).next,
        private_run(order, adj, feedback, beh, private_start, t).bufs.len() == adj.len(),
    decreases t,
{
    if t > 0 {
        let plan = planned_buffers(order, adj, feedback, dest);
        lemma_runs_keep_lengths(order, adj, feedback, dest, beh, shared_start, private_start, (t - 1) as nat);
        lemma_planned_buffers_are_intact(order, adj, feedback, dest);
        let sp = shared_run(order, adj, feedback, plan.assign, beh, shared_start, (t - 1) as nat);
        let pp = private_run(order, adj, feedback, beh, private_start, (t - 1) as nat);
        let f = node_step(beh, feedback, sp.hist, sp.prev);
        let g = node_step(beh, feedback, pp.hist, pp.prev);
        assert(pull_inputs_ok(order, adj, plan.assign, pp.bufs, sp.bufs));
        lemma_pulls_agree_upto(order, adj, plan.assign, f, pp.bufs, sp.bufs, adj.len() as int);
        lemma_pulls_agree_upto(order, adj, plan.assign, g, pp.bufs, sp.bufs, adj.len() as int);
    }
}

} // verus!
