use rust_audio_api::graph::{BuildError, GraphBuilder, NodeId, StaticGraph};

fn position(order: &[usize], x: usize) -> usize {
    order.iter().position(|&y| y == x).unwrap()
}

/// Checks, by brute force, that no node overwrites the buffer of a forward
/// input before the consumer has read it.
fn assert_inputs_intact<N>(g: &StaticGraph<N>) {
    let order = g.execution_order().clone();
    for dest in 0..g.node_count() {
        for &src in g.inputs_of(dest) {
            let ps = position(&order, src);
            let pd = position(&order, dest);
            assert!(ps < pd, "input {} runs after its consumer {}", src, dest);
            for &c in &order[ps + 1..=pd] {
                assert_ne!(g.buffer_of(c), g.buffer_of(src), "node {} overwrites input {} of {}", c, src, dest);
            }
        }
    }
}

#[test]
fn chain_reuses_two_buffers() {
    let mut b = GraphBuilder::new();
    let a = b.add_node("a");
    let m = b.add_node("m");
    let z = b.add_node("z");
    b.connect(a, m);
    b.connect(m, z);
    let g = b.build(z);
    assert_eq!(g.execution_order(), &vec![0, 1, 2]);
    assert_eq!((g.buffer_of(0), g.buffer_of(1), g.buffer_of(2)), (0, 1, 0));
    assert_eq!(g.buffers_count(), 2);
    assert_eq!(g.inputs_of(0), &Vec::<usize>::new());
    assert_eq!(g.inputs_of(1), &vec![0]);
    assert_eq!(g.inputs_of(2), &vec![1]);
    assert_eq!(g.final_destination_index(), 2);
    assert_inputs_intact(&g);
}

#[test]
fn long_chain_alternates_two_buffers() {
    let mut b = GraphBuilder::new();
    let ids: Vec<NodeId> = (0..5u32).map(|i| b.add_node(i)).collect();
    for w in ids.windows(2) {
        b.connect(w[0], w[1]);
    }
    let g = b.build(ids[4]);
    let bufs: Vec<usize> = (0..5).map(|i| g.buffer_of(i)).collect();
    assert_eq!(bufs, vec![0, 1, 0, 1, 0]);
    assert_eq!(g.buffers_count(), 2);
    assert_inputs_intact(&g);
}

#[test]
fn two_sources_into_one_node() {
    let mut b = GraphBuilder::new();
    let osc1 = b.add_node("osc1");
    let osc2 = b.add_node("osc2");
    let gain = b.add_node("gain");
    b.connect(osc1, gain);
    b.connect(osc2, gain);
    let g = b.build(gain);
    assert_eq!(g.execution_order(), &vec![1, 0, 2]);
    assert_eq!(g.inputs_of(2), &vec![0, 1]);
    assert_eq!((g.buffer_of(1), g.buffer_of(0), g.buffer_of(2)), (0, 1, 2));
    assert_eq!(g.buffers_count(), 3);
    assert_inputs_intact(&g);
}

#[test]
fn feedback_edge_keeps_source_buffer() {
    let mut b = GraphBuilder::new();
    let g1 = b.add_node("g1");
    let g2 = b.add_node("g2");
    b.connect(g1, g2);
    b.connect_feedback(g2, g1);
    let g = b.build(g2);
    assert_eq!(g.execution_order(), &vec![0, 1]);
    assert!(g.is_feedback_source(1));
    assert!(!g.is_feedback_source(0));
    assert_eq!(g.feedback_inputs_of(0), &vec![1]);
    assert_eq!(g.feedback_inputs_of(1), &Vec::<usize>::new());
    assert_eq!(g.inputs_of(1), &vec![0]);
    assert_ne!(g.buffer_of(0), g.buffer_of(1));
    assert_inputs_intact(&g);
}

#[test]
fn feedback_source_is_never_overwritten() {
    // a -> b -> c -> d, feedback from b to a: b's buffer must survive the pull.
    let mut bld = GraphBuilder::new();
    let a = bld.add_node(0u8);
    let b = bld.add_node(1u8);
    let c = bld.add_node(2u8);
    let d = bld.add_node(3u8);
    bld.connect(a, b);
    bld.connect(b, c);
    bld.connect(c, d);
    bld.connect_feedback(b, a);
    let g = bld.build(d);
    assert_eq!(g.execution_order(), &vec![0, 1, 2, 3]);
    for later in [2usize, 3] {
        assert_ne!(g.buffer_of(later), g.buffer_of(1));
    }
    // a is released after b read it, so c reuses a's buffer.
    assert_eq!(g.buffer_of(2), g.buffer_of(0));
    assert_inputs_intact(&g);
}

#[test]
fn cycle_is_reported() {
    let mut b = GraphBuilder::new();
    let x = b.add_node(());
    let y = b.add_node(());
    b.connect(x, y);
    b.connect(y, x);
    assert_eq!(b.try_build(y).err(), Some(BuildError::Cycle));
}

#[test]
fn self_loop_is_a_cycle() {
    let mut b = GraphBuilder::new();
    let x = b.add_node(());
    b.connect(x, x);
    assert_eq!(b.try_build(x).err(), Some(BuildError::Cycle));
}

#[test]
fn feedback_loop_is_not_a_cycle() {
    let mut b = GraphBuilder::new();
    let x = b.add_node(());
    b.connect_feedback(x, x);
    let g = b.try_build(x).ok().unwrap();
    assert!(g.is_feedback_source(0));
    assert_eq!(g.feedback_inputs_of(0), &vec![0]);
}

#[test]
fn unknown_destination_is_reported() {
    let mut b = GraphBuilder::new();
    let _x = b.add_node(());
    let stranger = NodeId(7);
    assert_eq!(b.try_build(stranger).err(), Some(BuildError::UnknownDestination));
}

#[test]
fn connections_to_unknown_nodes_are_ignored() {
    let mut b = GraphBuilder::new();
    let x = b.add_node(());
    let y = b.add_node(());
    b.connect(x, NodeId(3));
    b.connect_feedback(NodeId(3), y);
    b.connect(x, y);
    let g = b.build(y);
    assert_eq!(g.inputs_of(1), &vec![0]);
    assert_eq!(g.feedback_inputs_of(1), &Vec::<usize>::new());
    assert!(!g.is_feedback_source(0) && !g.is_feedback_source(1));
}

#[test]
fn single_node_graph() {
    let mut b = GraphBuilder::new();
    let mixer = b.add_node("mixer");
    let g = b.build(mixer);
    assert_eq!(g.node_count(), 1);
    assert_eq!(g.execution_order(), &vec![0]);
    assert_eq!(g.buffers_count(), 1);
    assert_eq!(g.node_index(mixer), Some(0));
}

#[test]
fn node_lookup_and_mutation() {
    let mut b = GraphBuilder::new();
    let x = b.add_node(10);
    let y = b.add_node(20);
    b.connect(x, y);
    let mut g = b.build(y);
    assert_eq!(g.node_index(x), Some(0));
    assert_eq!(g.node_index(y), Some(1));
    assert_eq!(g.node_index(NodeId(1)), None);
    *g.node_mut(1) += 5;
    assert_eq!(*g.node_mut(1), 25);
}

#[test]
fn duplicate_edges_give_duplicate_inputs() {
    let mut b = GraphBuilder::new();
    let x = b.add_node(());
    let y = b.add_node(());
    b.connect(x, y);
    b.connect(x, y);
    let g = b.build(y);
    assert_eq!(g.inputs_of(1), &vec![0, 0]);
}

#[test]
fn build_in_order_uses_the_given_order() {
    let mut b = GraphBuilder::new();
    let p = b.add_node('p');
    let q = b.add_node('q');
    let r = b.add_node('r');
    b.connect(p, r);
    b.connect(q, r);
    let g = b.build_in_order(vec![0, 1, 2], 2);
    assert_eq!(g.execution_order(), &vec![0, 1, 2]);
    assert_eq!((g.buffer_of(0), g.buffer_of(1), g.buffer_of(2)), (0, 1, 2));
    let _ = (p, q, r);
}

#[test]
fn diamond_keeps_inputs_intact() {
    let mut b = GraphBuilder::new();
    let ids: Vec<NodeId> = (0..6u32).map(|i| b.add_node(i)).collect();
    b.connect(ids[0], ids[1]);
    b.connect(ids[0], ids[2]);
    b.connect(ids[1], ids[3]);
    b.connect(ids[2], ids[3]);
    b.connect(ids[3], ids[4]);
    b.connect(ids[0], ids[4]);
    b.connect(ids[4], ids[5]);
    let g = b.build(ids[5]);
    assert!(g.buffers_count() <= 6);
    assert_inputs_intact(&g);
}

#[test]
fn node_ids_are_random_version_4_uuids() {
    let a = NodeId::new();
    let b = NodeId::default();
    assert_ne!(a, b);
    for id in [a, b] {
        assert_eq!((id.0 >> 76) & 0xF, 4);
        assert_eq!((id.0 >> 62) & 0x3, 0b10);
    }
}

#[test]
fn builder_counts_and_limits() {
    let mut b = GraphBuilder::new();
    assert_eq!(b.node_count(), 0);
    assert!(b.fits_index_limits());
    let x = b.add_node(1u8);
    let y = b.add_node(2u8);
    b.connect(x, y);
    assert_eq!(b.node_count(), 2);
    assert!(b.fits_index_limits());
}

/// Runs `pulls` pulls of integer "nodes" that keep a running sum of their
/// inputs, once over the planned shared buffers (copying feedback sources at
/// the end of each pull) and once with one value per node, and returns the
/// destination outputs and every call's inputs of each run.
fn run_both<N>(g: &StaticGraph<N>, pulls: usize) -> (Vec<i64>, Vec<i64>, Vec<Vec<i64>>, Vec<Vec<i64>>) {
    let n = g.node_count();
    let mut bufs = vec![0i64; g.buffers_count()];
    let mut outs = vec![0i64; n];
    let mut prev_shared = vec![0i64; n];
    let mut prev_private = vec![0i64; n];
    let mut state_shared = vec![0i64; n];
    let mut state_private = vec![0i64; n];
    let (mut dest_shared, mut dest_private) = (Vec::new(), Vec::new());
    let (mut calls_shared, mut calls_private) = (vec![Vec::new(); n], vec![Vec::new(); n]);
    for t in 0..pulls {
        for &v in g.execution_order() {
            let seed = (v as i64) * 7 + t as i64;
            let fb_s: i64 = g.feedback_inputs_of(v).iter().map(|&s| prev_shared[s]).sum();
            let fb_p: i64 = g.feedback_inputs_of(v).iter().map(|&s| prev_private[s]).sum();
            let in_s: i64 = g.inputs_of(v).iter().map(|&s| bufs[g.buffer_of(s)]).sum::<i64>() + fb_s;
            let in_p: i64 = g.inputs_of(v).iter().map(|&s| outs[s]).sum::<i64>() + fb_p;
            calls_shared[v].push(in_s);
            calls_private[v].push(in_p);
            state_shared[v] = state_shared[v] * 3 + in_s + seed;
            state_private[v] = state_private[v] * 3 + in_p + seed;
            bufs[g.buffer_of(v)] = state_shared[v] % 1_000_003;
            outs[v] = state_private[v] % 1_000_003;
        }
        for v in 0..n {
            if g.is_feedback_source(v) {
                prev_shared[v] = bufs[g.buffer_of(v)];
                prev_private[v] = outs[v];
            }
        }
        dest_shared.push(bufs[g.buffer_of(g.final_destination_index())]);
        dest_private.push(outs[g.final_destination_index()]);
    }
    (dest_shared, dest_private, calls_shared, calls_private)
}

#[test]
fn shared_buffers_match_private_over_many_pulls() {
    // a -> b -> c -> d -> e, a -> d, feedback d -> b and c -> a.
    let mut bld = GraphBuilder::new();
    let ids: Vec<NodeId> = (0..5u8).map(|i| bld.add_node(i)).collect();
    bld.connect(ids[0], ids[1]);
    bld.connect(ids[1], ids[2]);
    bld.connect(ids[2], ids[3]);
    bld.connect(ids[3], ids[4]);
    bld.connect(ids[0], ids[3]);
    bld.connect_feedback(ids[3], ids[1]);
    bld.connect_feedback(ids[2], ids[0]);
    let g = bld.build(ids[4]);
    assert!(g.buffers_count() < g.node_count());
    let (ds, dp, cs, cp) = run_both(&g, 12);
    assert_eq!(ds, dp);
    assert_eq!(cs, cp);
}

#[test]
fn added_nodes_get_distinct_ids() {
    let mut b = GraphBuilder::new();
    let ids: Vec<NodeId> = (0..1000u32).map(|i| b.add_node(i)).collect();
    for (i, a) in ids.iter().enumerate() {
        for c in &ids[i + 1..] {
            assert_ne!(a, c);
        }
    }
}

#[test]
fn forward_and_feedback_pair_builds() {
    let mut b = GraphBuilder::new();
    let g1 = b.add_node(1.0f32);
    let g2 = b.add_node(0.5f32);
    assert_ne!(g1, g2);
    b.connect(g1, g2);
    b.connect_feedback(g2, g1);
    let g = b.try_build(g2).ok().unwrap();
    assert_eq!(g.execution_order(), &vec![0, 1]);
    assert_eq!(g.feedback_inputs_of(0), &vec![1]);
}
