//! Buffer reuse planning for a sorted audio graph.
//!
//! Each node writes its output into one shared buffer. A buffer is handed
//! back to a LIFO free list right after the step at which its node's output
//! was last read, so that later nodes can reuse it. This module states that
//! plan as a step function and proves that no node ever overwrites a buffer
//! whose contents are still to be read.
use crate::topology::is_node_permutation;
use vstd::prelude::*;

verus! {

/// Position of `x` in an order that holds it exactly once.
pub open spec fn position_in(order: Seq<usize>, x: usize) -> int {
    choose|i: int| 0 <= i < order.len() && order[i] == x
}

/// The larger of `init` and the positions of all `targets` in `order`.
pub open spec fn max_target_position(order: Seq<usize>, targets: Seq<usize>, init: int) -> int
    decreases targets.len(),
{
    if targets.len() == 0 {
        init
    } else {
        let prev = max_target_position(order, targets.drop_last(), init);
        let p = position_in(order, targets.last());
        if p > prev {
            p
        } else {
            prev
        }
    }
}

/// Node `v` is the source of some feedback edge.
pub open spec fn is_feedback_source(feedback: Seq<(usize, usize)>, v: usize) -> bool {
    exists|k: int| 0 <= k < feedback.len() && (#[trigger] feedback[k]).0 == v
}

/// The execution step after which the output of node `v` is no longer read
/// in the current pull: the position of its last forward consumer (or its
/// own position when it has none). The destination and every feedback
/// source keep their buffer to the end of the pull, written `usize::MAX`.
pub open spec fn last_use(
    order: Seq<usize>,
    adj: Seq<Seq<usize>>,
    feedback: Seq<(usize, usize)>,
    dest: usize,
    v: usize,
) -> usize {
    if v == dest || is_feedback_source(feedback, v) {
        usize::MAX
    } else {
        max_target_position(order, adj[v as int], position_in(order, v)) as usize
    }
}

/// `last_use` of every node index below `n`.
pub open spec fn last_use_table(
    order: Seq<usize>,
    adj: Seq<Seq<usize>>,
    feedback: Seq<(usize, usize)>,
    dest: usize,
    n: nat,
) -> Seq<usize> {
    Seq::new(n, |v: int| last_use(order, adj, feedback, dest, v as usize))
}

/// State of the buffer planner between two execution steps.
pub struct AllocState {
    /// Buffer id of each node index (0 for nodes not yet placed).
    pub assign: Seq<usize>,
    /// Released buffer ids; the last one is reused first.
    pub free: Seq<usize>,
    /// Number of buffers created so far.
    pub next: nat,
    /// Placed nodes whose output is still to be read, in placement order.
    pub active: Seq<usize>,
}

/// Buffers of the `active` nodes that are released at step `k`, in order.
pub open spec fn released_buffers(active: Seq<usize>, assign: Seq<usize>, lu: Seq<usize>, k: int) -> Seq<usize>
    decreases active.len(),
{
    if active.len() == 0 {
        Seq::empty()
    } else {
        let prev = released_buffers(active.drop_last(), assign, lu, k);
        if lu[active.last() as int] == k {
            prev.push(assign[active.last() as int])
        } else {
            prev
        }
    }
}

/// The `active` nodes that stay active after step `k`, in order.
pub open spec fn still_active(active: Seq<usize>, lu: Seq<usize>, k: int) -> Seq<usize>
    decreases active.len(),
{
    if active.len() == 0 {
        Seq::empty()
    } else {
        let prev = still_active(active.drop_last(), lu, k);
        if lu[active.last() as int] == k {
            prev
        } else {
            prev.push(active.last())
        }
    }
}

/// Step `k` places `node`: it takes the most recently released buffer, or a
/// new one when none is free, then releases the buffers last read at step `k`.
pub open spec fn alloc_step(st: AllocState, node: usize, lu: Seq<usize>, k: int) -> AllocState {
    let buf: usize = if st.free.len() > 0 {
        st.free.last()
    } else {
        st.next as usize
    };
    let free = if st.free.len() > 0 {
        st.free.drop_last()
    } else {
        st.free
    };
    let next = if st.free.len() > 0 {
        st.next
    } else {
        st.next + 1
    };
    let assign = st.assign.update(node as int, buf);
    let active = st.active.push(node);
    AllocState {
        assign,
        free: free + released_buffers(active, assign, lu, k),
        next,
        active: still_active(active, lu, k),
    }
}

/// The planner's state after placing the first `k` nodes of `order`.
pub open spec fn alloc_upto(order: Seq<usize>, lu: Seq<usize>, n: nat, k: int) -> AllocState
    decreases k,
{
    if k <= 0 {
        AllocState {
            assign: Seq::new(n, |i: int| 0usize),
            free: Seq::empty(),
            next: 0,
            active: Seq::empty(),
        }
    } else {
        alloc_step(alloc_upto(order, lu, n, k - 1), order[k - 1], lu, k - 1)
    }
}

/// No node placed after node `order[i]`, up to and including the step at
/// which the output of `order[i]` is last read, shares its buffer.
pub open spec fn reuse_is_safe(order: Seq<usize>, lu: Seq<usize>, assign: Seq<usize>) -> bool {
    forall|i: int, j: int|
        #![trigger order[i], order[j]]
        0 <= i < j < order.len() && j <= lu[order[i] as int] ==> assign[order[j] as int]
            != assign[order[i] as int]
}

/// What the planner needs of its inputs: a permutation, and a last use of
/// each node no earlier than the node's own step.
pub open spec fn plan_inputs_ok(order: Seq<usize>, lu: Seq<usize>, n: nat) -> bool {
    &&& is_node_permutation(order, n)
    &&& lu.len() == n
    &&& forall|i: int| 0 <= i < n ==> lu[#[trigger] order[i] as int] >= i
}

/// The invariant of the planner after `k` steps.
pub open spec fn alloc_inv(order: Seq<usize>, lu: Seq<usize>, n: nat, k: int, st: AllocState) -> bool {
    &&& st.assign.len() == n
    &&& st.next <= k
    &&& forall|i: int| 0 <= i < k ==> st.assign[#[trigger] order[i] as int] < st.next
    &&& forall|i: int|
        0 <= i < k && lu[#[trigger] order[i] as int] >= k ==> st.active.contains(order[i])
    &&& forall|m: int|
        0 <= m < st.active.len() ==> lu[#[trigger] st.active[m] as int] >= k && exists|i: int|
            0 <= i < k && order[i] == st.active[m]
    &&& st.active.no_duplicates()
    &&& forall|m1: int, m2: int|
        #![trigger st.active[m1], st.active[m2]]
        0 <= m1 < st.active.len() && 0 <= m2 < st.active.len() && m1 != m2 ==> st.assign[st.active[m1] as int]
            != st.assign[st.active[m2] as int]
    &&& st.free.no_duplicates()
    &&& forall|f: int| 0 <= f < st.free.len() ==> #[trigger] st.free[f] < st.next
    &&& forall|f: int, m: int|
        #![trigger st.free[f], st.active[m]]
        0 <= f < st.free.len() && 0 <= m < st.active.len() ==> st.free[f] != st.assign[st.active[m] as int]
    &&& forall|i: int, j: int|
        #![trigger order[i], order[j]]
        0 <= i < j < k && j <= lu[order[i] as int] ==> st.assign[order[j] as int]
            != st.assign[order[i] as int]
}

/// Membership facts about the release step.
pub proof fn lemma_release(active: Seq<usize>, assign: Seq<usize>, lu: Seq<usize>, k: int)
    requires
        active.no_duplicates(),
        forall|m: int| 0 <= m < active.len() ==> 0 <= #[trigger] active[m] < lu.len(),
        forall|m: int| 0 <= m < active.len() ==> 0 <= #[trigger] active[m] < assign.len(),
        forall|m1: int, m2: int|
            #![trigger active[m1], active[m2]]
            0 <= m1 < active.len() && 0 <= m2 < active.len() && m1 != m2 ==> assign[active[m1] as int]
                != assign[active[m2] as int],
    ensures
        forall|x: usize|
            #[trigger] still_active(active, lu, k).contains(x) <==> (active.contains(x) && lu[x as int]
                != k),
        still_active(active, lu, k).no_duplicates(),
        forall|f: usize|
            #[trigger] released_buffers(active, assign, lu, k).contains(f) <==> exists|m: int|
                0 <= m < active.len() && lu[active[m] as int] == k && f == assign[active[m] as int],
        released_buffers(active, assign, lu, k).no_duplicates(),
    decreases active.len(),
{
    if active.len() > 0 {
        let a = active.drop_last();
        let last = active.last();
        assert forall|m1: int, m2: int|
            #![trigger a[m1], a[m2]]
            0 <= m1 < a.len() && 0 <= m2 < a.len() && m1 != m2 implies assign[a[m1] as int]
                != assign[a[m2] as int] by {
            assert(a[m1] == active[m1] && a[m2] == active[m2]);
        }
        lemma_release(a, assign, lu, k);
        let sa = still_active(active, lu, k);
        let sp = still_active(a, lu, k);
        let ra = released_buffers(active, assign, lu, k);
        let rp = released_buffers(a, assign, lu, k);
        assert(!a.contains(last)) by {
            if a.contains(last) {
                let m = choose|m: int| 0 <= m < a.len() && a[m] == last;
                assert(active[m] == active[active.len() - 1]);
            }
        }
        assert forall|x: usize| active.contains(x) <==> (a.contains(x) || x == last) by {
            if active.contains(x) {
                let m = choose|m: int| 0 <= m < active.len() && active[m] == x;
                if m < active.len() - 1 {
                    assert(a[m] == x);
                }
            }
            if a.contains(x) {
                let m = choose|m: int| 0 <= m < a.len() && a[m] == x;
                assert(active[m] == x);
            }
            if x == last {
                assert(active[active.len() - 1] == x);
            }
        }
        assert forall|x: usize| #[trigger] sa.contains(x) <==> (active.contains(x) && lu[x as int] != k) by {
            if lu[last as int] != k {
                assert(sa == sp.push(last));
                if sa.contains(x) {
                    let m = choose|m: int| 0 <= m < sa.len() && sa[m] == x;
                    if m < sp.len() {
                        assert(sp.contains(x));
                    }
                }
                if sp.contains(x) {
                    let m = choose|m: int| 0 <= m < sp.len() && sp[m] == x;
                    assert(sa[m] == x);
                }
                if x == last {
                    assert(sa[sa.len() - 1] == x);
                }
            }
        }
        if lu[last as int] != k {
            assert(sa == sp.push(last));
            assert(!sp.contains(last));
            assert forall|i: int, j: int| 0 <= i < sa.len() && 0 <= j < sa.len() && i != j implies sa[i]
                != sa[j] by {
                if i < sp.len() && j < sp.len() {
                } else if i < sp.len() {
                    assert(sp.contains(sp[i]));
                } else if j < sp.len() {
                    assert(sp.contains(sp[j]));
                }
            }
        }
        let al = assign[last as int];
        assert forall|f: usize|
            #[trigger] ra.contains(f) <==> exists|m: int|
                0 <= m < active.len() && lu[active[m] as int] == k && f == assign[active[m] as int] by {
            if ra.contains(f) {
                if lu[last as int] == k {
                    assert(ra == rp.push(al));
                    let p = choose|p: int| 0 <= p < ra.len() && ra[p] == f;
                    if p < rp.len() {
                        assert(rp.contains(f));
                        let m = choose|m: int|
                            0 <= m < a.len() && lu[a[m] as int] == k && f == assign[a[m] as int];
                        assert(active[m] == a[m]);
                    } else {
                        assert(active[active.len() - 1] == last);
                    }
                } else {
                    let m = choose|m: int|
                        0 <= m < a.len() && lu[a[m] as int] == k && f == assign[a[m] as int];
                    assert(active[m] == a[m]);
                }
            }
            if exists|m: int|
                0 <= m < active.len() && lu[active[m] as int] == k && f == assign[active[m] as int] {
                let m = choose|m: int|
                    0 <= m < active.len() && lu[active[m] as int] == k && f == assign[active[m] as int];
                if m < active.len() - 1 {
                    assert(a[m] == active[m]);
                    assert(rp.contains(f));
                    if lu[last as int] == k {
                        assert(ra == rp.push(al));
                        let p = choose|p: int| 0 <= p < rp.len() && rp[p] == f;
                        assert(ra[p] == f);
                    }
                } else {
                    assert(ra == rp.push(al));
                    assert(ra[ra.len() - 1] == f);
                }
            }
        }
        if lu[last as int] == k {
            assert(ra == rp.push(al));
            assert(!rp.contains(al)) by {
                if rp.contains(al) {
                    let m = choose|m: int|
                        0 <= m < a.len() && lu[a[m] as int] == k && al == assign[a[m] as int];
                    assert(active[m] == a[m]);
                    assert(active[active.len() - 1] == last);
                }
            }
            assert forall|i: int, j: int| 0 <= i < ra.len() && 0 <= j < ra.len() && i != j implies ra[i]
                != ra[j] by {
                if i < rp.len() && j < rp.len() {
                } else if i < rp.len() {
                    assert(rp.contains(rp[i]));
                } else if j < rp.len() {
                    assert(rp.contains(rp[j]));
                }
            }
        }
    }
}

/// The planner's invariant holds after every step.
pub proof fn lemma_alloc_inv(order: Seq<usize>, lu: Seq<usize>, n: nat, k: int)
    requires
        plan_inputs_ok(order, lu, n),
        0 <= k <= n,
    ensures
        alloc_inv(order, lu, n, k, alloc_upto(order, lu, n, k)),
    decreases k,
{
    if k > 0 {
        lemma_alloc_inv(order, lu, n, k - 1);
        let st = alloc_upto(order, lu, n, k - 1);
        let s2 = alloc_upto(order, lu, n, k);
        let node = order[k - 1];
        let j = k - 1;
        assert(s2 == alloc_step(st, node, lu, j));
        let buf: usize = if st.free.len() > 0 {
            st.free.last()
        } else {
            st.next as usize
        };
        let free1 = if st.free.len() > 0 {
            st.free.drop_last()
        } else {
            st.free
        };
        let assign1 = st.assign.update(node as int, buf);
        let active1 = st.active.push(node);
        assert(s2.assign == assign1);
        assert(s2.active == still_active(active1, lu, j));
        assert(s2.free == free1 + released_buffers(active1, assign1, lu, j));
        // Nodes placed before step j differ from `node`.
        assert forall|i: int| 0 <= i < j implies #[trigger] order[i] != node by {
            assert(order[i] != order[j]);
        }
        // Active nodes were placed before step j.
        assert forall|m: int| 0 <= m < st.active.len() implies #[trigger] st.active[m] != node
            && st.active[m] < n && assign1[st.active[m] as int] == st.assign[st.active[m] as int] by {
            let i = choose|i: int| 0 <= i < j && order[i] == st.active[m];
            assert(order[i] != node);
        }
        // The taken buffer is held by no active node.
        assert forall|m: int| 0 <= m < st.active.len() implies buf
            != st.assign[#[trigger] st.active[m] as int] by {
            let i = choose|i: int| 0 <= i < j && order[i] == st.active[m];
            if st.free.len() > 0 {
                assert(st.free[st.free.len() - 1] != st.assign[st.active[m] as int]);
            } else {
                assert(st.assign[order[i] as int] < st.next);
            }
        }
        assert(buf < s2.next);
        assert(!st.active.contains(node));
        // active1 facts
        assert(active1.no_duplicates()) by {
            assert forall|a: int, b: int| 0 <= a < active1.len() && 0 <= b < active1.len() && a != b implies active1[a]
                != active1[b] by {
                if a < st.active.len() && b < st.active.len() {
                    assert(active1[a] == st.active[a] && active1[b] == st.active[b]);
                } else if a < st.active.len() {
                    assert(active1[a] == st.active[a]);
                } else if b < st.active.len() {
                    assert(active1[b] == st.active[b]);
                }
            }
        }
        assert forall|m: int| 0 <= m < active1.len() implies 0 <= #[trigger] active1[m] < lu.len()
            && active1[m] < assign1.len() by {
            if m < st.active.len() {
                assert(active1[m] == st.active[m]);
            }
        }
        assert forall|m1: int, m2: int|
            #![trigger active1[m1], active1[m2]]
            0 <= m1 < active1.len() && 0 <= m2 < active1.len() && m1 != m2 implies assign1[active1[m1] as int]
                != assign1[active1[m2] as int] by {
            if m1 < st.active.len() && m2 < st.active.len() {
                assert(active1[m1] == st.active[m1] && active1[m2] == st.active[m2]);
            } else if m1 < st.active.len() {
                assert(active1[m1] == st.active[m1]);
            } else if m2 < st.active.len() {
                assert(active1[m2] == st.active[m2]);
            }
        }
        lemma_release(active1, assign1, lu, j);
        let rel = released_buffers(active1, assign1, lu, j);
        assert forall|x: usize| active1.contains(x) <==> (st.active.contains(x) || x == node) by {
            if active1.contains(x) {
                let m = choose|m: int| 0 <= m < active1.len() && active1[m] == x;
                if m < st.active.len() {
                    assert(st.active[m] == x);
                }
            }
            if st.active.contains(x) {
                let m = choose|m: int| 0 <= m < st.active.len() && st.active[m] == x;
                assert(active1[m] == x);
            }
            if x == node {
                assert(active1[active1.len() - 1] == x);
            }
        }
        // assign unchanged on earlier nodes
        assert forall|i: int| 0 <= i < j implies assign1[#[trigger] order[i] as int] == st.assign[order[i] as int] by {
            assert(order[i] != node);
        }
        // (3) assign below next
        assert forall|i: int| 0 <= i < k implies s2.assign[#[trigger] order[i] as int] < s2.next by {
            if i < j {
                assert(assign1[order[i] as int] == st.assign[order[i] as int]);
            }
        }
        // (4) active membership
        assert forall|i: int| 0 <= i < k && lu[#[trigger] order[i] as int] >= k implies s2.active.contains(order[i]) by {
            if i < j {
                assert(st.active.contains(order[i]));
            }
            assert(active1.contains(order[i]));
        }
        // (5) active elements
        assert forall|m: int| 0 <= m < s2.active.len() implies lu[#[trigger] s2.active[m] as int] >= k && exists|i: int|
            0 <= i < k && order[i] == s2.active[m] by {
            let x = s2.active[m];
            assert(s2.active.contains(x));
            assert(active1.contains(x) && lu[x as int] != j);
            if st.active.contains(x) {
                let mm = choose|mm: int| 0 <= mm < st.active.len() && st.active[mm] == x;
                assert(lu[st.active[mm] as int] >= j);
                let i = choose|i: int| 0 <= i < j && order[i] == st.active[mm];
                assert(0 <= i < k && order[i] == x);
            } else {
                assert(x == node);
                assert(lu[order[j] as int] >= j);
                assert(order[j] == x);
            }
        }
        // (7) distinct buffers of active nodes
        assert forall|m1: int, m2: int|
            #![trigger s2.active[m1], s2.active[m2]]
            0 <= m1 < s2.active.len() && 0 <= m2 < s2.active.len() && m1 != m2 implies s2.assign[s2.active[m1] as int]
                != s2.assign[s2.active[m2] as int] by {
            let x1 = s2.active[m1];
            let x2 = s2.active[m2];
            assert(s2.active.contains(x1) && s2.active.contains(x2));
            assert(x1 != x2);
            let a1 = choose|a: int| 0 <= a < active1.len() && active1[a] == x1;
            let a2 = choose|a: int| 0 <= a < active1.len() && active1[a] == x2;
        }
        // (8-10) free list
        assert forall|f: int| 0 <= f < free1.len() implies #[trigger] free1[f] != buf && free1[f] < st.next
            && (forall|m: int| 0 <= m < st.active.len() ==> free1[f] != st.assign[#[trigger] st.active[m] as int]) by {
            if st.free.len() > 0 {
                assert(free1[f] == st.free[f]);
                assert(st.free[f] != st.free[st.free.len() - 1]);
            }
            assert(free1[f] == st.free[f]);
        }
        assert forall|f: int, m: int|
            #![trigger s2.free[f], s2.active[m]]
            0 <= f < s2.free.len() && 0 <= m < s2.active.len() implies s2.free[f] != s2.assign[s2.active[m] as int] by {
            let x = s2.active[m];
            assert(s2.active.contains(x));
            assert(lu[x as int] != j);
            let am = choose|a: int| 0 <= a < active1.len() && active1[a] == x;
            if f < free1.len() {
                assert(s2.free[f] == free1[f]);
                if am < st.active.len() {
                    assert(st.active[am] == x);
                    assert(free1[f] != st.assign[st.active[am] as int]);
                }
            } else {
                let v = s2.free[f];
                assert(rel[f - free1.len()] == v);
                assert(rel.contains(v));
                let mm = choose|mm: int|
                    0 <= mm < active1.len() && lu[active1[mm] as int] == j && v == assign1[active1[mm] as int];
                assert(mm != am);
            }
        }
        assert forall|f: int| 0 <= f < s2.free.len() implies #[trigger] s2.free[f] < s2.next by {
            if f < free1.len() {
                assert(s2.free[f] == free1[f]);
            } else {
                let v = s2.free[f];
                assert(rel[f - free1.len()] == v);
                assert(rel.contains(v));
                let mm = choose|mm: int|
                    0 <= mm < active1.len() && lu[active1[mm] as int] == j && v == assign1[active1[mm] as int];
                if mm < st.active.len() {
                    let x = st.active[mm];
                    assert(active1[mm] == x);
                    let i = choose|i: int| 0 <= i < j && order[i] == x;
                    assert(st.assign[order[i] as int] < st.next);
                }
            }
        }
        assert(s2.free.no_duplicates()) by {
            assert(free1.no_duplicates()) by {
                assert forall|a: int, b: int| 0 <= a < free1.len() && 0 <= b < free1.len() && a != b implies free1[a]
                    != free1[b] by {
                    assert(free1[a] == st.free[a] && free1[b] == st.free[b]);
                }
            }
            assert forall|a: int, b: int| 0 <= a < s2.free.len() && 0 <= b < s2.free.len() && a != b implies s2.free[a]
                != s2.free[b] by {
                if a < free1.len() && b < free1.len() {
                    assert(s2.free[a] == free1[a] && s2.free[b] == free1[b]);
                } else if a >= free1.len() && b >= free1.len() {
                    assert(s2.free[a] == rel[a - free1.len()] && s2.free[b] == rel[b - free1.len()]);
                } else {
                    let (fa, rb) = if a < free1.len() { (a, b) } else { (b, a) };
                    let v = s2.free[rb];
                    assert(s2.free[fa] == free1[fa]);
                    assert(rel[rb - free1.len()] == v);
                    assert(rel.contains(v));
                    let mm = choose|mm: int|
                        0 <= mm < active1.len() && lu[active1[mm] as int] == j && v == assign1[active1[mm] as int];
                    if mm < st.active.len() {
                        assert(active1[mm] == st.active[mm]);
                        assert(free1[fa] != st.assign[st.active[mm] as int]);
                    } else {
                        assert(active1[mm] == node);
                    }
                }
            }
        }
        // (11) reuse safety so far
        assert forall|i: int, jj: int|
            #![trigger order[i], order[jj]]
            0 <= i < jj < k && jj <= lu[order[i] as int] implies s2.assign[order[jj] as int]
                != s2.assign[order[i] as int] by {
            if jj < j {
                assert(assign1[order[i] as int] == st.assign[order[i] as int]);
                assert(assign1[order[jj] as int] == st.assign[order[jj] as int]);
            } else {
                assert(st.active.contains(order[i]));
                let m = choose|m: int| 0 <= m < st.active.len() && st.active[m] == order[i];
                assert(buf != st.assign[st.active[m] as int]);
                assert(assign1[order[i] as int] == st.assign[order[i] as int]);
            }
        }
    }
}

/// Law: the planner never lets a node overwrite a buffer whose contents are
/// still to be read, and it uses at most one buffer per node.
pub proof fn lemma_buffer_reuse_is_safe(order: Seq<usize>, lu: Seq<usize>, n: nat)
    requires
        plan_inputs_ok(order, lu, n),
    ensures
        reuse_is_safe(order, lu, alloc_upto(order, lu, n, n as int).assign),
        alloc_upto(order, lu, n, n as int).next <= n,
        alloc_upto(order, lu, n, n as int).assign.len() == n,
        forall|v: int| 0 <= v < n ==> #[trigger] alloc_upto(order, lu, n, n as int).assign[v]
            < alloc_upto(order, lu, n, n as int).next,
{
    lemma_alloc_inv(order, lu, n, n as int);
    let st = alloc_upto(order, lu, n, n as int);
    assert forall|v: int| 0 <= v < n implies #[trigger] st.assign[v] < st.next by {
        assert(order.contains(v as usize));
        let i = choose|i: int| 0 <= i < order.len() && order[i] == v as usize;
        assert(st.assign[order[i] as int] < st.next);
    }
}

/// The adjacency lists held in a vector of vectors.
pub open spec fn adjacency_of(edges: Seq<Vec<usize>>) -> Seq<Seq<usize>> {
    edges.map_values(|e: Vec<usize>| e@)
}

/// Bounds of `max_target_position`.
pub proof fn lemma_max_target_position(order: Seq<usize>, targets: Seq<usize>, init: int)
    requires
        order.no_duplicates(),
        forall|m: int| 0 <= m < targets.len() ==> order.contains(#[trigger] targets[m]),
        0 <= init < order.len(),
    ensures
        init <= max_target_position(order, targets, init) < order.len(),
        forall|m: int|
            0 <= m < targets.len() ==> position_in(order, #[trigger] targets[m]) <= max_target_position(
                order,
                targets,
                init,
            ),
    decreases targets.len(),
{
    if targets.len() > 0 {
        let t = targets.drop_last();
        assert forall|m: int| 0 <= m < t.len() implies order.contains(#[trigger] t[m]) by {
            assert(t[m] == targets[m]);
        }
        lemma_max_target_position(order, t, init);
        assert(order.contains(targets.last()));
        assert forall|m: int| 0 <= m < targets.len() implies position_in(order, #[trigger] targets[m])
            <= max_target_position(order, targets, init) by {
            if m < t.len() {
                assert(t[m] == targets[m]);
            }
        }
    }
}

/// The position of `x` in `order`, found by a linear scan.
pub fn position_of(order: &Vec<usize>, x: usize) -> (p: usize)
    requires
        order@.no_duplicates(),
        order@.contains(x),
    ensures
        p < order@.len(),
        order@[p as int] == x,
        p == position_in(order@, x),
{
    let mut i: usize = 0;
    while i < order.len()
        invariant
            i <= order@.len(),
            order@.contains(x),
            order@.no_duplicates(),
            forall|j: int| 0 <= j < i ==> order@[j] != x,
        decreases order@.len() - i,
    {
        if order[i] == x {
            proof {
                let c = position_in(order@, x);
                assert(0 <= c < order@.len() && order@[c] == x);
                assert(order@[i as int] == x);
                if c != i as int {
                    assert(order@[c] != order@[i as int]);
                }
            }
            return i;
        }
        i = i + 1;
    }
    proof {
        let c = choose|c: int| 0 <= c < order@.len() && order@[c] == x;
    }
    0
}

/// The last-use step of every node, computed as the table `last_use_table` states.
pub fn compute_last_usage(
    order: &Vec<usize>,
    edges: &Vec<Vec<usize>>,
    feedback: &Vec<(usize, usize)>,
    dest: usize,
) -> (lu: Vec<usize>)
    requires
        is_node_permutation(order@, edges@.len() as nat),
        forall|s: int, m: int|
            0 <= s < edges@.len() && 0 <= m < edges@[s]@.len() ==> #[trigger] edges@[s]@[m] < edges@.len(),
    ensures
        lu@ == last_use_table(order@, adjacency_of(edges@), feedback@, dest, edges@.len() as nat),
        plan_inputs_ok(order@, lu@, edges@.len() as nat),
{
    let n = edges.len();
    let ghost adj = adjacency_of(edges@);
    let ghost table = last_use_table(order@, adj, feedback@, dest, n as nat);
    let mut lu: Vec<usize> = Vec::new();
    let mut v: usize = 0;
    while v < n
        invariant
            v <= n,
            n == edges@.len(),
            lu@.len() == v,
            forall|i: int| 0 <= i < v ==> lu@[i] == 0,
        decreases n - v,
    {
        lu.push(0);
        v = v + 1;
    }
    let mut exec_idx: usize = 0;
    while exec_idx < n
        invariant
            exec_idx <= n,
            n == edges@.len(),
            adj == adjacency_of(edges@),
            table == last_use_table(order@, adj, feedback@, dest, n as nat),
            is_node_permutation(order@, n as nat),
            forall|s: int, m: int|
                0 <= s < edges@.len() && 0 <= m < edges@[s]@.len() ==> #[trigger] edges@[s]@[m]
                    < edges@.len(),
            lu@.len() == n,
            forall|i: int| 0 <= i < exec_idx ==> lu@[#[trigger] order@[i] as int] == table[order@[i] as int],
        decreases n - exec_idx,
    {
        let node = order[exec_idx];
        assert(order@.contains(node));
        let ghost pos = position_in(order@, node);
        assert(pos == exec_idx as int) by {
            assert(order@[pos] == node);
        }
        let targets = &edges[node];
        assert(adj[node as int] == targets@);
        let mut last_used_at: usize = exec_idx;
        let mut t: usize = 0;
        while t < targets.len()
            invariant
                t <= targets@.len(),
                targets@ == adj[node as int],
                node < n,
                n == edges@.len(),
                is_node_permutation(order@, n as nat),
                forall|m: int| 0 <= m < targets@.len() ==> #[trigger] targets@[m] < n,
                pos == exec_idx as int,
                exec_idx < n,
                last_used_at as int == max_target_position(order@, targets@.take(t as int), pos),
            decreases targets@.len() - t,
        {
            let target = targets[t];
            assert(order@.contains(target));
            let p = position_of(order, target);
            assert(targets@.take(t + 1).drop_last() =~= targets@.take(t as int));
            assert(targets@.take(t + 1).last() == target);
            proof {
                assert forall|m: int| 0 <= m < targets@.take(t as int).len() implies order@.contains(
                    #[trigger] targets@.take(t as int)[m],
                ) by {
                    assert(targets@.take(t as int)[m] == targets@[m]);
                    assert(order@.contains(targets@[m]));
                }
                lemma_max_target_position(order@, targets@.take(t as int), pos);
            }
            if p > last_used_at {
                last_used_at = p;
            }
            t = t + 1;
        }
        assert(targets@.take(targets@.len() as int) =~= targets@);
        let ghost base = last_used_at;
        let mut is_fb_source = false;
        if node == dest {
            last_used_at = usize::MAX;
        }
        let mut k: usize = 0;
        while k < feedback.len()
            invariant
                k <= feedback@.len(),
                is_fb_source <==> exists|j: int| 0 <= j < k && (#[trigger] feedback@[j]).0 == node,
                last_used_at == if node == dest || is_fb_source {
                    usize::MAX
                } else {
                    base
                },
            decreases feedback@.len() - k,
        {
            if feedback[k].0 == node {
                last_used_at = usize::MAX;
                is_fb_source = true;
            }
            k = k + 1;
        }
        assert(is_fb_source == is_feedback_source(feedback@, node));
        assert(last_used_at == last_use(order@, adj, feedback@, dest, node));
        lu.set(node, last_used_at);
        assert forall|i: int| 0 <= i < exec_idx + 1 implies lu@[#[trigger] order@[i] as int]
            == table[order@[i] as int] by {
            if i < exec_idx {
                assert(order@[i] != order@[exec_idx as int]);
            }
        }
        exec_idx = exec_idx + 1;
    }
    assert forall|v: int| 0 <= v < n implies lu@[v] == table[v] by {
        assert(order@.contains(v as usize));
        let i = choose|i: int| 0 <= i < order@.len() && order@[i] == v as usize;
    }
    assert(lu@ =~= table);
    assert forall|i: int| 0 <= i < n implies lu@[#[trigger] order@[i] as int] >= i by {
        let node = order@[i];
        assert(order@.contains(node));
        let pos = position_in(order@, node);
        assert(order@[pos] == node);
        assert(pos == i);
        if !(node == dest || is_feedback_source(feedback@, node)) {
            assert forall|m: int| 0 <= m < adj[node as int].len() implies order@.contains(
                #[trigger] adj[node as int][m],
            ) by {
                assert(adj[node as int] == edges@[node as int]@);
                assert(edges@[node as int]@[m] < n);
            }
            lemma_max_target_position(order@, adj[node as int], pos);
        }
    }
    lu
}

/// Runs the buffer planner over `order`: the buffer id of each node and the
/// number of buffers, exactly as `alloc_upto` states.
pub fn plan_buffers(order: &Vec<usize>, lu: &Vec<usize>) -> (r: (Vec<usize>, usize))
    requires
        plan_inputs_ok(order@, lu@, order@.len() as nat),
    ensures
        r.0@ == alloc_upto(order@, lu@, order@.len() as nat, order@.len() as int).assign,
        r.1 == alloc_upto(order@, lu@, order@.len() as nat, order@.len() as int).next,
{
    let n = order.len();
    let ghost nn = n as nat;
    let mut buffer_assignment: Vec<usize> = Vec::new();
    let mut v: usize = 0;
    while v < n
        invariant
            v <= n,
            buffer_assignment@ == Seq::new(v as nat, |i: int| 0usize),
        decreases n - v,
    {
        buffer_assignment.push(0);
        assert(buffer_assignment@ =~= Seq::new((v + 1) as nat, |i: int| 0usize));
        v = v + 1;
    }
    let mut free_list: Vec<usize> = Vec::new();
    let mut next_buffer_id: usize = 0;
    let mut active: Vec<usize> = Vec::new();
    let mut exec_idx: usize = 0;
    assert(alloc_upto(order@, lu@, nn, 0).assign =~= buffer_assignment@);
    while exec_idx < n
        invariant
            exec_idx <= n,
            n == order@.len(),
            nn == n as nat,
            plan_inputs_ok(order@, lu@, nn),
            buffer_assignment@ == alloc_upto(order@, lu@, nn, exec_idx as int).assign,
            free_list@ == alloc_upto(order@, lu@, nn, exec_idx as int).free,
            next_buffer_id as nat == alloc_upto(order@, lu@, nn, exec_idx as int).next,
            active@ == alloc_upto(order@, lu@, nn, exec_idx as int).active,
        decreases n - exec_idx,
    {
        let ghost k = exec_idx as int;
        let ghost st = alloc_upto(order@, lu@, nn, k);
        proof {
            lemma_alloc_inv(order@, lu@, nn, k);
        }
        let node = order[exec_idx];
        assert(order@.contains(node));
        let assigned = match free_list.pop() {
            Some(b) => b,
            None => {
                let id = next_buffer_id;
                next_buffer_id = next_buffer_id + 1;
                id
            },
        };
        buffer_assignment.set(node, assigned);
        active.push(node);
        let ghost assign1 = buffer_assignment@;
        let ghost active1 = active@;
        let ghost free1 = free_list@;
        assert(alloc_upto(order@, lu@, nn, k + 1) == alloc_step(st, node, lu@, k));
        assert forall|m: int| 0 <= m < active1.len() implies #[trigger] active1[m] < n by {
            if m < st.active.len() {
                assert(active1[m] == st.active[m]);
                let i = choose|i: int| 0 <= i < k && order@[i] == st.active[m];
            }
        }
        let mut kept: Vec<usize> = Vec::new();
        let mut i: usize = 0;
        while i < active.len()
            invariant
                i <= active@.len(),
                k == exec_idx as int,
                active@ == active1,
                buffer_assignment@ == assign1,
                lu@.len() == n,
                buffer_assignment@.len() == n,
                forall|m: int| 0 <= m < active1.len() ==> #[trigger] active1[m] < n,
                kept@ == still_active(active1.take(i as int), lu@, k),
                free_list@ == free1 + released_buffers(active1.take(i as int), assign1, lu@, k),
            decreases active@.len() - i,
        {
            let a = active[i];
            let ghost t1 = active1.take(i + 1);
            assert(t1.drop_last() =~= active1.take(i as int));
            assert(t1.last() == a);
            assert(t1.len() > 0);
            assert(still_active(t1, lu@, k) == if lu@[a as int] == k {
                still_active(active1.take(i as int), lu@, k)
            } else {
                still_active(active1.take(i as int), lu@, k).push(a)
            });
            assert(released_buffers(t1, assign1, lu@, k) == if lu@[a as int] == k {
                released_buffers(active1.take(i as int), assign1, lu@, k).push(assign1[a as int])
            } else {
                released_buffers(active1.take(i as int), assign1, lu@, k)
            });
            if lu[a] == exec_idx {
                free_list.push(buffer_assignment[a]);
                assert(free_list@ =~= free1 + released_buffers(t1, assign1, lu@, k));
            } else {
                kept.push(a);
            }
            i = i + 1;
        }
        assert(active1.take(active1.len() as int) =~= active1);
        active = kept;
        exec_idx = exec_idx + 1;
    }
    (buffer_assignment, next_buffer_id)
}

} // verus!
