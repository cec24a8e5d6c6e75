//! The dependency graph: reachability over an edge list, the acyclicity
//! invariant, and the checked directed graph that enforces it at every edge
//! insertion.

use vstd::prelude::*;

verus! {

/// `p` is a path from `a` to `b` over the directed edges `es`: it starts at
/// `a`, ends at `b`, and every adjacent pair is an edge. A single-node path
/// makes every node reachable from itself.
pub open spec fn has_path(es: Seq<(int, int)>, p: Seq<int>, a: int, b: int) -> bool {
    &&& p.len() >= 1
    &&& p[0] == a
    &&& p[p.len() - 1] == b
    &&& forall|k: int| 0 <= k < p.len() - 1 ==> es.contains((#[trigger] p[k], p[k + 1]))
}

/// `b` can be reached from `a` over zero or more edges.
pub open spec fn reachable(es: Seq<(int, int)>, a: int, b: int) -> bool {
    exists|p: Seq<int>| has_path(es, p, a, b)
}

/// No edge closes a cycle: no edge's target reaches back to its source.
pub open spec fn acyclic(es: Seq<(int, int)>) -> bool {
    forall|a: int, b: int| #[trigger] es.contains((a, b)) ==> !reachable(es, b, a)
}

pub proof fn lemma_reachable_refl(es: Seq<(int, int)>, a: int)
    ensures
        reachable(es, a, a),
{
    let p = seq![a];
    assert(has_path(es, p, a, a));
}

/// An edge followed by a path: `x -> z ->* y` gives `x ->* y`.
#[verifier::rlimit(30)]
pub proof fn lemma_reachable_step(es: Seq<(int, int)>, x: int, z: int, y: int)
    requires
        es.contains((x, z)),
        reachable(es, z, y),
    ensures
        reachable(es, x, y),
{
    let p = choose|p: Seq<int>| has_path(es, p, z, y);
    let q = seq![x] + p;
    assert(q[0] == x);
    assert(q.len() == p.len() + 1);
    assert(q[q.len() - 1] == p[p.len() - 1]);
    assert forall|k: int| 0 <= k < q.len() - 1 implies es.contains(
        (#[trigger] q[k], q[k + 1]),
    ) by {
        if k == 0 {
            assert(q[0] == x && q[1] == p[0]);
        } else {
            assert(q[k] == p[k - 1] && q[k + 1] == p[k]);
            assert(es.contains((p[k - 1], p[k])));
        }
    }
    assert(has_path(es, q, x, y));
}

/// Paths compose: `x ->* y ->* z` gives `x ->* z`.
pub proof fn lemma_reachable_trans(es: Seq<(int, int)>, x: int, y: int, z: int)
    requires
        reachable(es, x, y),
        reachable(es, y, z),
    ensures
        reachable(es, x, z),
{
    let p1 = choose|p: Seq<int>| has_path(es, p, x, y);
    let p2 = choose|p: Seq<int>| has_path(es, p, y, z);
    if p2.len() == 1 {
        assert(y == z);
        assert(has_path(es, p1, x, z));
    } else {
        let q = p1 + p2.subrange(1, p2.len() as int);
        let n1 = p1.len() as int;
        assert(q.len() == n1 + p2.len() - 1);
        assert(q[0] == p1[0]);
        assert(q[q.len() - 1] == p2[p2.len() - 1]);
        assert forall|k: int| 0 <= k < q.len() - 1 implies es.contains(
            (#[trigger] q[k], q[k + 1]),
        ) by {
            if k < n1 - 1 {
                assert(q[k] == p1[k] && q[k + 1] == p1[k + 1]);
                assert(es.contains((p1[k], p1[k + 1])));
            } else if k == n1 - 1 {
                assert(q[k] == p1[n1 - 1]);
                assert(p1[n1 - 1] == y && p2[0] == y);
                assert(q[k + 1] == p2.subrange(1, p2.len() as int)[0]);
                assert(q[k + 1] == p2[1]);
                assert(es.contains((p2[0], p2[1])));
            } else {
                assert(q[k] == p2[k - n1 + 1] && q[k + 1] == p2[k - n1 + 2]);
                assert(es.contains((p2[k - n1 + 1], p2[k - n1 + 2])));
            }
        }
        assert(has_path(es, q, x, z));
    }
}

/// A path that survives adding the edge `a -> b` either already existed, or
/// can be split at that edge: its start reaches `a`, and `b` reaches its end,
/// both over the old edges alone.
#[verifier::rlimit(50)]
proof fn lemma_path_push(es: Seq<(int, int)>, a: int, b: int, p: Seq<int>, x: int, y: int)
    requires
        has_path(es.push((a, b)), p, x, y),
        !reachable(es, b, a),
    ensures
        reachable(es, x, y) || (reachable(es, x, a) && reachable(es, b, y)),
    decreases p.len(),
{
    let es2 = es.push((a, b));
    if p.len() == 1 {
        assert(x == y);
        lemma_reachable_refl(es, x);
    } else {
        let z = p[1];
        assert(es2.contains((p[0], p[1])));
        let tail = p.drop_first();
        assert(has_path(es2, tail, z, y)) by {
            assert(tail[0] == p[1]);
            assert(tail[tail.len() - 1] == p[p.len() - 1]);
            assert(forall|k: int| 0 <= k < tail.len() ==> tail[k] == p[k + 1]);
            assert(forall|k: int|
                0 <= k < tail.len() - 1 ==> (#[trigger] tail[k], tail[k + 1]) == (
                    p[k + 1],
                    p[k + 2],
                ));
        }
        lemma_path_push(es, a, b, tail, z, y);
        if es.contains((x, z)) {
            if reachable(es, z, y) {
                lemma_reachable_step(es, x, z, y);
            } else {
                lemma_reachable_step(es, x, z, a);
            }
        } else {
            assert((x, z) == (a, b)) by {
                let i = choose|i: int| 0 <= i < es2.len() && es2[i] == (x, z);
                if i < es.len() {
                    assert(es[i] == es2[i]);
                    assert(es.contains((x, z)));
                } else {
                    assert(es2[es.len() as int] == (a, b));
                }
            }
            assert(x == a && z == b);
            if reachable(es, z, y) {
                lemma_reachable_refl(es, a);
            } else {
                assert(reachable(es, b, a));
            }
        }
    }
}

/// Guarded insertion preserves acyclicity: if the edges so far are acyclic
/// and the new edge's target does not already reach its source, the edge list
/// with the new edge appended is acyclic too. This is the invariant behind
/// admission-checked edge insertion.
pub proof fn lemma_acyclic_push(es: Seq<(int, int)>, a: int, b: int)
    requires
        acyclic(es),
        !reachable(es, b, a),
    ensures
        acyclic(es.push((a, b))),
{
    let es2 = es.push((a, b));
    assert forall|u: int, v: int| #[trigger] es2.contains((u, v)) implies !reachable(
        es2,
        v,
        u,
    ) by {
        if reachable(es2, v, u) {
            let p = choose|p: Seq<int>| has_path(es2, p, v, u);
            lemma_path_push(es, a, b, p, v, u);
            if es.contains((u, v)) {
                if reachable(es, v, u) {
                    assert(false);
                } else {
                    lemma_reachable_step(es, u, v, a);
                    lemma_reachable_trans(es, b, u, a);
                    assert(false);
                }
            } else {
                assert((u, v) == (a, b)) by {
                    let i = choose|i: int| 0 <= i < es2.len() && es2[i] == (u, v);
                    if i < es.len() {
                        assert(es[i] == es2[i]);
                        assert(es.contains((u, v)));
                    } else {
                        assert(es2[es.len() as int] == (a, b));
                    }
                }
                if reachable(es, v, u) {
                    assert(reachable(es, b, a));
                    assert(false);
                } else {
                    assert(reachable(es, v, a));
                    assert(reachable(es, b, a));
                    assert(false);
                }
            }
        }
    }
}

/// A directed graph that admits an edge only where the graph stays acyclic.
/// It holds petgraph's checked graph; Verus sees the value only through
/// `dag_node_count` and `dag_edge_list`.
#[verifier::external_body]
pub struct Dag {
    inner: petgraph::acyclic::Acyclic<petgraph::prelude::StableDiGraph<(), ()>>,
}

/// The number of nodes a checked graph holds.
pub uninterp spec fn dag_node_count(d: &Dag) -> int;

/// The directed edges a checked graph holds, in insertion order, each the
/// pair of its endpoint indices.
pub uninterp spec fn dag_edge_list(d: &Dag) -> Seq<(int, int)>;

/// Relies on petgraph's `Acyclic::new`: a newly created graph holds no nodes
/// and no edges.
#[verifier::external_body]
pub fn dag_new() -> (d: Dag)
    ensures
        dag_node_count(&d) == 0,
        dag_edge_list(&d) == Seq::<(int, int)>::empty(),
{
    Dag { inner: petgraph::acyclic::Acyclic::new() }
}

/// Relies on petgraph's `Build::add_node` for `Acyclic<StableDiGraph>`: since
/// this graph never removes a node, `StableGraph` assigns indices
/// sequentially from zero, so the new node's index is the old node count;
/// the edges are untouched. The count bound keeps the backing `u32` node
/// index away from its limit, at which petgraph panics.
#[verifier::external_body]
pub fn dag_add_node(d: &mut Dag) -> (ix: usize)
    requires
        dag_node_count(old(d)) < 0xffff_fffe,
    ensures
        dag_node_count(final(d)) == dag_node_count(old(d)) + 1,
        dag_edge_list(final(d)) == dag_edge_list(old(d)),
        ix == dag_node_count(old(d)),
{
    petgraph::data::Build::add_node(&mut d.inner, ()).index()
}

/// Relies on petgraph's `Acyclic::try_add_edge` (the Pearce–Kelly dynamic
/// topological sort): on a `StableDiGraph`, where plain edge addition cannot
/// fail, the edge `a -> b` is admitted exactly when it is no self-loop and no
/// path leads from `b` back to `a` — that is, when `b` does not reach `a`,
/// a zero-length path making every node reach itself. An admitted edge is
/// appended; a rejected one changes nothing. The endpoint bounds keep the
/// node lookups from panicking; the length bound keeps the backing `u32`
/// edge index away from its limit.
#[verifier::external_body]
pub fn dag_try_add_edge(d: &mut Dag, a: usize, b: usize) -> (ok: bool)
    requires
        a < dag_node_count(old(d)),
        b < dag_node_count(old(d)),
        dag_edge_list(old(d)).len() < 0xffff_fffe,
    ensures
        dag_node_count(final(d)) == dag_node_count(old(d)),
        ok == !reachable(dag_edge_list(old(d)), b as int, a as int),
        ok ==> dag_edge_list(final(d)) == dag_edge_list(old(d)).push((a as int, b as int)),
        !ok ==> dag_edge_list(final(d)) == dag_edge_list(old(d)),
{
    d.inner.try_add_edge(
        petgraph::graph::NodeIndex::new(a),
        petgraph::graph::NodeIndex::new(b),
        (),
    ).is_ok()
}

/// Relies on petgraph's `toposort`, run on the inner graph that the
/// `Acyclic` wrapper has kept cycle-free since construction, so the sort
/// cannot fail: it returns every node index exactly once, ordered so that
/// each edge's source comes before its target.
#[verifier::external_body]
pub fn dag_toposort(d: &Dag) -> (r: Vec<usize>)
    ensures
        r@.len() == dag_node_count(d),
        forall|i: int| 0 <= i < r@.len() ==> (#[trigger] r@[i]) < dag_node_count(d),
        forall|i: int, j: int|
            #![trigger r@[i], r@[j]]
            0 <= i < r@.len() && 0 <= j < r@.len() && i != j ==> r@[i] != r@[j],
        forall|i: int, j: int|
            #![trigger r@[i], r@[j]]
            0 <= i < r@.len() && 0 <= j < r@.len() && dag_edge_list(d).contains(
                (r@[i] as int, r@[j] as int),
            ) ==> i < j,
{
    let order = petgraph::algo::toposort(d.inner.inner(), None).unwrap();
    order.into_iter().map(|ix| ix.index()).collect()
}

/// The empty edge list is acyclic.
pub proof fn lemma_acyclic_empty()
    ensures
        acyclic(Seq::<(int, int)>::empty()),
{
    assert forall|a: int, b: int| #[trigger]
        Seq::<(int, int)>::empty().contains((a, b)) implies !reachable(
        Seq::<(int, int)>::empty(),
        b,
        a,
    ) by {
        assert(false);
    }
}

} // verus!
