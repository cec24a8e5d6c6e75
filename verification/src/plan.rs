//! The dependency graph engine: translating validated declarations and
//! relations into a directed graph with per-edge kinds, rejecting any edge
//! whose insertion would create a cycle, and exposing a deterministic
//! topological order.

use crate::ast::{id_text, ExprV, Manifest, PuppetExpr, RefV, RelationOp, ResourceRef};
use crate::errors::{ErrV, PuppetError};
use crate::graph::{
    acyclic, dag_add_node, dag_edge_list, dag_new, dag_node_count, dag_toposort,
    dag_try_add_edge, lemma_acyclic_empty, lemma_acyclic_push, reachable, Dag,
};
use crate::pstring::segs_text;
use crate::resources::{known_type, Relation, ResourceNode};
use crate::validate::decl_refs;
use vstd::prelude::*;

verus! {

/// The identity key of a reference.
pub open spec fn rid(r: RefV) -> Seq<char> {
    id_text(r.rtype, r.title)
}

/// The identity keys of the declared resources, in declaration order.
pub open spec fn decl_ids(es: Seq<ExprV>) -> Seq<Seq<char>> {
    decl_refs(es).map_values(|r: RefV| rid(r))
}

/// The node an identity key resolves to: the *last* declaration with that
/// key, or -1 where none matches. A later declaration of the same key
/// overwrites the lookup entry; the earlier node stays in the graph as an
/// unreferenced orphan.
pub open spec fn node_of(ids: Seq<Seq<char>>, id: Seq<char>) -> int
    decreases ids.len(),
{
    if ids.len() == 0 {
        -1
    } else if ids.last() == id {
        ids.len() - 1
    } else {
        node_of(ids.drop_last(), id)
    }
}

/// The first declared type name the registry does not know, in declaration
/// order.
pub open spec fn first_unknown(ds: Seq<RefV>) -> Option<Seq<char>>
    decreases ds.len(),
{
    if ds.len() == 0 {
        None
    } else if !known_type(ds[0].rtype) {
        Some(ds[0].rtype)
    } else {
        first_unknown(ds.drop_first())
    }
}

/// Direction normalization: `Require` and `Subscribe` mirror `Provide` and
/// `Notify`, so parsing swaps the sides; an edge always points from the thing
/// that must happen first to the thing that depends on it.
pub open spec fn normalize(from: Seq<RefV>, to: Seq<RefV>, op: RelationOp) -> (
    Seq<RefV>,
    Seq<RefV>,
    Relation,
) {
    match op {
        RelationOp::Provide => (from, to, Relation::Provide),
        RelationOp::Require => (to, from, Relation::Provide),
        RelationOp::Notify => (from, to, Relation::Notify),
        RelationOp::Subscribe => (to, from, Relation::Notify),
    }
}

/// Operator mirroring: `X <- Y` normalizes to the very edges of `Y -> X`,
/// and `X <~ Y` to the very edges of `Y ~> X`.
pub proof fn lemma_operator_mirroring(from: Seq<RefV>, to: Seq<RefV>)
    ensures
        normalize(from, to, RelationOp::Require) == normalize(to, from, RelationOp::Provide),
        normalize(from, to, RelationOp::Subscribe) == normalize(to, from, RelationOp::Notify),
{
}

/// The edge intents of one source reference crossed with every target
/// reference, in target order.
pub open spec fn row_pairs(f: RefV, to: Seq<RefV>, kind: Relation) -> Seq<(RefV, RefV, Relation)>
    decreases to.len(),
{
    if to.len() == 0 {
        Seq::empty()
    } else {
        seq![(f, to[0], kind)] + row_pairs(f, to.drop_first(), kind)
    }
}

/// The Cartesian expansion of one normalized relation: every `from`
/// reference crossed with every `to` reference, row-major.
pub open spec fn cart_pairs(from: Seq<RefV>, to: Seq<RefV>, kind: Relation) -> Seq<
    (RefV, RefV, Relation),
>
    decreases from.len(),
{
    if from.len() == 0 {
        Seq::empty()
    } else {
        row_pairs(from[0], to, kind) + cart_pairs(from.drop_first(), to, kind)
    }
}

proof fn lemma_row_pairs(f: RefV, to: Seq<RefV>, kind: Relation)
    ensures
        row_pairs(f, to, kind).len() == to.len(),
        forall|j: int|
            0 <= j < to.len() ==> #[trigger] row_pairs(f, to, kind)[j] == (f, to[j], kind),
    decreases to.len(),
{
    if to.len() > 0 {
        lemma_row_pairs(f, to.drop_first(), kind);
        assert(forall|j: int|
            0 <= j < to.drop_first().len() ==> to.drop_first()[j] == to[j + 1]);
    }
}

/// Cartesian expansion: a relation with `m` sources and `n` targets expands
/// to exactly `m * n` edge intents, the pair of source `i` and target `j`
/// standing at row-major position `i * n + j`, each with the relation's kind.
pub proof fn lemma_cartesian_expansion(from: Seq<RefV>, to: Seq<RefV>, kind: Relation)
    ensures
        cart_pairs(from, to, kind).len() == from.len() * to.len(),
        forall|i: int, j: int|
            0 <= i < from.len() && 0 <= j < to.len() ==> #[trigger] cart_pairs(
                from,
                to,
                kind,
            )[i * to.len() + j] == (from[i], to[j], kind),
    decreases from.len(),
{
    if from.len() > 0 {
        lemma_row_pairs(from[0], to, kind);
        lemma_cartesian_expansion(from.drop_first(), to, kind);
        let c = cart_pairs(from, to, kind);
        let rest = cart_pairs(from.drop_first(), to, kind);
        let n = to.len() as int;
        let m = from.len() as int;
        assert(rest.len() == (m - 1) * n) by (nonlinear_arith)
            requires
                rest.len() == from.drop_first().len() * to.len(),
                from.drop_first().len() == m - 1,
                to.len() == n,
        ;
        assert(c.len() == n + (m - 1) * n);
        assert(c.len() == m * n) by (nonlinear_arith)
            requires
                c.len() == n + (m - 1) * n,
        ;
        assert forall|i: int, j: int| 0 <= i < m && 0 <= j < n implies #[trigger] c[i * n + j]
            == (from[i], to[j], kind) by {
            if i == 0 {
                assert(c[j] == row_pairs(from[0], to, kind)[j]);
            } else {
                assert(i * n + j == n + ((i - 1) * n + j) && 0 <= (i - 1) * n + j < (m - 1) * n)
                    by (nonlinear_arith)
                    requires
                        1 <= i < m,
                        0 <= j < n,
                ;
                assert(c[i * n + j] == rest[(i - 1) * n + j]);
                assert(from.drop_first()[i - 1] == from[i]);
            }
        }
    }
}

/// The edge intents of a whole expression sequence: each relation statement
/// normalized and expanded, in source order.
pub open spec fn planned_pairs(es: Seq<ExprV>) -> Seq<(RefV, RefV, Relation)>
    decreases es.len(),
{
    if es.len() == 0 {
        Seq::empty()
    } else {
        (match es[0] {
            ExprV::Rel { from, to, op } => {
                let (f, t, k) = normalize(from, to, op);
                cart_pairs(f, t, k)
            },
            _ => Seq::empty(),
        }) + planned_pairs(es.drop_first())
    }
}

/// The endpoint pairs of a kinded edge list.
pub open spec fn edge_pairs(es: Seq<(int, int, Relation)>) -> Seq<(int, int)> {
    es.map_values(|e: (int, int, Relation)| (e.0, e.1))
}

/// Sequential admission of edge intents against the edges admitted so far:
/// an endpoint no declaration provides is a broken internal invariant; an
/// edge whose target already reaches its source is rejected and aborts the
/// build; an admitted edge is appended. The result is the full admitted edge
/// list, or the error that aborted the build.
pub open spec fn admit_edges(
    ids: Seq<Seq<char>>,
    pending: Seq<(RefV, RefV, Relation)>,
    acc: Seq<(int, int, Relation)>,
) -> Result<Seq<(int, int, Relation)>, ErrV>
    decreases pending.len(),
{
    if pending.len() == 0 {
        Ok(acc)
    } else {
        let (f, t, kind) = pending[0];
        let a = node_of(ids, rid(f));
        let b = node_of(ids, rid(t));
        if a < 0 {
            Err(ErrV::MissingResource { id: rid(f) })
        } else if b < 0 {
            Err(ErrV::MissingResource { id: rid(t) })
        } else if reachable(edge_pairs(acc), b, a) {
            Err(ErrV::Cycle { from: rid(f), to: rid(t) })
        } else {
            admit_edges(ids, pending.drop_first(), acc.push((a, b, kind)))
        }
    }
}

/// Admission processes a concatenation left to right: the first part runs
/// from the given accumulator, and where it succeeds the second part runs
/// from its result.
pub proof fn lemma_admit_append(
    ids: Seq<Seq<char>>,
    a: Seq<(RefV, RefV, Relation)>,
    b: Seq<(RefV, RefV, Relation)>,
    acc: Seq<(int, int, Relation)>,
)
    ensures
        admit_edges(ids, a + b, acc) == (match admit_edges(ids, a, acc) {
            Ok(acc2) => admit_edges(ids, b, acc2),
            Err(e) => Err(e),
        }),
    decreases a.len(),
{
    if a.len() == 0 {
        assert(a + b =~= b);
    } else {
        let ab = a + b;
        assert(ab[0] == a[0]);
        let (f, t, kind) = a[0];
        let na = node_of(ids, rid(f));
        let nb = node_of(ids, rid(t));
        if na >= 0 && nb >= 0 && !reachable(edge_pairs(acc), nb, na) {
            assert(ab.drop_first() =~= a.drop_first() + b);
            lemma_admit_append(ids, a.drop_first(), b, acc.push((na, nb, kind)));
        }
    }
}

/// An identity key present in the list resolves to a node.
proof fn lemma_node_of_found(ids: Seq<Seq<char>>, id: Seq<char>)
    requires
        exists|m: int| 0 <= m < ids.len() && ids[m] == id,
    ensures
        node_of(ids, id) >= 0,
    decreases ids.len(),
{
    if ids.last() != id {
        let m = choose|m: int| 0 <= m < ids.len() && ids[m] == id;
        assert(m < ids.len() - 1);
        assert(ids.drop_last()[m] == ids[m]);
        lemma_node_of_found(ids.drop_last(), id);
    }
}

/// A declared reference's identity key resolves to a node.
proof fn lemma_declared_resolves(es: Seq<ExprV>, r: RefV)
    requires
        crate::validate::is_declared(es, r),
    ensures
        node_of(decl_ids(es), rid(r)) >= 0,
{
    let ds = decl_refs(es);
    let m = choose|m: int| 0 <= m < ds.len() && ds[m].rtype == r.rtype && ds[m].title == r.title;
    assert(rid(ds[m]) == rid(r));
    assert(decl_ids(es)[m] == rid(ds[m]));
    lemma_node_of_found(decl_ids(es), rid(r));
}

/// Both endpoints of every expanded edge intent of a row resolve, where the
/// source and every target do.
proof fn lemma_row_resolves(ids: Seq<Seq<char>>, f: RefV, to: Seq<RefV>, kind: Relation)
    requires
        node_of(ids, rid(f)) >= 0,
        forall|j: int| 0 <= j < to.len() ==> node_of(ids, rid(#[trigger] to[j])) >= 0,
    ensures
        forall|q: int|
            0 <= q < row_pairs(f, to, kind).len() ==> node_of(
                ids,
                rid((#[trigger] row_pairs(f, to, kind)[q]).0),
            ) >= 0 && node_of(ids, rid(row_pairs(f, to, kind)[q].1)) >= 0,
    decreases to.len(),
{
    if to.len() > 0 {
        assert(forall|j: int| 0 <= j < to.drop_first().len() ==> to.drop_first()[j] == to[j + 1]);
        lemma_row_resolves(ids, f, to.drop_first(), kind);
        let row = row_pairs(f, to, kind);
        let rest = row_pairs(f, to.drop_first(), kind);
        assert forall|q: int| 0 <= q < row.len() implies node_of(
            ids,
            rid((#[trigger] row[q]).0),
        ) >= 0 && node_of(ids, rid(row[q].1)) >= 0 by {
            if q == 0 {
                assert(row[0] == (f, to[0], kind));
            } else {
                assert(row[q] == rest[q - 1]);
            }
        }
    }
}

/// Both endpoints of every expanded edge intent of a Cartesian product
/// resolve, where every source and every target do.
proof fn lemma_cart_resolves(ids: Seq<Seq<char>>, from: Seq<RefV>, to: Seq<RefV>, kind: Relation)
    requires
        forall|j: int| 0 <= j < from.len() ==> node_of(ids, rid(#[trigger] from[j])) >= 0,
        forall|j: int| 0 <= j < to.len() ==> node_of(ids, rid(#[trigger] to[j])) >= 0,
    ensures
        forall|q: int|
            0 <= q < cart_pairs(from, to, kind).len() ==> node_of(
                ids,
                rid((#[trigger] cart_pairs(from, to, kind)[q]).0),
            ) >= 0 && node_of(ids, rid(cart_pairs(from, to, kind)[q].1)) >= 0,
    decreases from.len(),
{
    if from.len() > 0 {
        lemma_row_resolves(ids, from[0], to, kind);
        assert(forall|j: int|
            0 <= j < from.drop_first().len() ==> from.drop_first()[j] == from[j + 1]);
        lemma_cart_resolves(ids, from.drop_first(), to, kind);
        let c = cart_pairs(from, to, kind);
        let row = row_pairs(from[0], to, kind);
        let rest = cart_pairs(from.drop_first(), to, kind);
        assert forall|q: int| 0 <= q < c.len() implies node_of(ids, rid((#[trigger] c[q]).0))
            >= 0 && node_of(ids, rid(c[q].1)) >= 0 by {
            if q < row.len() {
                assert(c[q] == row[q]);
            } else {
                assert(c[q] == rest[q - row.len()]);
            }
        }
    }
}

/// Both endpoints of every planned edge intent resolve, where every relation
/// reference is declared.
proof fn lemma_planned_resolves(full: Seq<ExprV>, es: Seq<ExprV>)
    requires
        forall|k: int, m: int|
            0 <= k < es.len() && 0 <= m < crate::validate::rel_refs(es[k]).len()
                ==> crate::validate::is_declared(full, crate::validate::rel_refs(es[k])[m]),
    ensures
        forall|q: int|
            0 <= q < planned_pairs(es).len() ==> node_of(
                decl_ids(full),
                rid((#[trigger] planned_pairs(es)[q]).0),
            ) >= 0 && node_of(decl_ids(full), rid(planned_pairs(es)[q].1)) >= 0,
    decreases es.len(),
{
    let ids = decl_ids(full);
    if es.len() > 0 {
        assert(forall|k: int| 0 <= k < es.drop_first().len() ==> es.drop_first()[k] == es[k + 1]);
        assert(forall|k: int, m: int|
            0 <= k < es.drop_first().len() && 0 <= m < crate::validate::rel_refs(
                es.drop_first()[k],
            ).len() ==> crate::validate::is_declared(
                full,
                crate::validate::rel_refs(es.drop_first()[k])[m],
            ));
        lemma_planned_resolves(full, es.drop_first());
        let head = match es[0] {
            ExprV::Rel { from, to, op } => {
                let (f, t, k) = normalize(from, to, op);
                cart_pairs(f, t, k)
            },
            _ => Seq::empty(),
        };
        match es[0] {
            ExprV::Rel { from, to, op } => {
                let rr = crate::validate::rel_refs(es[0]);
                assert(rr == from + to);
                assert forall|j: int| 0 <= j < from.len() implies node_of(
                    ids,
                    rid(#[trigger] from[j]),
                ) >= 0 by {
                    assert(rr[j] == from[j]);
                    assert(crate::validate::is_declared(full, rr[j]));
                    lemma_declared_resolves(full, from[j]);
                }
                assert forall|j: int| 0 <= j < to.len() implies node_of(
                    ids,
                    rid(#[trigger] to[j]),
                ) >= 0 by {
                    assert(rr[from.len() + j] == to[j]);
                    assert(crate::validate::is_declared(full, rr[from.len() + j]));
                    lemma_declared_resolves(full, to[j]);
                }
                let (f, t, kk) = normalize(from, to, op);
                lemma_cart_resolves(ids, f, t, kk);
            },
            _ => {},
        }
        let c = planned_pairs(es);
        let rest = planned_pairs(es.drop_first());
        assert forall|q: int| 0 <= q < c.len() implies node_of(ids, rid((#[trigger] c[q]).0))
            >= 0 && node_of(ids, rid(c[q].1)) >= 0 by {
            if q < head.len() {
                assert(c[q] == head[q]);
            } else {
                assert(c[q] == rest[q - head.len()]);
            }
        }
    }
}

/// Admission of fully resolving edge intents never reports a missing
/// endpoint.
proof fn lemma_admit_no_missing(
    ids: Seq<Seq<char>>,
    pending: Seq<(RefV, RefV, Relation)>,
    acc: Seq<(int, int, Relation)>,
)
    requires
        forall|q: int|
            0 <= q < pending.len() ==> node_of(ids, rid((#[trigger] pending[q]).0)) >= 0
                && node_of(ids, rid(pending[q].1)) >= 0,
    ensures
        !(admit_edges(ids, pending, acc) matches Err(e) && e is MissingResource),
    decreases pending.len(),
{
    if pending.len() > 0 {
        let (f, t, kind) = pending[0];
        let a = node_of(ids, rid(f));
        let b = node_of(ids, rid(t));
        assert(a >= 0 && b >= 0);
        if !reachable(edge_pairs(acc), b, a) {
            assert(forall|q: int|
                0 <= q < pending.drop_first().len() ==> pending.drop_first()[q] == pending[q
                    + 1]);
            lemma_admit_no_missing(ids, pending.drop_first(), acc.push((a, b, kind)));
        }
    }
}

/// Validation covers construction: once every relation reference is declared,
/// compiling can only succeed or stop at an unknown declared type or at an
/// edge that would close a cycle — the missing-endpoint invariant violation
/// is unreachable.
pub proof fn lemma_validation_covers_build(es: Seq<ExprV>)
    requires
        crate::validate::refs_valid(es),
    ensures
        match build_result(es) {
            Ok(_) => true,
            Err(e) => e is UnknownType || e is Cycle,
        },
{
    crate::validate::lemma_reference_completeness(es);
    if first_unknown(decl_refs(es)) is None {
        lemma_planned_resolves(es, es);
        lemma_admit_no_missing(decl_ids(es), planned_pairs(es), Seq::empty());
        let r = admit_edges(decl_ids(es), planned_pairs(es), Seq::empty());
        if r is Err {
            let e = r->Err_0;
            assert(!(e is MissingResource));
            assert(e is Cycle) by {
                lemma_admit_err_kind(decl_ids(es), planned_pairs(es), Seq::empty());
            }
        }
    }
}

/// Admission fails only with a missing endpoint or a rejected edge.
proof fn lemma_admit_err_kind(
    ids: Seq<Seq<char>>,
    pending: Seq<(RefV, RefV, Relation)>,
    acc: Seq<(int, int, Relation)>,
)
    ensures
        admit_edges(ids, pending, acc) matches Err(e) ==> e is MissingResource || e is Cycle,
    decreases pending.len(),
{
    if pending.len() > 0 {
        let (f, t, kind) = pending[0];
        let a = node_of(ids, rid(f));
        let b = node_of(ids, rid(t));
        if a >= 0 && b >= 0 && !reachable(edge_pairs(acc), b, a) {
            lemma_admit_err_kind(ids, pending.drop_first(), acc.push((a, b, kind)));
        }
    }
}

/// The outcome of compiling a validated expression sequence into a graph:
/// the admitted edge list in insertion order, or the first error — an
/// unknown declared type, then (per relation, source order, row-major) a
/// missing endpoint or a rejected, cycle-making edge.
pub open spec fn build_result(es: Seq<ExprV>) -> Result<Seq<(int, int, Relation)>, ErrV> {
    match first_unknown(decl_refs(es)) {
        Some(t) => Err(ErrV::UnknownType { rtype: t }),
        None => admit_edges(decl_ids(es), planned_pairs(es), Seq::empty()),
    }
}

/// One admitted edge: endpoint node indices and the edge kind.
#[derive(Debug, Clone, Copy)]
pub struct Edge {
    pub from: usize,
    pub to: usize,
    pub kind: Relation,
}

impl View for Edge {
    type V = (int, int, Relation);

    open spec fn view(&self) -> (int, int, Relation) {
        (self.from as int, self.to as int, self.kind)
    }
}

/// The ghost edges of an owned edge list.
pub open spec fn edges_view(v: Seq<Edge>) -> Seq<(int, int, Relation)> {
    v.map_values(|e: Edge| e@)
}

/// The ghost identity keys of an owned key list.
pub open spec fn ids_view(v: Seq<String>) -> Seq<Seq<char>> {
    v.map_values(|s: String| s@)
}

/// The compiled plan: resource nodes in declaration order, the admitted
/// kinded edges in insertion order, and the checked graph that admitted
/// them. Acyclic by construction: the invariant is enforced at every
/// insertion, never re-checked afterwards.
pub struct Plan {
    resources: Vec<ResourceNode>,
    edges: Vec<Edge>,
    dag: Dag,
}

impl Plan {
    /// The resource nodes, in declaration order; a node's index is its
    /// position here.
    pub closed spec fn spec_resources(&self) -> Seq<ResourceNode> {
        self.resources@
    }

    /// The admitted edges, in insertion order.
    pub closed spec fn spec_edges(&self) -> Seq<(int, int, Relation)> {
        edges_view(self.edges@)
    }

    #[verifier::type_invariant]
    spec fn inv(&self) -> bool {
        &&& dag_node_count(&self.dag) == self.resources@.len()
        &&& dag_edge_list(&self.dag) == edge_pairs(edges_view(self.edges@))
        &&& acyclic(edge_pairs(edges_view(self.edges@)))
        &&& forall|m: int|
            0 <= m < self.edges@.len() ==> 0 <= (#[trigger] self.edges@[m]@).0
                < self.resources@.len() && 0 <= self.edges@[m]@.1 < self.resources@.len()
    }
}

/// Acyclicity invariant: whatever edge intents are processed, every edge
/// list that guarded admission returns successfully is acyclic — each edge
/// was admitted only where its target did not already reach its source.
pub proof fn lemma_admitted_acyclic(
    ids: Seq<Seq<char>>,
    pending: Seq<(RefV, RefV, Relation)>,
    acc: Seq<(int, int, Relation)>,
    es: Seq<(int, int, Relation)>,
)
    requires
        acyclic(edge_pairs(acc)),
        admit_edges(ids, pending, acc) == Ok::<Seq<(int, int, Relation)>, ErrV>(es),
    ensures
        acyclic(edge_pairs(es)),
    decreases pending.len(),
{
    if pending.len() == 0 {
        assert(es == acc);
    } else {
        let (f, t, kind) = pending[0];
        let a = node_of(ids, rid(f));
        let b = node_of(ids, rid(t));
        assert(a >= 0 && b >= 0 && !reachable(edge_pairs(acc), b, a));
        let acc2 = acc.push((a, b, kind));
        assert(edge_pairs(acc2) =~= edge_pairs(acc).push((a, b)));
        lemma_acyclic_push(edge_pairs(acc), a, b);
        lemma_admitted_acyclic(ids, pending.drop_first(), acc2, es);
    }
}

/// The outgoing edges of a node among a kinded edge list, in insertion
/// order: each target with the edge's kind.
pub open spec fn outgoing_of(es: Seq<(int, int, Relation)>, a: int) -> Seq<(Relation, int)>
    decreases es.len(),
{
    if es.len() == 0 {
        Seq::empty()
    } else {
        (if es[0].0 == a {
            seq![(es[0].2, es[0].1)]
        } else {
            Seq::empty()
        }) + outgoing_of(es.drop_first(), a)
    }
}

/// The decimal digit of a value below ten.
pub open spec fn dec_digit(n: int) -> char {
    if n == 0 {
        '0'
    } else if n == 1 {
        '1'
    } else if n == 2 {
        '2'
    } else if n == 3 {
        '3'
    } else if n == 4 {
        '4'
    } else if n == 5 {
        '5'
    } else if n == 6 {
        '6'
    } else if n == 7 {
        '7'
    } else if n == 8 {
        '8'
    } else {
        '9'
    }
}

/// The decimal rendering of a non-negative value.
pub open spec fn dec_text(n: int) -> Seq<char>
    decreases n,
{
    if n < 10 {
        seq![dec_digit(n)]
    } else {
        dec_text(n / 10) + seq![dec_digit(n % 10)]
    }
}

fn digit_char(n: usize) -> (r: char)
    requires
        n < 10,
    ensures
        r == dec_digit(n as int),
{
    if n == 0 {
        '0'
    } else if n == 1 {
        '1'
    } else if n == 2 {
        '2'
    } else if n == 3 {
        '3'
    } else if n == 4 {
        '4'
    } else if n == 5 {
        '5'
    } else if n == 6 {
        '6'
    } else if n == 7 {
        '7'
    } else if n == 8 {
        '8'
    } else {
        '9'
    }
}

/// The decimal rendering of a node index.
fn usize_text(n: usize) -> (r: String)
    ensures
        r@ == dec_text(n as int),
    decreases n,
{
    if n < 10 {
        let mut r = String::new();
        crate::pstring::push_char(&mut r, digit_char(n));
        proof {
            assert(r@ =~= dec_text(n as int));
        }
        r
    } else {
        let mut r = usize_text(n / 10);
        crate::pstring::push_char(&mut r, digit_char(n % 10));
        proof {
            assert(r@ =~= dec_text(n as int));
        }
        r
    }
}

/// The node lines of the graph projection, one per node from index `base`.
pub open spec fn dot_node_lines(ids: Seq<Seq<char>>, base: int) -> Seq<char>
    decreases ids.len(),
{
    if ids.len() == 0 {
        Seq::empty()
    } else {
        "    "@ + dec_text(base) + " [ label = \""@ + ids[0] + "\" ]\n"@ + dot_node_lines(
            ids.drop_first(),
            base + 1,
        )
    }
}

/// The edge lines of the graph projection, one per edge in insertion order.
pub open spec fn dot_edge_lines(es: Seq<(int, int, Relation)>) -> Seq<char>
    decreases es.len(),
{
    if es.len() == 0 {
        Seq::empty()
    } else {
        "    "@ + dec_text(es[0].0) + " -> "@ + dec_text(es[0].1) + " [ label = \""@
            + es[0].2.spec_symbol() + "\" ]\n"@ + dot_edge_lines(es.drop_first())
    }
}

/// The graph-description text: nodes labelled by composite id, edges by their
/// kind's arrow, in the common graph-description language.
pub open spec fn dot_text(ids: Seq<Seq<char>>, es: Seq<(int, int, Relation)>) -> Seq<char> {
    "digraph {\n"@ + dot_node_lines(ids, 0) + dot_edge_lines(es) + "}\n"@
}

impl Plan {
    /// How many nodes the plan holds.
    pub fn node_count(&self) -> (r: usize)
        ensures
            r == self.spec_resources().len(),
    {
        self.resources.len()
    }

    /// How many edges the plan holds.
    pub fn edge_count(&self) -> (r: usize)
        ensures
            r == self.spec_edges().len(),
    {
        self.edges.len()
    }

    /// The node at an index.
    pub fn resource(&self, ix: usize) -> (r: Option<&ResourceNode>)
        ensures
            match r {
                Some(node) => ix < self.spec_resources().len() && *node
                    == self.spec_resources()[ix as int],
                None => ix >= self.spec_resources().len(),
            },
    {
        if ix < self.resources.len() {
            Some(&self.resources[ix])
        } else {
            None
        }
    }

    /// The checked graph underlying the plan.
    pub fn plan(&self) -> (r: &Dag)
        ensures
            dag_node_count(r) == self.spec_resources().len(),
            dag_edge_list(r) == edge_pairs(self.spec_edges()),
    {
        proof {
            use_type_invariant(self);
        }
        &self.dag
    }

    /// A deterministic topological order of the node indices: every node
    /// exactly once, and for every edge the source before the target. Since
    /// acyclicity is enforced at every insertion, the sort cannot fail; the
    /// result type stays a `Result` for defensive use.
    pub fn sorted(&self) -> (r: Result<Vec<usize>, PuppetError>)
        ensures
            match r {
                Ok(order) => {
                    &&& order@.len() == self.spec_resources().len()
                    &&& forall|i: int|
                        0 <= i < order@.len() ==> (#[trigger] order@[i]) < self.spec_resources().len()
                    &&& forall|i: int, j: int|
                        #![trigger order@[i], order@[j]]
                        0 <= i < order@.len() && 0 <= j < order@.len() && i != j ==> order@[i]
                            != order@[j]
                    &&& forall|i: int, j: int|
                        #![trigger order@[i], order@[j]]
                        0 <= i < order@.len() && 0 <= j < order@.len() && edge_pairs(
                            self.spec_edges(),
                        ).contains((order@[i] as int, order@[j] as int)) ==> i < j
                },
                Err(_) => false,
            },
    {
        proof {
            use_type_invariant(self);
        }
        Ok(dag_toposort(&self.dag))
    }

    /// The nodes in topological order, each with its index: the execution
    /// report order.
    pub fn sorted_weights(&self) -> (r: Result<Vec<(usize, &ResourceNode)>, PuppetError>)
        ensures
            match r {
                Ok(w) => {
                    &&& w@.len() == self.spec_resources().len()
                    &&& forall|i: int|
                        0 <= i < w@.len() ==> ((#[trigger] w@[i]).0 as int)
                            < self.spec_resources().len() && *w@[i].1
                            == self.spec_resources()[w@[i].0 as int]
                    &&& forall|i: int, j: int|
                        #![trigger w@[i], w@[j]]
                        0 <= i < w@.len() && 0 <= j < w@.len() && i != j ==> w@[i].0 != w@[j].0
                    &&& forall|i: int, j: int|
                        #![trigger w@[i], w@[j]]
                        0 <= i < w@.len() && 0 <= j < w@.len() && edge_pairs(
                            self.spec_edges(),
                        ).contains((w@[i].0 as int, w@[j].0 as int)) ==> i < j
                },
                Err(_) => false,
            },
    {
        let order = match self.sorted() {
            Ok(order) => order,
            Err(e) => {
                return Err(e);
            },
        };
        let mut w: Vec<(usize, &ResourceNode)> = Vec::new();
        let n = order.len();
        let mut t: usize = 0;
        while t < n
            invariant
                t <= n == order@.len(),
                order@.len() == self.spec_resources().len(),
                self.resources@ == self.spec_resources(),
                forall|i: int|
                    0 <= i < order@.len() ==> (#[trigger] order@[i])
                        < self.spec_resources().len(),
                w@.len() == t,
                forall|i: int| 0 <= i < t ==> (#[trigger] w@[i]).0 == order@[i],
                forall|i: int|
                    0 <= i < t ==> *(#[trigger] w@[i]).1 == self.spec_resources()[w@[i].0 as int],
            decreases n - t,
        {
            let ix = order[t];
            w.push((ix, &self.resources[ix]));
            t += 1;
        }
        Ok(w)
    }

    /// The outgoing edges of a node, in insertion order: each edge's kind and
    /// target index.
    pub fn outgoing_edges(&self, ix: usize) -> (r: Vec<(Relation, usize)>)
        ensures
            r@.map_values(|p: (Relation, usize)| (p.0, p.1 as int)) == outgoing_of(
                self.spec_edges(),
                ix as int,
            ),
    {
        proof {
            use_type_invariant(self);
        }
        let ghost es = self.spec_edges();
        let mut r: Vec<(Relation, usize)> = Vec::new();
        let n = self.edges.len();
        let mut k: usize = 0;
        proof {
            assert(es.skip(0) =~= es);
            assert(r@.map_values(|p: (Relation, usize)| (p.0, p.1 as int)) + outgoing_of(es, ix as int)
                =~= outgoing_of(es, ix as int));
        }
        while k < n
            invariant
                k <= n == self.edges@.len(),
                es == self.spec_edges(),
                forall|m: int|
                    0 <= m < self.edges@.len() ==> 0 <= (#[trigger] self.edges@[m]@).0
                        < self.resources@.len() && 0 <= self.edges@[m]@.1
                        < self.resources@.len(),
                r@.map_values(|p: (Relation, usize)| (p.0, p.1 as int)) + outgoing_of(
                    es.skip(k as int),
                    ix as int,
                ) == outgoing_of(es, ix as int),
            decreases n - k,
        {
            let ghost pre = r@.map_values(|p: (Relation, usize)| (p.0, p.1 as int));
            let ghost tail = es.skip(k as int);
            proof {
                assert(tail[0] == es[k as int]);
                assert(tail.drop_first() =~= es.skip(k as int + 1));
            }
            let e = &self.edges[k];
            if e.from == ix {
                r.push((e.kind, e.to));
                proof {
                    assert(r@.map_values(|p: (Relation, usize)| (p.0, p.1 as int)) =~= pre.push(
                        (es[k as int].2, es[k as int].1),
                    ));
                    assert(r@.map_values(|p: (Relation, usize)| (p.0, p.1 as int)) + outgoing_of(
                        es.skip(k as int + 1),
                        ix as int,
                    ) =~= outgoing_of(es, ix as int));
                }
            } else {
                proof {
                    assert(pre + outgoing_of(es.skip(k as int + 1), ix as int) =~= outgoing_of(
                        es,
                        ix as int,
                    ));
                }
            }
            k += 1;
        }
        proof {
            assert(es.skip(n as int) =~= Seq::<(int, int, Relation)>::empty());
            assert(r@.map_values(|p: (Relation, usize)| (p.0, p.1 as int)) + outgoing_of(
                es.skip(n as int),
                ix as int,
            ) =~= r@.map_values(|p: (Relation, usize)| (p.0, p.1 as int)));
        }
        r
    }

    /// The graph-description projection of the plan: every node labelled by
    /// its composite id, every edge by its kind's arrow. A debugging and
    /// rendering aid, not authoritative data.
    pub fn dot(&self) -> (r: String)
        ensures
            r@ == dot_text(
                self.spec_resources().map_values(|n: ResourceNode| n.spec_id()),
                self.spec_edges(),
            ),
    {
        proof {
            use_type_invariant(self);
        }
        let ghost ids = self.spec_resources().map_values(|n: ResourceNode| n.spec_id());
        let ghost es = self.spec_edges();
        let mut r = String::new().concat("digraph {\n");
        let n = self.resources.len();
        let mut k: usize = 0;
        proof {
            assert(ids.skip(0) =~= ids);
            assert(r@ =~= "digraph {\n"@);
        }
        while k < n
            invariant
                k <= n == self.resources@.len(),
                ids == self.spec_resources().map_values(|n: ResourceNode| n.spec_id()),
                self.resources@ == self.spec_resources(),
                r@ + dot_node_lines(ids.skip(k as int), k as int) == "digraph {\n"@
                    + dot_node_lines(ids, 0),
            decreases n - k,
        {
            let ghost pre = r@;
            let ghost tail = ids.skip(k as int);
            proof {
                assert(tail[0] == ids[k as int]);
                assert(tail.drop_first() =~= ids.skip(k as int + 1));
            }
            r.append("    ");
            r.append(usize_text(k).as_str());
            r.append(" [ label = \"");
            r.append(self.resources[k].id().as_str());
            r.append("\" ]\n");
            proof {
                assert(ids[k as int] == self.spec_resources()[k as int].spec_id());
                assert(r@ =~= pre + ("    "@ + dec_text(k as int) + " [ label = \""@
                    + ids[k as int] + "\" ]\n"@));
                assert(r@ + dot_node_lines(ids.skip(k as int + 1), k as int + 1) =~= "digraph {\n"@
                    + dot_node_lines(ids, 0));
            }
            k += 1;
        }
        proof {
            assert(ids.skip(n as int) =~= Seq::<Seq<char>>::empty());
            assert(r@ =~= "digraph {\n"@ + dot_node_lines(ids, 0));
        }
        let ghost mid = r@;
        let m = self.edges.len();
        let mut t: usize = 0;
        proof {
            assert(es.skip(0) =~= es);
        }
        while t < m
            invariant
                t <= m == self.edges@.len(),
                es == self.spec_edges(),
                forall|q: int|
                    0 <= q < self.edges@.len() ==> 0 <= (#[trigger] self.edges@[q]@).0
                        < self.resources@.len() && 0 <= self.edges@[q]@.1
                        < self.resources@.len(),
                r@ + dot_edge_lines(es.skip(t as int)) == mid + dot_edge_lines(es),
            decreases m - t,
        {
            let ghost pre = r@;
            let ghost tail = es.skip(t as int);
            proof {
                assert(tail[0] == es[t as int]);
                assert(tail.drop_first() =~= es.skip(t as int + 1));
            }
            let e = &self.edges[t];
            r.append("    ");
            r.append(usize_text(e.from).as_str());
            r.append(" -> ");
            r.append(usize_text(e.to).as_str());
            r.append(" [ label = \"");
            r.append(e.kind.symbol());
            r.append("\" ]\n");
            proof {
                assert(r@ =~= pre + ("    "@ + dec_text(es[t as int].0) + " -> "@ + dec_text(
                    es[t as int].1,
                ) + " [ label = \""@ + es[t as int].2.spec_symbol() + "\" ]\n"@));
                assert(r@ + dot_edge_lines(es.skip(t as int + 1)) =~= mid + dot_edge_lines(es));
            }
            t += 1;
        }
        proof {
            assert(es.skip(m as int) =~= Seq::<(int, int, Relation)>::empty());
            assert(r@ =~= mid + dot_edge_lines(es));
        }
        r.append("}\n");
        proof {
            assert(r@ =~= dot_text(ids, es));
        }
        r
    }
}

/// The node a rendered identity key resolves to, scanning declarations from
/// the last to the first.
fn lookup_node(ids: &Vec<String>, id: &String) -> (r: Option<usize>)
    ensures
        match r {
            Some(ix) => node_of(ids_view(ids@), id@) == ix as int && ix < ids@.len(),
            None => node_of(ids_view(ids@), id@) == -1,
        },
{
    let ghost full = ids_view(ids@);
    let mut m = ids.len();
    proof {
        assert(full.take(ids@.len() as int) =~= full);
    }
    while m > 0
        invariant
            m <= ids@.len(),
            full == ids_view(ids@),
            node_of(full, id@) == node_of(full.take(m as int), id@),
        decreases m,
    {
        if ids[m - 1] == *id {
            proof {
                assert(full.take(m as int).last() == full[m as int - 1]);
                assert(full[m as int - 1] == id@);
            }
            return Some(m - 1);
        }
        proof {
            assert(full.take(m as int).last() == full[m as int - 1]);
            assert(full.take(m as int).drop_last() =~= full.take(m as int - 1));
        }
        m -= 1;
    }
    proof {
        assert(full.take(0) =~= Seq::<Seq<char>>::empty());
    }
    None
}

/// Compile a manifest into a plan: construct one node per resource
/// declaration in source order (a later duplicate of an identity key
/// overwrites the lookup entry, leaving the earlier node an orphan), then
/// normalize each relation statement, expand it as a Cartesian product, and
/// insert every edge through the guarded admission check. The first
/// failure — an unknown declared type, a missing endpoint, or an edge that
/// would close a cycle — aborts the build: no partial plan is returned.
/// The size bounds keep the graph's backing indices within machine range.
pub fn parse_puppet_manifest(manifest: &Manifest) -> (r: Result<Plan, PuppetError>)
    requires
        decl_refs(manifest@).len() < 0xffff_fffe,
        planned_pairs(manifest@).len() < 0xffff_fffe,
    ensures
        match r {
            Ok(plan) => {
                &&& build_result(manifest@) matches Ok(es) && plan.spec_edges() == es
                &&& plan.spec_resources().len() == decl_refs(manifest@).len()
                &&& forall|m: int|
                    0 <= m < decl_refs(manifest@).len() ==> (#[trigger] plan.spec_resources()[m])
                        .spec_rtype() == decl_refs(manifest@)[m].rtype
                        && plan.spec_resources()[m].spec_title() == segs_text(
                        decl_refs(manifest@)[m].title,
                    )
            },
            Err(e) => build_result(manifest@) matches Err(ev) && e@ == ev,
        },
{
    let ghost ev = manifest@;
    let ghost ds = decl_refs(ev);
    let mut resources: Vec<ResourceNode> = Vec::new();
    let mut ids: Vec<String> = Vec::new();
    let mut dag = dag_new();
    let n = manifest.0.len();
    let mut k: usize = 0;
    proof {
        assert(ev.skip(0) =~= ev);
        assert(ds.skip(0) =~= ds);
    }
    while k < n
        invariant
            k <= n == manifest.0@.len(),
            ev == manifest@,
            ds == decl_refs(ev),
            ds.len() < 0xffff_fffe,
            resources@.len() == ids@.len(),
            resources@.len() <= ds.len(),
            decl_refs(ev.skip(k as int)) == ds.skip(resources@.len() as int),
            forall|m: int|
                0 <= m < resources@.len() ==> (#[trigger] resources@[m]).spec_rtype()
                    == ds[m].rtype && resources@[m].spec_title() == segs_text(ds[m].title),
            forall|m: int| 0 <= m < ids@.len() ==> (#[trigger] ids@[m]@) == rid(ds[m]),
            first_unknown(ds) == first_unknown(ds.skip(resources@.len() as int)),
            dag_node_count(&dag) == resources@.len(),
            dag_edge_list(&dag) == Seq::<(int, int)>::empty(),
        decreases n - k,
    {
        let ghost tail = ev.skip(k as int);
        let ghost c = resources@.len() as int;
        proof {
            assert(tail[0] == ev[k as int]);
            assert(tail.drop_first() =~= ev.skip(k as int + 1));
        }
        match &manifest.0[k] {
            PuppetExpr::Resource { rtype, title, .. } => {
                proof {
                    assert(decl_refs(tail) == seq![
                        RefV { rtype: rtype@, title: title@ },
                    ] + decl_refs(tail.drop_first()));
                    assert(ds.skip(c)[0] == RefV { rtype: rtype@, title: title@ });
                    assert(ds[c] == RefV { rtype: rtype@, title: title@ });
                    assert(ds.skip(c).drop_first() =~= ds.skip(c + 1));
                    assert(decl_refs(ev.skip(k as int + 1)) =~= ds.skip(c + 1));
                }
                match ResourceNode::construct(rtype, title.to_text()) {
                    Ok(node) => {
                        proof {
                            assert(first_unknown(ds.skip(c)) == first_unknown(ds.skip(c + 1)));
                        }
                        let id = node.id();
                        proof {
                            assert(id@ =~= rid(ds[c]));
                        }
                        let ghost pre_r = resources@;
                        let ghost pre_i = ids@;
                        resources.push(node);
                        ids.push(id);
                        dag_add_node(&mut dag);
                    },
                    Err(e) => {
                        proof {
                            assert(first_unknown(ds.skip(c)) == Some(ds[c].rtype));
                            assert(first_unknown(ds) == Some(rtype@));
                            assert(build_result(ev) == Err::<
                                Seq<(int, int, Relation)>,
                                ErrV,
                            >(ErrV::UnknownType { rtype: rtype@ }));
                        }
                        return Err(e);
                    },
                }
            },
            PuppetExpr::Relation { .. } => {
                proof {
                    assert(decl_refs(tail) == Seq::<RefV>::empty() + decl_refs(
                        tail.drop_first(),
                    ));
                    assert(decl_refs(ev.skip(k as int + 1)) =~= ds.skip(c));
                }
            },
        }
        k += 1;
    }
    proof {
        assert(ev.skip(n as int) =~= Seq::<ExprV>::empty());
        assert(decl_refs(ev.skip(n as int)) =~= Seq::<RefV>::empty());
        assert(ds.skip(resources@.len() as int).len() == 0);
        assert(resources@.len() == ds.len());
        assert(ds.skip(ds.len() as int) =~= Seq::<RefV>::empty());
        assert(first_unknown(ds) is None);
        assert(ids_view(ids@) =~= decl_ids(ev));
    }
    let ghost idsv = decl_ids(ev);
    let ghost total = planned_pairs(ev);
    let ghost goal = admit_edges(idsv, total, Seq::<(int, int, Relation)>::empty());
    let mut edges: Vec<Edge> = Vec::new();
    let mut k2: usize = 0;
    proof {
        lemma_acyclic_empty();
        assert(ev.skip(0) =~= ev);
        assert(edge_pairs(edges_view(edges@)) =~= Seq::<(int, int)>::empty());
        assert(edges_view(edges@) =~= Seq::<(int, int, Relation)>::empty());
    }
    while k2 < n
        invariant
            k2 <= n == manifest.0@.len(),
            ev == manifest@,
            ds == decl_refs(ev),
            idsv == decl_ids(ev),
            total == planned_pairs(ev),
            total.len() < 0xffff_fffe,
            goal == admit_edges(idsv, total, Seq::<(int, int, Relation)>::empty()),
            first_unknown(ds) is None,
            ids@.len() == ds.len() && resources@.len() == ds.len(),
            ids_view(ids@) == idsv,
            forall|m: int|
                0 <= m < resources@.len() ==> (#[trigger] resources@[m]).spec_rtype()
                    == ds[m].rtype && resources@[m].spec_title() == segs_text(ds[m].title),
            goal == admit_edges(idsv, planned_pairs(ev.skip(k2 as int)), edges_view(edges@)),
            edges@.len() + planned_pairs(ev.skip(k2 as int)).len() == total.len(),
            acyclic(edge_pairs(edges_view(edges@))),
            dag_node_count(&dag) == resources@.len(),
            dag_edge_list(&dag) == edge_pairs(edges_view(edges@)),
            forall|m: int|
                0 <= m < edges@.len() ==> 0 <= (#[trigger] edges@[m]@).0 < resources@.len() && 0
                    <= edges@[m]@.1 < resources@.len(),
        decreases n - k2,
    {
        let ghost tail = ev.skip(k2 as int);
        proof {
            assert(tail[0] == ev[k2 as int]);
            assert(tail.drop_first() =~= ev.skip(k2 as int + 1));
        }
        match &manifest.0[k2] {
            PuppetExpr::Resource { .. } => {
                proof {
                    assert(planned_pairs(tail) == Seq::<(RefV, RefV, Relation)>::empty()
                        + planned_pairs(tail.drop_first()));
                    assert(planned_pairs(tail) =~= planned_pairs(ev.skip(k2 as int + 1)));
                }
            },
            PuppetExpr::Relation { from, to, op } => {
                let (nf, nt, kind): (&Vec<ResourceRef>, &Vec<ResourceRef>, Relation) = match op {
                    RelationOp::Provide => (from, to, Relation::Provide),
                    RelationOp::Require => (to, from, Relation::Provide),
                    RelationOp::Notify => (from, to, Relation::Notify),
                    RelationOp::Subscribe => (to, from, Relation::Notify),
                };
                let ghost nfv = crate::parse::refs_view(nf@);
                let ghost ntv = crate::parse::refs_view(nt@);
                let ghost rest = planned_pairs(ev.skip(k2 as int + 1));
                proof {
                    assert(planned_pairs(tail) == cart_pairs(nfv, ntv, kind) + rest);
                }
                let nfn = nf.len();
                let ntn = nt.len();
                let mut i: usize = 0;
                proof {
                    assert(nfv.skip(0) =~= nfv);
                    assert(cart_pairs(nfv.skip(0), ntv, kind) + rest =~= planned_pairs(tail));
                }
                while i < nfn
                    invariant
                        i <= nfn == nf@.len(),
                        ntn == nt@.len(),
                        ev == manifest@,
                        nfv == crate::parse::refs_view(nf@),
                        ntv == crate::parse::refs_view(nt@),
                        ds == decl_refs(ev),
                        idsv == decl_ids(ev),
                        total == planned_pairs(ev),
                        total.len() < 0xffff_fffe,
                        goal == admit_edges(
                            idsv,
                            total,
                            Seq::<(int, int, Relation)>::empty(),
                        ),
                        first_unknown(ds) is None,
                        ids@.len() == ds.len() && resources@.len() == ds.len(),
                        ids_view(ids@) == idsv,
                        goal == admit_edges(
                            idsv,
                            cart_pairs(nfv.skip(i as int), ntv, kind) + rest,
                            edges_view(edges@),
                        ),
                        edges@.len() + (cart_pairs(nfv.skip(i as int), ntv, kind) + rest).len()
                            == total.len(),
                        acyclic(edge_pairs(edges_view(edges@))),
                        dag_node_count(&dag) == resources@.len(),
                        dag_edge_list(&dag) == edge_pairs(edges_view(edges@)),
                        forall|m: int|
                            0 <= m < edges@.len() ==> 0 <= (#[trigger] edges@[m]@).0
                                < resources@.len() && 0 <= edges@[m]@.1 < resources@.len(),
                    decreases nfn - i,
                {
                    let ghost frow = nfv.skip(i as int);
                    proof {
                        assert(frow[0] == nfv[i as int]);
                        assert(frow.drop_first() =~= nfv.skip(i as int + 1));
                        assert(cart_pairs(frow, ntv, kind) == row_pairs(nfv[i as int], ntv, kind)
                            + cart_pairs(nfv.skip(i as int + 1), ntv, kind));
                        assert(ntv.skip(0) =~= ntv);
                        assert((row_pairs(nfv[i as int], ntv.skip(0), kind) + (cart_pairs(
                            nfv.skip(i as int + 1),
                            ntv,
                            kind,
                        ) + rest)) =~= cart_pairs(frow, ntv, kind) + rest);
                    }
                    let ghost rest2 = cart_pairs(nfv.skip(i as int + 1), ntv, kind) + rest;
                    let mut j: usize = 0;
                    while j < ntn
                        invariant
                            j <= ntn == nt@.len(),
                            i < nf@.len(),
                            ev == manifest@,
                        nfv == crate::parse::refs_view(nf@),
                            ntv == crate::parse::refs_view(nt@),
                            ds == decl_refs(ev),
                            idsv == decl_ids(ev),
                            total == planned_pairs(ev),
                        total.len() < 0xffff_fffe,
                            goal == admit_edges(
                                idsv,
                                total,
                                Seq::<(int, int, Relation)>::empty(),
                            ),
                            first_unknown(ds) is None,
                            ids@.len() == ds.len() && resources@.len() == ds.len(),
                            ids_view(ids@) == idsv,
                            goal == admit_edges(
                                idsv,
                                row_pairs(nfv[i as int], ntv.skip(j as int), kind) + rest2,
                                edges_view(edges@),
                            ),
                            edges@.len() + (row_pairs(nfv[i as int], ntv.skip(j as int), kind)
                                + rest2).len() == total.len(),
                            acyclic(edge_pairs(edges_view(edges@))),
                            dag_node_count(&dag) == resources@.len(),
                            dag_edge_list(&dag) == edge_pairs(edges_view(edges@)),
                            forall|m: int|
                                0 <= m < edges@.len() ==> 0 <= (#[trigger] edges@[m]@).0
                                    < resources@.len() && 0 <= edges@[m]@.1 < resources@.len(),
                        decreases ntn - j,
                    {
                        let ghost trow = ntv.skip(j as int);
                        let ghost pending = row_pairs(nfv[i as int], trow, kind) + rest2;
                        proof {
                            assert(trow[0] == ntv[j as int]);
                            assert(trow.drop_first() =~= ntv.skip(j as int + 1));
                            assert(row_pairs(nfv[i as int], trow, kind) == seq![
                                (nfv[i as int], ntv[j as int], kind),
                            ] + row_pairs(nfv[i as int], ntv.skip(j as int + 1), kind));
                            assert(pending[0] == (nfv[i as int], ntv[j as int], kind));
                            assert(pending.drop_first() =~= row_pairs(
                                nfv[i as int],
                                ntv.skip(j as int + 1),
                                kind,
                            ) + rest2);
                        }
                        let fid = nf[i].id();
                        let tid = nt[j].id();
                        proof {
                            assert(fid@ == rid(nfv[i as int]));
                            assert(tid@ == rid(ntv[j as int]));
                        }
                        let a = match lookup_node(&ids, &fid) {
                            Some(a) => a,
                            None => {
                                proof {
                                    assert(node_of(idsv, rid(nfv[i as int])) == -1);
                                    assert(pending[0].0 == nfv[i as int]);
                                    assert(admit_edges(idsv, pending, edges_view(edges@))
                                        == Err::<Seq<(int, int, Relation)>, ErrV>(
                                        ErrV::MissingResource { id: rid(nfv[i as int]) },
                                    ));
                                    assert(build_result(ev) == goal);
                                }
                                return Err(PuppetError::MissingResource { id: fid });
                            },
                        };
                        let b = match lookup_node(&ids, &tid) {
                            Some(b) => b,
                            None => {
                                proof {
                                    assert(node_of(idsv, rid(ntv[j as int])) == -1);
                                    assert(pending[0].0 == nfv[i as int]);
                                    assert(pending[0].1 == ntv[j as int]);
                                    assert(node_of(idsv, rid(nfv[i as int])) == a as int >= 0);
                                    assert(admit_edges(idsv, pending, edges_view(edges@))
                                        == Err::<Seq<(int, int, Relation)>, ErrV>(
                                        ErrV::MissingResource { id: rid(ntv[j as int]) },
                                    ));
                                    assert(build_result(ev) == goal);
                                }
                                return Err(PuppetError::MissingResource { id: tid });
                            },
                        };
                        let ok = dag_try_add_edge(&mut dag, a, b);
                        if !ok {
                            proof {
                                assert(pending[0].0 == nfv[i as int]);
                                assert(pending[0].1 == ntv[j as int]);
                                assert(node_of(idsv, rid(nfv[i as int])) == a as int >= 0);
                                assert(node_of(idsv, rid(ntv[j as int])) == b as int >= 0);
                                assert(reachable(edge_pairs(edges_view(edges@)), b as int, a as int));
                                assert(admit_edges(idsv, pending, edges_view(edges@))
                                    == Err::<Seq<(int, int, Relation)>, ErrV>(
                                    ErrV::Cycle { from: rid(nfv[i as int]), to: rid(ntv[j as int]) },
                                ));
                                assert(build_result(ev) == goal);
                            }
                            return Err(PuppetError::Cycle { from: fid, to: tid });
                        }
                        let ghost pre = edges_view(edges@);
                        edges.push(Edge { from: a, to: b, kind });
                        proof {
                            assert(edges_view(edges@) =~= pre.push((a as int, b as int, kind)));
                            assert(edge_pairs(edges_view(edges@)) =~= edge_pairs(pre).push(
                                (a as int, b as int),
                            ));
                            lemma_acyclic_push(edge_pairs(pre), a as int, b as int);
                        }
                        j += 1;
                    }
                    proof {
                        assert(ntv.skip(ntn as int) =~= Seq::<RefV>::empty());
                        assert(row_pairs(nfv[i as int], ntv.skip(ntn as int), kind) + rest2
                            =~= rest2);
                    }
                    i += 1;
                }
                proof {
                    assert(nfv.skip(nfn as int) =~= Seq::<RefV>::empty());
                    assert(cart_pairs(nfv.skip(nfn as int), ntv, kind) + rest =~= rest);
                }
            },
        }
        k2 += 1;
    }
    proof {
        assert(ev.skip(n as int) =~= Seq::<ExprV>::empty());
        assert(planned_pairs(ev.skip(n as int)) =~= Seq::<(RefV, RefV, Relation)>::empty());
        assert(goal == Ok::<Seq<(int, int, Relation)>, ErrV>(edges_view(edges@)));
    }
    let plan = Plan { resources, edges, dag };
    Ok(plan)
}

} // verus!
