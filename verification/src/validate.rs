//! Reference validation: after parsing, every resource reference used in a
//! relation must match a declared resource, by canonical type name and
//! structural title equality. The scan is order-independent for declarations
//! (a relation may reference a resource declared later) and reports the first
//! undefined reference in source order.

use crate::ast::{ExprV, Manifest, PuppetExpr, RefV, ResourceRef};
use crate::errors::PuppetError;
use crate::grammar::spec_parse;
use crate::parse::{exprs_view, refs_view, x_program};
use crate::scan::str_to_chars;
use vstd::prelude::*;

verus! {

/// The (canonical type, title) pairs declared by a sequence of expressions,
/// in source order.
pub open spec fn decl_refs(es: Seq<ExprV>) -> Seq<RefV>
    decreases es.len(),
{
    if es.len() == 0 {
        Seq::empty()
    } else {
        (match es[0] {
            ExprV::Res { rtype, title, .. } => seq![RefV { rtype, title }],
            _ => Seq::empty(),
        }) + decl_refs(es.drop_first())
    }
}

/// Whether a reference matches one of the declared pairs: same canonical type
/// name and structurally equal title.
pub open spec fn ref_in(ds: Seq<RefV>, r: RefV) -> bool {
    exists|m: int| 0 <= m < ds.len() && ds[m].rtype == r.rtype && ds[m].title == r.title
}

/// A reference is declared among a manifest's expressions.
pub open spec fn is_declared(es: Seq<ExprV>, r: RefV) -> bool {
    ref_in(decl_refs(es), r)
}

/// The references a relation statement uses: its `from` side then its `to`
/// side. A resource declaration uses none.
pub open spec fn rel_refs(e: ExprV) -> Seq<RefV> {
    match e {
        ExprV::Rel { from, to, .. } => from + to,
        _ => Seq::empty(),
    }
}

/// The first reference in a list that matches no declared pair.
pub open spec fn first_undef_in(ds: Seq<RefV>, refs: Seq<RefV>) -> Option<RefV>
    decreases refs.len(),
{
    if refs.len() == 0 {
        None
    } else if !ref_in(ds, refs[0]) {
        Some(refs[0])
    } else {
        first_undef_in(ds, refs.drop_first())
    }
}

/// The first undefined reference over the expressions, in source order.
pub open spec fn first_undef(ds: Seq<RefV>, es: Seq<ExprV>) -> Option<RefV>
    decreases es.len(),
{
    if es.len() == 0 {
        None
    } else {
        match first_undef_in(ds, rel_refs(es[0])) {
            Some(r) => Some(r),
            None => first_undef(ds, es.drop_first()),
        }
    }
}

/// The first undefined reference of a manifest, if any.
pub open spec fn manifest_undef(es: Seq<ExprV>) -> Option<RefV> {
    first_undef(decl_refs(es), es)
}

/// Every reference of every relation matches a declared resource.
pub open spec fn refs_valid(es: Seq<ExprV>) -> bool {
    manifest_undef(es) is None
}

proof fn lemma_first_undef_in_none(ds: Seq<RefV>, refs: Seq<RefV>)
    ensures
        first_undef_in(ds, refs) is None <==> (forall|m: int|
            0 <= m < refs.len() ==> ref_in(ds, refs[m])),
    decreases refs.len(),
{
    if refs.len() > 0 && ref_in(ds, refs[0]) {
        lemma_first_undef_in_none(ds, refs.drop_first());
        assert(forall|m: int|
            0 <= m < refs.drop_first().len() ==> refs.drop_first()[m] == refs[m + 1]);
        if first_undef_in(ds, refs) is None {
            assert(forall|m: int| 0 <= m < refs.len() ==> ref_in(ds, refs[m])) by {
                assert(forall|m: int|
                    1 <= m < refs.len() ==> refs[m] == refs.drop_first()[m - 1]);
            }
        }
    }
}

proof fn lemma_first_undef_none(ds: Seq<RefV>, es: Seq<ExprV>)
    ensures
        first_undef(ds, es) is None <==> (forall|k: int, m: int|
            0 <= k < es.len() && 0 <= m < rel_refs(es[k]).len() ==> ref_in(
                ds,
                rel_refs(es[k])[m],
            )),
    decreases es.len(),
{
    if es.len() > 0 {
        lemma_first_undef_in_none(ds, rel_refs(es[0]));
        if first_undef_in(ds, rel_refs(es[0])) is None {
            lemma_first_undef_none(ds, es.drop_first());
            assert(forall|k: int|
                0 <= k < es.drop_first().len() ==> es.drop_first()[k] == es[k + 1]);
            if first_undef(ds, es) is None {
                assert(forall|k: int, m: int|
                    0 <= k < es.len() && 0 <= m < rel_refs(es[k]).len() ==> ref_in(
                        ds,
                        rel_refs(es[k])[m],
                    )) by {
                    assert(forall|k: int| 1 <= k < es.len() ==> es[k] == es.drop_first()[k - 1]);
                }
            }
        }
    }
}

/// Reference completeness: validation holds precisely when every reference of
/// every relation statement matches a declared resource; equivalently, it
/// fails precisely when at least one relation side references an undeclared
/// resource.
pub proof fn lemma_reference_completeness(es: Seq<ExprV>)
    ensures
        refs_valid(es) <==> (forall|k: int, m: int|
            0 <= k < es.len() && 0 <= m < rel_refs(es[k]).len() ==> is_declared(
                es,
                rel_refs(es[k])[m],
            )),
{
    lemma_first_undef_none(decl_refs(es), es);
}

/// The declared (type, title) pairs of an expression list, in source order.
fn collect_decls(exprs: &Vec<PuppetExpr>) -> (r: Vec<ResourceRef>)
    ensures
        refs_view(r@) == decl_refs(exprs_view(exprs@)),
{
    let ghost ev = exprs_view(exprs@);
    let mut r: Vec<ResourceRef> = Vec::new();
    let n = exprs.len();
    let mut k: usize = 0;
    proof {
        assert(ev.skip(0) =~= ev);
        assert(refs_view(r@) + decl_refs(ev) =~= decl_refs(ev));
    }
    while k < n
        invariant
            k <= n == exprs@.len(),
            ev == exprs_view(exprs@),
            refs_view(r@) + decl_refs(ev.skip(k as int)) == decl_refs(ev),
        decreases n - k,
    {
        let ghost pre = refs_view(r@);
        let ghost tail = ev.skip(k as int);
        match &exprs[k] {
            PuppetExpr::Resource { rtype, title, .. } => {
                r.push(ResourceRef { rtype: rtype.clone(), title: title.duplicate() });
                proof {
                    assert(refs_view(r@) =~= pre.push(
                        RefV { rtype: rtype@, title: title@ },
                    ));
                }
            },
            PuppetExpr::Relation { .. } => {},
        }
        proof {
            assert(tail[0] == ev[k as int]);
            assert(tail.drop_first() =~= ev.skip(k as int + 1));
            assert(refs_view(r@) + decl_refs(ev.skip(k as int + 1)) =~= decl_refs(ev));
        }
        k += 1;
    }
    proof {
        assert(ev.skip(n as int) =~= Seq::<ExprV>::empty());
        assert(refs_view(r@) + decl_refs(ev.skip(n as int)) =~= refs_view(r@));
    }
    r
}

/// Whether a reference matches one of the declared pairs.
fn ref_declared(decls: &Vec<ResourceRef>, rr: &ResourceRef) -> (r: bool)
    ensures
        r == ref_in(refs_view(decls@), rr@),
{
    let n = decls.len();
    let mut m: usize = 0;
    while m < n
        invariant
            m <= n == decls@.len(),
            forall|q: int|
                0 <= q < m ==> !(refs_view(decls@)[q].rtype == rr@.rtype && refs_view(
                    decls@,
                )[q].title == rr@.title),
        decreases n - m,
    {
        if decls[m].rtype == rr.rtype && decls[m].title.matches(&rr.title) {
            proof {
                assert(refs_view(decls@)[m as int].rtype == rr@.rtype && refs_view(
                    decls@,
                )[m as int].title == rr@.title);
            }
            return true;
        }
        m += 1;
    }
    false
}

/// The first undefined reference among a relation's two sides, scanning the
/// `from` side then the `to` side.
fn find_undef_in_rel(decls: &Vec<ResourceRef>, from: &Vec<ResourceRef>, to: &Vec<ResourceRef>)
    -> (r: Option<ResourceRef>)
    ensures
        match r {
            Some(u) => first_undef_in(refs_view(decls@), refs_view(from@) + refs_view(to@))
                == Some(u@),
            None => first_undef_in(refs_view(decls@), refs_view(from@) + refs_view(to@))
                is None,
        },
{
    let ghost ds = refs_view(decls@);
    let ghost refs = refs_view(from@) + refs_view(to@);
    let nf = from.len();
    let nt = to.len();
    let ghost n = refs.len();
    proof {
        assert(n == nf + nt);
        assert(refs.skip(0) =~= refs);
    }
    let mut m: usize = 0;
    while m < nf
        invariant
            m <= nf == from@.len(),
            nt == to@.len(),
            ds == refs_view(decls@),
            refs == refs_view(from@) + refs_view(to@),
            first_undef_in(ds, refs) == first_undef_in(ds, refs.skip(m as int)),
            forall|q: int| 0 <= q < m ==> ref_in(ds, refs[q]),
        decreases nf - m,
    {
        let rr = &from[m];
        proof {
            assert(refs[m as int] == rr@);
            assert(refs.skip(m as int)[0] == refs[m as int]);
        }
        if !ref_declared(decls, rr) {
            proof {
                assert(first_undef_in(ds, refs.skip(m as int)) == Some(rr@));
            }
            return Some(rr.duplicate());
        }
        proof {
            assert(refs.skip(m as int).drop_first() =~= refs.skip(m as int + 1));
        }
        m += 1;
    }
    let mut m2: usize = 0;
    while m2 < nt
        invariant
            m2 <= nt == to@.len(),
            nf == from@.len(),
            ds == refs_view(decls@),
            refs == refs_view(from@) + refs_view(to@),
            first_undef_in(ds, refs) == first_undef_in(ds, refs.skip(nf + m2 as int)),
        decreases nt - m2,
    {
        let rr = &to[m2];
        proof {
            assert(refs[nf + m2 as int] == rr@);
            assert(refs.skip(nf + m2 as int)[0] == refs[nf + m2 as int]);
        }
        if !ref_declared(decls, rr) {
            proof {
                assert(first_undef_in(ds, refs.skip(nf + m2 as int)) == Some(rr@));
            }
            return Some(rr.duplicate());
        }
        proof {
            assert(refs.skip(nf + m2 as int).drop_first() =~= refs.skip(nf + m2 as int + 1));
        }
        m2 += 1;
    }
    proof {
        assert(refs.skip(nf + nt as int) =~= Seq::<RefV>::empty());
    }
    None
}

/// The first undefined reference of the whole expression list, in source
/// order: relations in order, each scanned `from` side then `to` side.
fn find_undef(decls: &Vec<ResourceRef>, exprs: &Vec<PuppetExpr>) -> (r: Option<ResourceRef>)
    ensures
        match r {
            Some(u) => first_undef(refs_view(decls@), exprs_view(exprs@)) == Some(u@),
            None => first_undef(refs_view(decls@), exprs_view(exprs@)) is None,
        },
{
    let ghost ds = refs_view(decls@);
    let ghost ev = exprs_view(exprs@);
    let n = exprs.len();
    let mut k: usize = 0;
    proof {
        assert(ev.skip(0) =~= ev);
    }
    while k < n
        invariant
            k <= n == exprs@.len(),
            ds == refs_view(decls@),
            ev == exprs_view(exprs@),
            first_undef(ds, ev) == first_undef(ds, ev.skip(k as int)),
        decreases n - k,
    {
        let ghost tail = ev.skip(k as int);
        proof {
            assert(tail[0] == ev[k as int]);
            assert(tail.drop_first() =~= ev.skip(k as int + 1));
        }
        match &exprs[k] {
            PuppetExpr::Relation { from, to, .. } => {
                match find_undef_in_rel(decls, from, to) {
                    Some(u) => {
                        proof {
                            assert(rel_refs(ev[k as int]) == refs_view(from@) + refs_view(to@));
                        }
                        return Some(u);
                    },
                    None => {
                        proof {
                            assert(rel_refs(ev[k as int]) == refs_view(from@) + refs_view(to@));
                        }
                    },
                }
            },
            PuppetExpr::Resource { .. } => {
                proof {
                    assert(rel_refs(ev[k as int]) =~= Seq::<RefV>::empty());
                    assert(first_undef_in(ds, rel_refs(ev[k as int])) is None);
                }
            },
        }
        k += 1;
    }
    proof {
        assert(ev.skip(n as int) =~= Seq::<ExprV>::empty());
    }
    None
}

impl Manifest {
    /// Parse a manifest text. Returns the source-ordered expressions when the
    /// text matches the grammar and every relation reference is declared;
    /// a syntax error when the text does not match; and the first undefined
    /// reference, in source order, when one is used but never declared.
    pub fn from_str(text: &str) -> (r: Result<Manifest, PuppetError>)
        ensures
            match r {
                Ok(m) => spec_parse(text@) == Some(m@) && refs_valid(m@),
                Err(e) => match spec_parse(text@) {
                    None => e is Syntax,
                    Some(es) => {
                        &&& !refs_valid(es)
                        &&& e matches PuppetError::UndefinedReference { rtype, title }
                            && manifest_undef(es) == Some(
                            RefV { rtype: rtype@, title: title@ },
                        )
                    },
                },
            },
    {
        let chars = str_to_chars(text);
        match x_program(&chars, 0) {
            None => Err(PuppetError::Syntax),
            Some(exprs) => {
                let decls = collect_decls(&exprs);
                match find_undef(&decls, &exprs) {
                    Some(u) => {
                        proof {
                            assert(manifest_undef(exprs_view(exprs@)) == Some(u@));
                        }
                        Err(PuppetError::UndefinedReference { rtype: u.rtype, title: u.title })
                    },
                    None => Ok(Manifest(exprs)),
                }
            },
        }
    }
}

} // verus!
