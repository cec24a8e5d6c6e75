//! The executable parser: each function returns exactly what the grammar's
//! spec function denotes at the same position.

use crate::ast::{canon_string, dup_refs, Attribute, PuppetExpr, RelationOp, ResourceRef};
use crate::grammar::{
    chain_relations, dq_stop, ident_end, lemma_ident_end, lemma_parse_quoted, lemma_plain_end,
    parse_attr, parse_attrs, parse_chain_rest, parse_dq, parse_expr, parse_op, parse_program,
    parse_quoted, parse_ref_arg, parse_ref_list_rest, parse_relation, parse_res_ref,
    parse_resource, parse_type_segs, plain_end, segs_ucfirst,
};
use crate::pstring::{PuppetString, SegV, StringContent};
use crate::scan::{
    copy_chars, find_char_x, ident_end_x, is_ident_start_x, is_upper_x, plain_end_x,
    range_to_string, skip_ws_x,
};
use vstd::prelude::*;

verus! {

/// The ghost segments of an owned segment list.
pub open spec fn segs_view(v: Seq<Vec<char>>) -> Seq<Seq<char>> {
    v.map_values(|x: Vec<char>| x@)
}

/// The ghost references of an owned reference list.
pub open spec fn refs_view(v: Seq<ResourceRef>) -> Seq<crate::ast::RefV> {
    v.map_values(|x: ResourceRef| x@)
}

/// The ghost expressions of an owned expression list.
pub open spec fn exprs_view(v: Seq<PuppetExpr>) -> Seq<crate::ast::ExprV> {
    v.map_values(|e: PuppetExpr| e@)
}

/// The ghost groups of an owned relation-chain tail.
pub open spec fn chain_view(v: Seq<(RelationOp, Vec<ResourceRef>)>) -> Seq<
    (RelationOp, Seq<crate::ast::RefV>),
> {
    v.map_values(|g: (RelationOp, Vec<ResourceRef>)| (g.0, refs_view(g.1@)))
}

fn x_type_segs(s: &Vec<char>, i: usize) -> (r: Option<(Vec<Vec<char>>, usize)>)
    requires
        i <= s@.len(),
    ensures
        match r {
            Some(p) => {
                &&& parse_type_segs(s@, i as int) == Some((segs_view(p.0@), p.1 as int))
                &&& i < p.1 <= s@.len()
                &&& forall|k: int| 0 <= k < p.0@.len() ==> p.0@[k]@.len() > 0
            },
            None => parse_type_segs(s@, i as int) is None,
        },
    decreases s@.len() - i,
{
    if i < s.len() && is_ident_start_x(s[i]) {
        let j = ident_end_x(s, i);
        proof {
            assert(ident_end(s@, i as int) == ident_end(s@, i as int + 1));
            lemma_ident_end(s@, i as int + 1);
        }
        let seg = copy_chars(s, i, j);
        if j < s.len() && s[j] == ':' && j + 1 < s.len() && s[j + 1] == ':' {
            match x_type_segs(s, j + 2) {
                Some((rest, k)) => {
                    let mut segs = rest;
                    let ghost restv = segs_view(segs@);
                    segs.insert(0, seg);
                    proof {
                        assert(segs_view(segs@) =~= seq![seg@] + restv);
                    }
                    Some((segs, k))
                },
                None => None,
            }
        } else {
            proof {
                if j < s.len() && s[j as int] == ':' {
                    assert(!(j as int + 1 < s@.len() && s@[j as int + 1] == ':'));
                }
            }
            let mut segs: Vec<Vec<char>> = Vec::new();
            segs.push(seg);
            proof {
                assert(segs_view(segs@) =~= seq![seg@]);
            }
            Some((segs, j))
        }
    } else {
        None
    }
}

fn x_dq(s: &Vec<char>, i: usize) -> (r: Option<(Vec<StringContent>, usize)>)
    requires
        i <= s@.len(),
    ensures
        match r {
            Some(p) => {
                &&& parse_dq(s@, i as int) == Some(
                    (p.0@.map_values(|c: StringContent| c@), p.1 as int),
                )
                &&& i < p.1 <= s@.len()
            },
            None => parse_dq(s@, i as int) is None,
        },
    decreases s@.len() - i,
{
    if i >= s.len() {
        None
    } else if s[i] == '"' {
        let v: Vec<StringContent> = Vec::new();
        proof {
            assert(v@.map_values(|c: StringContent| c@) =~= Seq::<SegV>::empty());
        }
        Some((v, i + 1))
    } else if s[i] == '$' && i + 1 < s.len() && s[i + 1] == '{' {
        if i + 2 < s.len() && is_ident_start_x(s[i + 2]) {
            let j = ident_end_x(s, i + 2);
            if j < s.len() && s[j] == '}' {
                let name = range_to_string(s, i + 2, j);
                match x_dq(s, j + 1) {
                    Some((rest, k)) => {
                        let mut segs = rest;
                        let ghost restv = segs@.map_values(|c: StringContent| c@);
                        segs.insert(0, StringContent::Variable(name));
                        proof {
                            assert(segs@.map_values(|c: StringContent| c@) =~= seq![
                                SegV::Var(s@.subrange(i as int + 2, j as int)),
                            ] + restv);
                        }
                        Some((segs, k))
                    },
                    None => None,
                }
            } else {
                None
            }
        } else {
            None
        }
    } else {
        proof {
            assert(!dq_stop(s@, i as int));
            assert(plain_end(s@, i as int) == plain_end(s@, i as int + 1));
            lemma_plain_end(s@, i as int + 1);
        }
        let j = plain_end_x(s, i);
        let lit = range_to_string(s, i, j);
        match x_dq(s, j) {
            Some((rest, k)) => {
                let mut segs = rest;
                let ghost restv = segs@.map_values(|c: StringContent| c@);
                segs.insert(0, StringContent::Literal(lit));
                proof {
                    assert(segs@.map_values(|c: StringContent| c@) =~= seq![
                        SegV::Lit(s@.subrange(i as int, j as int)),
                    ] + restv);
                }
                Some((segs, k))
            },
            None => None,
        }
    }
}

fn x_quoted(s: &Vec<char>, i: usize) -> (r: Option<(PuppetString, usize)>)
    requires
        i <= s@.len(),
    ensures
        match r {
            Some(p) => {
                &&& parse_quoted(s@, i as int) == Some((p.0@, p.1 as int))
                &&& i < p.1 <= s@.len()
            },
            None => parse_quoted(s@, i as int) is None,
        },
{
    if i < s.len() && s[i] == '\'' {
        let j = find_char_x(s, i + 1, '\'');
        if j < s.len() {
            let lit = range_to_string(s, i + 1, j);
            let mut v: Vec<StringContent> = Vec::new();
            v.push(StringContent::Literal(lit));
            let ps = PuppetString(v);
            proof {
                assert(ps@ =~= seq![SegV::Lit(s@.subrange(i as int + 1, j as int))]);
            }
            Some((ps, j + 1))
        } else {
            None
        }
    } else if i < s.len() && s[i] == '"' {
        match x_dq(s, i + 1) {
            Some((segs, k)) => Some((PuppetString(segs), k)),
            None => None,
        }
    } else {
        None
    }
}

fn x_segs_ucfirst(segs: &Vec<Vec<char>>) -> (r: bool)
    ensures
        r == segs_ucfirst(segs_view(segs@)),
{
    let n = segs.len();
    let mut k: usize = 0;
    while k < n
        invariant
            k <= n == segs@.len(),
            forall|m: int|
                0 <= m < k ==> segs_view(segs@)[m].len() > 0 && crate::grammar::is_upper(
                    segs_view(segs@)[m][0],
                ),
        decreases n - k,
    {
        let seg = &segs[k];
        if seg.len() == 0 || !is_upper_x(seg[0]) {
            proof {
                assert(!(segs_view(segs@)[k as int].len() > 0 && crate::grammar::is_upper(
                    segs_view(segs@)[k as int][0],
                )));
            }
            return false;
        }
        k += 1;
    }
    true
}

fn x_res_ref(s: &Vec<char>, i: usize) -> (r: Option<(ResourceRef, usize)>)
    requires
        i <= s@.len(),
    ensures
        match r {
            Some(p) => {
                &&& parse_res_ref(s@, i as int) == Some((p.0@, p.1 as int))
                &&& i < p.1 <= s@.len()
            },
            None => parse_res_ref(s@, i as int) is None,
        },
{
    match x_type_segs(s, i) {
        Some((segs, j)) => {
            if !x_segs_ucfirst(&segs) {
                return None;
            }
            let j1 = skip_ws_x(s, j);
            if j1 < s.len() && s[j1] == '[' {
                let j2 = skip_ws_x(s, j1 + 1);
                match x_quoted(s, j2) {
                    Some((title, j3)) => {
                        let j4 = skip_ws_x(s, j3);
                        if j4 < s.len() && s[j4] == ']' {
                            let rtype = canon_string(&segs);
                            Some((ResourceRef { rtype, title }, j4 + 1))
                        } else {
                            None
                        }
                    },
                    None => None,
                }
            } else {
                None
            }
        },
        None => None,
    }
}

fn x_ref_list_rest(s: &Vec<char>, i: usize) -> (r: Option<(Vec<ResourceRef>, usize)>)
    requires
        i <= s@.len(),
    ensures
        match r {
            Some(p) => {
                &&& parse_ref_list_rest(s@, i as int) == Some((refs_view(p.0@), p.1 as int))
                &&& i < p.1 <= s@.len()
            },
            None => parse_ref_list_rest(s@, i as int) is None,
        },
    decreases s@.len() - i,
{
    let j = skip_ws_x(s, i);
    if j < s.len() && s[j] == ']' {
        let v: Vec<ResourceRef> = Vec::new();
        proof {
            assert(refs_view(v@) =~= Seq::<crate::ast::RefV>::empty());
        }
        Some((v, j + 1))
    } else if j < s.len() && s[j] == ',' {
        let j1 = skip_ws_x(s, j + 1);
        match x_res_ref(s, j1) {
            Some((rr, k)) => match x_ref_list_rest(s, k) {
                Some((rest, k2)) => {
                    let mut refs = rest;
                    let ghost restv = refs_view(refs@);
                    refs.insert(0, rr);
                    proof {
                        assert(refs_view(refs@) =~= seq![
                            (parse_res_ref(s@, j1 as int)->0).0,
                        ] + restv);
                    }
                    Some((refs, k2))
                },
                None => None,
            },
            None => None,
        }
    } else {
        None
    }
}

fn x_ref_arg(s: &Vec<char>, i: usize) -> (r: Option<(Vec<ResourceRef>, usize)>)
    requires
        i <= s@.len(),
    ensures
        match r {
            Some(p) => {
                &&& parse_ref_arg(s@, i as int) == Some((refs_view(p.0@), p.1 as int))
                &&& i < p.1 <= s@.len()
            },
            None => parse_ref_arg(s@, i as int) is None,
        },
{
    if i < s.len() && s[i] == '[' {
        let j = skip_ws_x(s, i + 1);
        match x_res_ref(s, j) {
            Some((rr, k)) => match x_ref_list_rest(s, k) {
                Some((rest, k2)) => {
                    let mut refs = rest;
                    let ghost restv = refs_view(refs@);
                    refs.insert(0, rr);
                    proof {
                        assert(refs_view(refs@) =~= seq![(parse_res_ref(s@, j as int)->0).0]
                            + restv);
                    }
                    Some((refs, k2))
                },
                None => None,
            },
            None => None,
        }
    } else {
        match x_res_ref(s, i) {
            Some((rr, k)) => {
                let mut refs: Vec<ResourceRef> = Vec::new();
                refs.push(rr);
                proof {
                    assert(refs_view(refs@) =~= seq![(parse_res_ref(s@, i as int)->0).0]);
                }
                Some((refs, k))
            },
            None => None,
        }
    }
}

fn x_op(s: &Vec<char>, i: usize) -> (r: Option<(RelationOp, usize)>)
    requires
        i <= s@.len(),
    ensures
        match r {
            Some(p) => parse_op(s@, i as int) == Some((p.0, p.1 as int)) && p.1 == i + 2,
            None => parse_op(s@, i as int) is None,
        },
{
    if i < s.len() && i + 1 < s.len() {
        proof {
            assert(s@.subrange(i as int, i as int + 2) =~= seq![s@[i as int], s@[i as int + 1]]);
        }
        match RelationOp::from_chars(s[i], s[i + 1]) {
            Some(op) => Some((op, i + 2)),
            None => None,
        }
    } else {
        None
    }
}

fn x_chain_rest(s: &Vec<char>, i: usize) -> (r: Option<
    (Vec<(RelationOp, Vec<ResourceRef>)>, usize),
>)
    requires
        i <= s@.len(),
    ensures
        match r {
            Some(p) => {
                &&& parse_chain_rest(s@, i as int) == Some((chain_view(p.0@), p.1 as int))
                &&& i <= p.1 <= s@.len()
            },
            None => parse_chain_rest(s@, i as int) is None,
        },
    decreases s@.len() - i,
{
    let j = skip_ws_x(s, i);
    match x_op(s, j) {
        Some((op, j2)) => {
            let j3 = skip_ws_x(s, j2);
            match x_ref_arg(s, j3) {
                Some((g, k)) => match x_chain_rest(s, k) {
                    Some((rest, k2)) => {
                        let mut groups = rest;
                        let ghost restv = chain_view(groups@);
                        let ghost gv = refs_view(g@);
                        groups.insert(0, (op, g));
                        proof {
                            assert(chain_view(groups@) =~= seq![(op, gv)] + restv);
                        }
                        Some((groups, k2))
                    },
                    None => None,
                },
                None => None,
            }
        },
        None => {
            let v: Vec<(RelationOp, Vec<ResourceRef>)> = Vec::new();
            proof {
                assert(chain_view(v@) =~= Seq::<(RelationOp, Seq<crate::ast::RefV>)>::empty());
            }
            Some((v, i))
        },
    }
}

fn x_relation(s: &Vec<char>, i: usize) -> (r: Option<(Vec<PuppetExpr>, usize)>)
    requires
        i <= s@.len(),
    ensures
        match r {
            Some(p) => {
                &&& parse_relation(s@, i as int) == Some((exprs_view(p.0@), p.1 as int))
                &&& i < p.1 <= s@.len()
            },
            None => parse_relation(s@, i as int) is None,
        },
{
    match x_ref_arg(s, i) {
        Some((g0, j)) => match x_chain_rest(s, j) {
            Some((rest, k)) => {
                if rest.len() >= 1 {
                    let ghost g0v = refs_view(g0@);
                    let ghost restv = chain_view(rest@);
                    let mut exprs: Vec<PuppetExpr> = Vec::new();
                    let mut cur = g0;
                    let n = rest.len();
                    let mut t: usize = 0;
                    proof {
                        assert(restv.skip(0) =~= restv);
                        assert(exprs_view(exprs@) =~= Seq::<crate::ast::ExprV>::empty());
                        assert(exprs_view(exprs@) + chain_relations(refs_view(cur@), restv.skip(0))
                            =~= chain_relations(g0v, restv));
                    }
                    while t < n
                        invariant
                            t <= n == rest@.len(),
                            restv == chain_view(rest@),
                            exprs_view(exprs@) + chain_relations(
                                refs_view(cur@),
                                restv.skip(t as int),
                            ) == chain_relations(g0v, restv),
                        decreases n - t,
                    {
                        let ghost prev = exprs_view(exprs@);
                        let ghost curv = refs_view(cur@);
                        let op = rest[t].0;
                        let g = dup_refs(&rest[t].1);
                        let ghost gv = refs_view(g@);
                        exprs.push(PuppetExpr::Relation { from: cur, to: g, op });
                        cur = dup_refs(&rest[t].1);
                        proof {
                            assert(gv == restv[t as int].1);
                            assert(refs_view(cur@) == restv[t as int].1);
                            let tail = restv.skip(t as int);
                            assert(tail[0] == restv[t as int]);
                            assert(tail.drop_first() =~= restv.skip(t as int + 1));
                            assert(chain_relations(curv, tail) == seq![
                                crate::ast::ExprV::Rel { from: curv, to: tail[0].1, op: tail[0].0 },
                            ] + chain_relations(tail[0].1, tail.drop_first()));
                            assert(exprs_view(exprs@) =~= prev.push(
                                crate::ast::ExprV::Rel { from: curv, to: gv, op },
                            ));
                            assert(exprs_view(exprs@) + chain_relations(
                                refs_view(cur@),
                                restv.skip(t as int + 1),
                            ) =~= chain_relations(g0v, restv));
                        }
                        t += 1;
                    }
                    proof {
                        assert(restv.skip(n as int) =~= Seq::<
                            (RelationOp, Seq<crate::ast::RefV>),
                        >::empty());
                        assert(exprs_view(exprs@) + chain_relations(
                            refs_view(cur@),
                            restv.skip(n as int),
                        ) =~= exprs_view(exprs@));
                    }
                    Some((exprs, k))
                } else {
                    None
                }
            },
            None => None,
        },
        None => None,
    }
}

fn x_attr(s: &Vec<char>, i: usize) -> (r: Option<(Attribute, usize)>)
    requires
        i <= s@.len(),
    ensures
        match r {
            Some(p) => {
                &&& parse_attr(s@, i as int) == Some((p.0@, p.1 as int))
                &&& i < p.1 <= s@.len()
            },
            None => parse_attr(s@, i as int) is None,
        },
{
    if i < s.len() && is_ident_start_x(s[i]) {
        let j = ident_end_x(s, i);
        let j1 = skip_ws_x(s, j);
        if j1 < s.len() && s[j1] == '=' && j1 + 1 < s.len() && s[j1 + 1] == '>' {
            let j2 = skip_ws_x(s, j1 + 2);
            match x_quoted(s, j2) {
                Some((value, k)) => {
                    let name = range_to_string(s, i, j);
                    proof {
                        lemma_parse_quoted(s@, j2 as int);
                    }
                    Some((Attribute { name, value }, k))
                },
                None => None,
            }
        } else {
            proof {
                if j1 < s.len() && s[j1 as int] == '=' {
                    assert(!(j1 as int + 1 < s@.len() && s@[j1 as int + 1] == '>'));
                }
            }
            None
        }
    } else {
        None
    }
}

fn x_attrs(s: &Vec<char>, i: usize) -> (r: Option<(Vec<Attribute>, usize)>)
    requires
        i <= s@.len(),
    ensures
        match r {
            Some(p) => {
                &&& parse_attrs(s@, i as int) == Some(
                    (p.0@.map_values(|a: Attribute| a@), p.1 as int),
                )
                &&& i < p.1 <= s@.len()
            },
            None => parse_attrs(s@, i as int) is None,
        },
    decreases s@.len() - i,
{
    let j = skip_ws_x(s, i);
    if j < s.len() && s[j] == '}' {
        let v: Vec<Attribute> = Vec::new();
        proof {
            assert(v@.map_values(|a: Attribute| a@) =~= Seq::<crate::ast::AttrV>::empty());
        }
        Some((v, j + 1))
    } else {
        match x_attr(s, j) {
            Some((a, k)) => {
                let k1 = skip_ws_x(s, k);
                if k1 < s.len() && s[k1] == ',' {
                    match x_attrs(s, k1 + 1) {
                        Some((rest, k2)) => {
                            let mut attrs = rest;
                            let ghost restv = attrs@.map_values(|x: Attribute| x@);
                            let ghost av = a@;
                            attrs.insert(0, a);
                            proof {
                                assert(attrs@.map_values(|x: Attribute| x@) =~= seq![av] + restv);
                            }
                            Some((attrs, k2))
                        },
                        None => None,
                    }
                } else if k1 < s.len() && s[k1] == '}' {
                    let ghost av = a@;
                    let mut attrs: Vec<Attribute> = Vec::new();
                    attrs.push(a);
                    proof {
                        assert(attrs@.map_values(|x: Attribute| x@) =~= seq![av]);
                    }
                    Some((attrs, k1 + 1))
                } else {
                    None
                }
            },
            None => None,
        }
    }
}

fn x_resource(s: &Vec<char>, i: usize) -> (r: Option<(PuppetExpr, usize)>)
    requires
        i <= s@.len(),
    ensures
        match r {
            Some(p) => {
                &&& parse_resource(s@, i as int) == Some((p.0@, p.1 as int))
                &&& i < p.1 <= s@.len()
            },
            None => parse_resource(s@, i as int) is None,
        },
{
    match x_type_segs(s, i) {
        Some((segs, j)) => {
            let j1 = skip_ws_x(s, j);
            if j1 < s.len() && s[j1] == '{' {
                let j2 = skip_ws_x(s, j1 + 1);
                match x_quoted(s, j2) {
                    Some((title, j3)) => {
                        let j4 = skip_ws_x(s, j3);
                        if j4 < s.len() && s[j4] == ':' {
                            match x_attrs(s, j4 + 1) {
                                Some((attributes, k)) => {
                                    let rtype = canon_string(&segs);
                                    Some(
                                        (
                                            PuppetExpr::Resource { rtype, title, attributes },
                                            k,
                                        ),
                                    )
                                },
                                None => None,
                            }
                        } else {
                            None
                        }
                    },
                    None => None,
                }
            } else {
                None
            }
        },
        None => None,
    }
}

fn x_expr(s: &Vec<char>, i: usize) -> (r: Option<(Vec<PuppetExpr>, usize)>)
    requires
        i <= s@.len(),
    ensures
        match r {
            Some(p) => {
                &&& parse_expr(s@, i as int) == Some((exprs_view(p.0@), p.1 as int))
                &&& i < p.1 <= s@.len()
            },
            None => parse_expr(s@, i as int) is None,
        },
{
    match x_resource(s, i) {
        Some((e, k)) => {
            let ghost ev = e@;
            let mut v: Vec<PuppetExpr> = Vec::new();
            v.push(e);
            proof {
                assert(exprs_view(v@) =~= seq![ev]);
            }
            Some((v, k))
        },
        None => x_relation(s, i),
    }
}

pub(crate) fn x_program(s: &Vec<char>, i: usize) -> (r: Option<Vec<PuppetExpr>>)
    requires
        i <= s@.len(),
    ensures
        match r {
            Some(v) => parse_program(s@, i as int) == Some(exprs_view(v@)),
            None => parse_program(s@, i as int) is None,
        },
    decreases s@.len() - i,
{
    let j = skip_ws_x(s, i);
    if j >= s.len() {
        let v: Vec<PuppetExpr> = Vec::new();
        proof {
            assert(exprs_view(v@) =~= Seq::<crate::ast::ExprV>::empty());
        }
        Some(v)
    } else {
        match x_expr(s, j) {
            Some((es, k)) => match x_program(s, k) {
                Some(rest) => {
                    let mut es = es;
                    let mut rest = rest;
                    let ghost esv = exprs_view(es@);
                    let ghost restv = exprs_view(rest@);
                    es.append(&mut rest);
                    proof {
                        assert(exprs_view(es@) =~= esv + restv);
                    }
                    Some(es)
                },
                None => None,
            },
            None => None,
        }
    }
}

} // verus!
