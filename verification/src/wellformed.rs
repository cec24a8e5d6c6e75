//! What parsing guarantees of its output: variable names are identifiers,
//! literal runs are maximal, type names are canonical layouts. Together with
//! the literal-character conditions — which only single-quoted source text
//! can break — this makes every parsed manifest well-formed for the rendering
//! round trip.

use crate::ast::{canon_join, uc, uc_first, ExprV, RefV};
use crate::grammar::{
    ident_end, is_ident_char, is_ident_start, is_upper, parse_dq, parse_quoted, parse_type_segs,
    plain_end, segs_ucfirst,
};
use crate::pstring::SegV;
use crate::roundtrip::{is_type_layout, join_sep, wf_ident, wf_segs, wf_type_text};
use vstd::prelude::*;

verus! {

/// The structural shape parsing gives a segment sequence: variable names are
/// identifiers, and a literal segment is directly followed only by a
/// variable.
pub open spec fn sf_segs(ss: Seq<SegV>) -> bool {
    forall|k: int|
        0 <= k < ss.len() ==> match #[trigger] ss[k] {
            SegV::Lit(_) => k + 1 < ss.len() ==> ss[k + 1] is Var,
            SegV::Var(v) => wf_ident(v),
        }
}

/// The character conditions a literal segment needs for its double-quoted
/// rendering to read back unchanged: nonempty, no quote, no `${`.
pub open spec fn lit_clean_segs(ss: Seq<SegV>) -> bool {
    forall|k: int|
        0 <= k < ss.len() ==> match #[trigger] ss[k] {
            SegV::Lit(t) => {
                &&& t.len() >= 1
                &&& (forall|m: int| 0 <= m < t.len() ==> #[trigger] t[m] != '"')
                &&& (forall|m: int|
                    0 <= m < t.len() - 1 ==> !(#[trigger] t[m] == '$' && t[m + 1] == '{'))
            },
            SegV::Var(_) => true,
        }
}

/// Shape and cleanliness together are well-formedness.
pub proof fn lemma_segs_wf(ss: Seq<SegV>)
    requires
        sf_segs(ss),
        lit_clean_segs(ss),
    ensures
        wf_segs(ss),
{
}

/// Identifier scanning covers identifier characters only.
proof fn lemma_ident_end_chars(s: Seq<char>, i: int)
    requires
        0 <= i <= s.len(),
    ensures
        forall|k: int| i <= k < ident_end(s, i) ==> is_ident_char(#[trigger] s[k]),
    decreases s.len() - i,
{
    if i < s.len() && is_ident_char(s[i]) {
        lemma_ident_end_chars(s, i + 1);
        crate::grammar::lemma_ident_end(s, i + 1);
    }
}

/// A literal run holds no quote and no `${` opener.
proof fn lemma_plain_chars(s: Seq<char>, i: int)
    requires
        0 <= i <= s.len(),
    ensures
        forall|k: int| i <= k < plain_end(s, i) ==> #[trigger] s[k] != '"',
        forall|k: int|
            i <= k < plain_end(s, i) - 1 ==> !(#[trigger] s[k] == '$' && s[k + 1] == '{'),
    decreases s.len() - i,
{
    if i < s.len() && !crate::grammar::dq_stop(s, i) {
        lemma_plain_chars(s, i + 1);
        crate::grammar::lemma_plain_end(s, i + 1);
        assert(s[i] != '"');
        assert forall|k: int| i <= k < plain_end(s, i) - 1 implies !(#[trigger] s[k] == '$'
            && s[k + 1] == '{') by {
            if k == i {
                assert(!crate::grammar::dq_stop(s, i));
                assert(k + 1 < s.len());
            }
        }
    }
}

/// Double-quoted contents parse to a fully well-formed segment sequence.
proof fn lemma_parse_dq_wf(s: Seq<char>, i: int)
    requires
        0 <= i <= s.len(),
    ensures
        parse_dq(s, i) matches Some(p) ==> wf_segs(p.0),
    decreases s.len() - i,
{
    if i >= s.len() {
    } else if s[i] == '"' {
    } else if s[i] == '$' && i + 1 < s.len() && s[i + 1] == '{' {
        if i + 2 < s.len() && is_ident_start(s[i + 2]) {
            let j = ident_end(s, i + 2);
            crate::grammar::lemma_ident_end(s, i + 2);
            lemma_ident_end_chars(s, i + 2);
            assert(ident_end(s, i + 2) == ident_end(s, i + 3));
            crate::grammar::lemma_ident_end(s, i + 3);
            if j < s.len() && s[j] == '}' {
                lemma_parse_dq_wf(s, j + 1);
                if parse_dq(s, j + 1) is Some {
                    let rest = (parse_dq(s, j + 1)->0).0;
                    let v = s.subrange(i + 2, j);
                    assert(wf_ident(v)) by {
                        assert(v.len() == j - i - 2 >= 1);
                        assert(v[0] == s[i + 2]);
                        assert(forall|k: int| 0 <= k < v.len() ==> #[trigger] v[k] == s[i + 2
                            + k]);
                    }
                    let ss = seq![SegV::Var(v)] + rest;
                    assert(wf_segs(ss)) by {
                        assert(forall|k: int| 1 <= k < ss.len() ==> #[trigger] ss[k] == rest[k
                            - 1]);
                        assert(ss[0] == SegV::Var(v));
                    }
                }
            }
        }
    } else {
        assert(!crate::grammar::dq_stop(s, i));
        assert(plain_end(s, i) == plain_end(s, i + 1));
        crate::grammar::lemma_plain_end(s, i + 1);
        let j = plain_end(s, i);
        lemma_parse_dq_wf(s, j);
        lemma_plain_chars(s, i);
        crate::grammar::lemma_plain_end(s, i);
        if parse_dq(s, j) is Some {
            let rest = (parse_dq(s, j)->0).0;
            let t = s.subrange(i, j);
            let ss = seq![SegV::Lit(t)] + rest;
            assert(t.len() >= 1);
            assert(forall|m: int| 0 <= m < t.len() ==> #[trigger] t[m] == s[i + m]);
            assert(forall|m: int| 0 <= m < t.len() ==> #[trigger] t[m] != '"');
            assert forall|m: int| 0 <= m < t.len() - 1 implies !(#[trigger] t[m] == '$' && t[m
                + 1] == '{') by {
                assert(t[m] == s[i + m] && t[m + 1] == s[i + m + 1]);
            }
            // The rest begins at a stop: the closing quote ends the string,
            // and a variable opener puts a variable segment first.
            assert(rest.len() > 0 ==> rest[0] is Var) by {
                if rest.len() > 0 {
                    assert(crate::grammar::dq_stop(s, j));
                    if s[j] == '"' {
                        assert(parse_dq(s, j) == Some((Seq::<SegV>::empty(), j + 1)));
                        assert(false);
                    } else {
                        assert(s[j] == '$' && j + 1 < s.len() && s[j + 1] == '{');
                        if j + 2 < s.len() && is_ident_start(s[j + 2]) {
                            let j2 = ident_end(s, j + 2);
                            if j2 < s.len() && s[j2] == '}' {
                                if parse_dq(s, j2 + 1) is Some {
                                    assert(rest[0] == SegV::Var(s.subrange(j + 2, j2)));
                                }
                            }
                        }
                    }
                }
            }
            assert(wf_segs(ss)) by {
                assert(forall|k: int| 1 <= k < ss.len() ==> #[trigger] ss[k] == rest[k - 1]);
                assert(ss[0] == SegV::Lit(t));
                assert(ss.len() > 1 ==> ss[1] is Var);
            }
        }
    }
}

/// A quoted string parses to a structurally well-formed segment sequence; a
/// double-quoted one is moreover clean.
proof fn lemma_parse_quoted_sf(s: Seq<char>, i: int)
    requires
        0 <= i <= s.len(),
    ensures
        parse_quoted(s, i) matches Some(p) ==> sf_segs(p.0),
{
    if i < s.len() && s[i] == '\'' {
        let j = crate::grammar::find_char(s, i + 1, '\'');
        if j < s.len() {
            let ss = seq![SegV::Lit(s.subrange(i + 1, j))];
            assert(sf_segs(ss)) by {
                assert(ss.len() == 1 && ss[0] is Lit);
            }
        }
    } else if i < s.len() && s[i] == '"' {
        lemma_parse_dq_wf(s, i + 1);
    }
}

/// Type-name parsing yields identifier segments.
proof fn lemma_parse_type_segs_idents(s: Seq<char>, i: int)
    requires
        0 <= i <= s.len(),
    ensures
        parse_type_segs(s, i) matches Some(p) ==> forall|k: int|
            0 <= k < p.0.len() ==> wf_ident(#[trigger] p.0[k]),
    decreases s.len() - i,
{
    if i < s.len() && is_ident_start(s[i]) {
        let j = ident_end(s, i);
        crate::grammar::lemma_ident_end(s, i);
        assert(ident_end(s, i) == ident_end(s, i + 1));
        crate::grammar::lemma_ident_end(s, i + 1);
        lemma_ident_end_chars(s, i);
        let w = s.subrange(i, j);
        assert(wf_ident(w)) by {
            assert(w.len() == j - i >= 1);
            assert(w[0] == s[i]);
            assert(forall|k: int| 0 <= k < w.len() ==> #[trigger] w[k] == s[i + k]);
        }
        if j + 1 < s.len() && s[j] == ':' && s[j + 1] == ':' {
            lemma_parse_type_segs_idents(s, j + 2);
            if parse_type_segs(s, j + 2) is Some {
                let rest = (parse_type_segs(s, j + 2)->0).0;
                let segs = seq![w] + rest;
                assert(forall|k: int| 1 <= k < segs.len() ==> #[trigger] segs[k] == rest[k - 1]);
                assert(segs[0] == w);
            }
        } else {
            assert(seq![w][0] == w);
        }
    }
}

/// Upper-casing preserves the identifier shape and fixes the leading
/// character under canonicalization.
proof fn lemma_uc_first_ident(w: Seq<char>)
    requires
        wf_ident(w),
    ensures
        wf_ident(uc_first(w)),
        uc(uc_first(w)[0]) == uc_first(w)[0],
        uc_first(w).len() == w.len(),
    decreases w.len(),
{
    let u = uc_first(w);
    assert(u[0] == uc(w[0]));
    assert(is_ident_start(uc(w[0])));
    assert(uc(uc(w[0])) == uc(w[0]));
    assert(forall|k: int| 1 <= k < u.len() ==> #[trigger] u[k] == w[k]);
    assert(forall|k: int| 0 <= k < u.len() ==> is_ident_char(#[trigger] u[k])) by {
        assert(is_ident_char(u[0]));
    }
}

/// The canonical join of identifier segments is spelled out by their
/// upper-cased layout; upper-case-first segments stay themselves.
proof fn lemma_canon_layout(segs: Seq<Seq<char>>)
    requires
        segs.len() >= 1,
        forall|k: int| 0 <= k < segs.len() ==> wf_ident(#[trigger] segs[k]),
    ensures
        is_type_layout(
            canon_join(segs),
            segs.map_values(|w: Seq<char>| uc_first(w)),
            false,
        ),
        segs_ucfirst(segs) ==> is_type_layout(
            canon_join(segs),
            segs.map_values(|w: Seq<char>| uc_first(w)),
            true,
        ),
    decreases segs.len(),
{
    let m = segs.map_values(|w: Seq<char>| uc_first(w));
    assert forall|k: int| 0 <= k < m.len() implies wf_ident(#[trigger] m[k]) && uc(m[k][0])
        == m[k][0] by {
        assert(m[k] == uc_first(segs[k]));
        lemma_uc_first_ident(segs[k]);
    }
    if segs.len() == 1 {
        assert(canon_join(segs) == uc_first(segs[0]));
        assert(m =~= seq![uc_first(segs[0])]);
        assert(join_sep(m) == m[0]);
    } else {
        lemma_canon_layout(segs.drop_first());
        let md = segs.drop_first().map_values(|w: Seq<char>| uc_first(w));
        assert(m.drop_first() =~= md) by {
            assert(forall|k: int| 0 <= k < md.len() ==> #[trigger] md[k] == uc_first(
                segs.drop_first()[k],
            ));
            assert(forall|k: int|
                0 <= k < m.drop_first().len() ==> #[trigger] m.drop_first()[k] == m[k + 1]);
            assert(forall|k: int|
                0 <= k < segs.drop_first().len() ==> #[trigger] segs.drop_first()[k] == segs[k
                    + 1]);
        }
        assert(canon_join(segs) == uc_first(segs[0]) + seq![':', ':'] + canon_join(
            segs.drop_first(),
        ));
        assert(join_sep(m) == m[0] + seq![':', ':'] + join_sep(m.drop_first()));
        assert(canon_join(segs.drop_first()) == join_sep(md));
        assert(canon_join(segs) == join_sep(m));
    }
    if segs_ucfirst(segs) {
        assert forall|k: int| 0 <= k < m.len() implies is_upper(#[trigger] m[k][0]) by {
            assert(is_upper(segs[k][0]));
            assert(m[k] == uc_first(segs[k]));
            assert(m[k][0] == uc(segs[k][0]));
            assert(uc(segs[k][0]) == segs[k][0]);
        }
    }
}

/// A parsed type name is a canonical type-name text.
proof fn lemma_canon_wf(s: Seq<char>, i: int, upper: bool)
    requires
        0 <= i <= s.len(),
        parse_type_segs(s, i) is Some,
        upper ==> segs_ucfirst((parse_type_segs(s, i)->0).0),
    ensures
        wf_type_text(canon_join((parse_type_segs(s, i)->0).0), upper),
{
    let segs = (parse_type_segs(s, i)->0).0;
    lemma_parse_type_segs_idents(s, i);
    assert(segs.len() >= 1) by {
        if i < s.len() && is_ident_start(s[i]) {
            let j = ident_end(s, i);
            if j + 1 < s.len() && s[j] == ':' && s[j + 1] == ':' {
            }
        }
    }
    lemma_canon_layout(segs);
    let m = segs.map_values(|w: Seq<char>| uc_first(w));
    if upper {
        assert(is_type_layout(canon_join(segs), m, true));
    } else {
        assert(is_type_layout(canon_join(segs), m, false));
    }
}

/// The structural shape parsing gives a reference.
pub open spec fn sf_ref(r: RefV) -> bool {
    &&& wf_type_text(r.rtype, true)
    &&& sf_segs(r.title)
}

/// The structural shape parsing gives an expression.
pub open spec fn sf_expr(e: ExprV) -> bool {
    match e {
        ExprV::Res { rtype, title, attrs } => {
            &&& wf_type_text(rtype, false)
            &&& sf_segs(title)
            &&& forall|k: int|
                0 <= k < attrs.len() ==> wf_ident((#[trigger] attrs[k]).name) && sf_segs(
                    attrs[k].value,
                )
        },
        ExprV::Rel { from, to, op: _ } => {
            &&& from.len() >= 1
            &&& to.len() >= 1
            &&& forall|k: int| 0 <= k < from.len() ==> sf_ref(#[trigger] from[k])
            &&& forall|k: int| 0 <= k < to.len() ==> sf_ref(#[trigger] to[k])
        },
    }
}

/// The literal-character conditions over every string of an expression.
pub open spec fn lit_clean_expr(e: ExprV) -> bool {
    match e {
        ExprV::Res { rtype: _, title, attrs } => {
            &&& lit_clean_segs(title)
            &&& forall|k: int| 0 <= k < attrs.len() ==> lit_clean_segs((#[trigger] attrs[k]).value)
        },
        ExprV::Rel { from, to, op: _ } => {
            &&& forall|k: int| 0 <= k < from.len() ==> lit_clean_segs((#[trigger] from[k]).title)
            &&& forall|k: int| 0 <= k < to.len() ==> lit_clean_segs((#[trigger] to[k]).title)
        },
    }
}

/// The literal-character conditions over every string of a manifest.
pub open spec fn lit_clean_manifest(es: Seq<ExprV>) -> bool {
    forall|k: int| 0 <= k < es.len() ==> lit_clean_expr(#[trigger] es[k])
}

/// Shape and cleanliness together make an expression well-formed.
proof fn lemma_expr_wf(e: ExprV)
    requires
        sf_expr(e),
        lit_clean_expr(e),
    ensures
        crate::roundtrip::wf_expr(e),
{
    match e {
        ExprV::Res { rtype, title, attrs } => {
            lemma_segs_wf(title);
            assert forall|k: int| 0 <= k < attrs.len() implies wf_ident(
                (#[trigger] attrs[k]).name,
            ) && wf_segs(attrs[k].value) by {
                lemma_segs_wf(attrs[k].value);
            }
        },
        ExprV::Rel { from, to, op: _ } => {
            assert forall|k: int| 0 <= k < from.len() implies crate::roundtrip::wf_ref(
                #[trigger] from[k],
            ) by {
                lemma_segs_wf(from[k].title);
            }
            assert forall|k: int| 0 <= k < to.len() implies crate::roundtrip::wf_ref(
                #[trigger] to[k],
            ) by {
                lemma_segs_wf(to[k].title);
            }
        },
    }
}

/// A parsed reference has the structural shape.
proof fn lemma_parse_res_ref_sf(s: Seq<char>, i: int)
    requires
        0 <= i <= s.len(),
    ensures
        crate::grammar::parse_res_ref(s, i) matches Some(p) ==> sf_ref(p.0),
{
    if parse_type_segs(s, i) is Some {
        let segs = (parse_type_segs(s, i)->0).0;
        let j = (parse_type_segs(s, i)->0).1;
        crate::grammar::lemma_parse_type_segs(s, i);
        if segs_ucfirst(segs) {
            lemma_canon_wf(s, i, true);
            let j1 = crate::grammar::skip_ws(s, j);
            crate::grammar::lemma_skip_ws(s, j);
            if j1 < s.len() && s[j1] == '[' {
                let j2 = crate::grammar::skip_ws(s, j1 + 1);
                crate::grammar::lemma_skip_ws(s, j1 + 1);
                lemma_parse_quoted_sf(s, j2);
            }
        }
    }
}

/// Every reference of a parsed list tail has the structural shape.
proof fn lemma_parse_ref_list_rest_sf(s: Seq<char>, i: int)
    requires
        0 <= i <= s.len(),
    ensures
        crate::grammar::parse_ref_list_rest(s, i) matches Some(p) ==> forall|k: int|
            0 <= k < p.0.len() ==> sf_ref(#[trigger] p.0[k]),
    decreases s.len() - i,
{
    let j = crate::grammar::skip_ws(s, i);
    crate::grammar::lemma_skip_ws(s, i);
    if j < s.len() && s[j] == ']' {
    } else if j < s.len() && s[j] == ',' {
        let j1 = crate::grammar::skip_ws(s, j + 1);
        crate::grammar::lemma_skip_ws(s, j + 1);
        lemma_parse_res_ref_sf(s, j1);
        crate::grammar::lemma_parse_res_ref(s, j1);
        if crate::grammar::parse_res_ref(s, j1) is Some {
            let r = (crate::grammar::parse_res_ref(s, j1)->0).0;
            let k2 = (crate::grammar::parse_res_ref(s, j1)->0).1;
            lemma_parse_ref_list_rest_sf(s, k2);
            if crate::grammar::parse_ref_list_rest(s, k2) is Some {
                let rest = (crate::grammar::parse_ref_list_rest(s, k2)->0).0;
                let rs = seq![r] + rest;
                assert(forall|k: int| 1 <= k < rs.len() ==> #[trigger] rs[k] == rest[k - 1]);
                assert(rs[0] == r);
            }
        }
    }
}

/// Every reference of a parsed ref-arg has the structural shape.
proof fn lemma_parse_ref_arg_sf(s: Seq<char>, i: int)
    requires
        0 <= i <= s.len(),
    ensures
        crate::grammar::parse_ref_arg(s, i) matches Some(p) ==> forall|k: int|
            0 <= k < p.0.len() ==> sf_ref(#[trigger] p.0[k]),
{
    if i < s.len() && s[i] == '[' {
        let j = crate::grammar::skip_ws(s, i + 1);
        crate::grammar::lemma_skip_ws(s, i + 1);
        lemma_parse_res_ref_sf(s, j);
        crate::grammar::lemma_parse_res_ref(s, j);
        if crate::grammar::parse_res_ref(s, j) is Some {
            let r = (crate::grammar::parse_res_ref(s, j)->0).0;
            let k2 = (crate::grammar::parse_res_ref(s, j)->0).1;
            lemma_parse_ref_list_rest_sf(s, k2);
            if crate::grammar::parse_ref_list_rest(s, k2) is Some {
                let rest = (crate::grammar::parse_ref_list_rest(s, k2)->0).0;
                let rs = seq![r] + rest;
                assert(forall|k: int| 1 <= k < rs.len() ==> #[trigger] rs[k] == rest[k - 1]);
                assert(rs[0] == r);
            }
        }
    } else {
        lemma_parse_res_ref_sf(s, i);
        if crate::grammar::parse_res_ref(s, i) is Some {
            let r = (crate::grammar::parse_res_ref(s, i)->0).0;
            assert(seq![r][0] == r);
        }
    }
}

/// Every group of a parsed chain tail is a nonempty list of structurally
/// shaped references.
proof fn lemma_parse_chain_rest_sf(s: Seq<char>, i: int)
    requires
        0 <= i <= s.len(),
    ensures
        crate::grammar::parse_chain_rest(s, i) matches Some(p) ==> forall|t: int|
            0 <= t < p.0.len() ==> (#[trigger] p.0[t]).1.len() >= 1 && (forall|k: int|
                0 <= k < p.0[t].1.len() ==> sf_ref(#[trigger] p.0[t].1[k])),
    decreases s.len() - i,
{
    let j = crate::grammar::skip_ws(s, i);
    crate::grammar::lemma_skip_ws(s, i);
    if crate::grammar::parse_op(s, j) is Some {
        let j2 = (crate::grammar::parse_op(s, j)->0).1;
        assert(j2 == j + 2);
        let j3 = crate::grammar::skip_ws(s, j2);
        crate::grammar::lemma_skip_ws(s, j2);
        lemma_parse_ref_arg_sf(s, j3);
        crate::grammar::lemma_parse_ref_arg(s, j3);
        if crate::grammar::parse_ref_arg(s, j3) is Some {
            let g = (crate::grammar::parse_ref_arg(s, j3)->0).0;
            let k = (crate::grammar::parse_ref_arg(s, j3)->0).1;
            let op = (crate::grammar::parse_op(s, j)->0).0;
            lemma_parse_chain_rest_sf(s, k);
            if crate::grammar::parse_chain_rest(s, k) is Some {
                let rest = (crate::grammar::parse_chain_rest(s, k)->0).0;
                let gs = seq![(op, g)] + rest;
                assert(forall|t: int| 1 <= t < gs.len() ==> #[trigger] gs[t] == rest[t - 1]);
                assert(gs[0] == (op, g));
            }
        }
    }
}

/// Every statement a parsed chain decomposes into has the structural shape.
proof fn lemma_chain_relations_sf(g0: Seq<RefV>, rest: Seq<(crate::ast::RelationOp, Seq<RefV>)>)
    requires
        g0.len() >= 1,
        forall|k: int| 0 <= k < g0.len() ==> sf_ref(#[trigger] g0[k]),
        forall|t: int|
            0 <= t < rest.len() ==> (#[trigger] rest[t]).1.len() >= 1 && (forall|k: int|
                0 <= k < rest[t].1.len() ==> sf_ref(#[trigger] rest[t].1[k])),
    ensures
        forall|t: int|
            0 <= t < crate::grammar::chain_relations(g0, rest).len() ==> sf_expr(
                #[trigger] crate::grammar::chain_relations(g0, rest)[t],
            ),
    decreases rest.len(),
{
    if rest.len() > 0 {
        assert(forall|t: int|
            0 <= t < rest.drop_first().len() ==> #[trigger] rest.drop_first()[t] == rest[t + 1]);
        lemma_chain_relations_sf(rest[0].1, rest.drop_first());
        let c = crate::grammar::chain_relations(g0, rest);
        let cr = crate::grammar::chain_relations(rest[0].1, rest.drop_first());
        assert forall|t: int| 0 <= t < c.len() implies sf_expr(#[trigger] c[t]) by {
            if t == 0 {
                assert(c[0] == ExprV::Rel { from: g0, to: rest[0].1, op: rest[0].0 });
            } else {
                assert(c[t] == cr[t - 1]);
            }
        }
    }
}

/// A parsed attribute has the structural shape.
proof fn lemma_parse_attr_sf(s: Seq<char>, i: int)
    requires
        0 <= i <= s.len(),
    ensures
        crate::grammar::parse_attr(s, i) matches Some(p) ==> wf_ident(p.0.name) && sf_segs(
            p.0.value,
        ),
{
    if i < s.len() && is_ident_start(s[i]) {
        let j = ident_end(s, i);
        crate::grammar::lemma_ident_end(s, i);
        assert(ident_end(s, i) == ident_end(s, i + 1));
        crate::grammar::lemma_ident_end(s, i + 1);
        lemma_ident_end_chars(s, i);
        let w = s.subrange(i, j);
        assert(wf_ident(w)) by {
            assert(w.len() == j - i >= 1);
            assert(w[0] == s[i]);
            assert(forall|k: int| 0 <= k < w.len() ==> #[trigger] w[k] == s[i + k]);
        }
        let j1 = crate::grammar::skip_ws(s, j);
        crate::grammar::lemma_skip_ws(s, j);
        if j1 + 1 < s.len() && s[j1] == '=' && s[j1 + 1] == '>' {
            let j2 = crate::grammar::skip_ws(s, j1 + 2);
            crate::grammar::lemma_skip_ws(s, j1 + 2);
            lemma_parse_quoted_sf(s, j2);
        }
    }
}

/// Every attribute of a parsed block has the structural shape.
proof fn lemma_parse_attrs_sf(s: Seq<char>, i: int)
    requires
        0 <= i <= s.len(),
    ensures
        crate::grammar::parse_attrs(s, i) matches Some(p) ==> forall|k: int|
            0 <= k < p.0.len() ==> wf_ident((#[trigger] p.0[k]).name) && sf_segs(p.0[k].value),
    decreases s.len() - i,
{
    let j = crate::grammar::skip_ws(s, i);
    crate::grammar::lemma_skip_ws(s, i);
    if j < s.len() && s[j] == '}' {
    } else {
        lemma_parse_attr_sf(s, j);
        crate::grammar::lemma_parse_attr(s, j);
        if crate::grammar::parse_attr(s, j) is Some {
            let a = (crate::grammar::parse_attr(s, j)->0).0;
            let k = (crate::grammar::parse_attr(s, j)->0).1;
            let k1 = crate::grammar::skip_ws(s, k);
            crate::grammar::lemma_skip_ws(s, k);
            if k1 < s.len() && s[k1] == ',' {
                lemma_parse_attrs_sf(s, k1 + 1);
                if crate::grammar::parse_attrs(s, k1 + 1) is Some {
                    let rest = (crate::grammar::parse_attrs(s, k1 + 1)->0).0;
                    let attrs = seq![a] + rest;
                    assert(forall|k2: int|
                        1 <= k2 < attrs.len() ==> #[trigger] attrs[k2] == rest[k2 - 1]);
                    assert(attrs[0] == a);
                }
            } else if k1 < s.len() && s[k1] == '}' {
                assert(seq![a][0] == a);
            }
        }
    }
}

/// A parsed resource declaration has the structural shape.
proof fn lemma_parse_resource_sf(s: Seq<char>, i: int)
    requires
        0 <= i <= s.len(),
    ensures
        crate::grammar::parse_resource(s, i) matches Some(p) ==> sf_expr(p.0),
{
    if parse_type_segs(s, i) is Some {
        let segs = (parse_type_segs(s, i)->0).0;
        let j = (parse_type_segs(s, i)->0).1;
        crate::grammar::lemma_parse_type_segs(s, i);
        lemma_canon_wf(s, i, false);
        let j1 = crate::grammar::skip_ws(s, j);
        crate::grammar::lemma_skip_ws(s, j);
        if j1 < s.len() && s[j1] == '{' {
            let j2 = crate::grammar::skip_ws(s, j1 + 1);
            crate::grammar::lemma_skip_ws(s, j1 + 1);
            lemma_parse_quoted_sf(s, j2);
            crate::grammar::lemma_parse_quoted(s, j2);
            if crate::grammar::parse_quoted(s, j2) is Some {
                let j3 = (crate::grammar::parse_quoted(s, j2)->0).1;
                let j4 = crate::grammar::skip_ws(s, j3);
                crate::grammar::lemma_skip_ws(s, j3);
                if j4 < s.len() && s[j4] == ':' {
                    lemma_parse_attrs_sf(s, j4 + 1);
                }
            }
        }
    }
}

/// Every expression a parsed statement yields has the structural shape.
proof fn lemma_parse_expr_sf(s: Seq<char>, i: int)
    requires
        0 <= i <= s.len(),
    ensures
        crate::grammar::parse_expr(s, i) matches Some(p) ==> forall|k: int|
            0 <= k < p.0.len() ==> sf_expr(#[trigger] p.0[k]),
{
    lemma_parse_resource_sf(s, i);
    if crate::grammar::parse_resource(s, i) is Some {
        let e = (crate::grammar::parse_resource(s, i)->0).0;
        assert(seq![e][0] == e);
    } else {
        lemma_parse_ref_arg_sf(s, i);
        crate::grammar::lemma_parse_ref_arg(s, i);
        if crate::grammar::parse_ref_arg(s, i) is Some {
            let g0 = (crate::grammar::parse_ref_arg(s, i)->0).0;
            let j = (crate::grammar::parse_ref_arg(s, i)->0).1;
            lemma_parse_chain_rest_sf(s, j);
            if crate::grammar::parse_chain_rest(s, j) is Some {
                let rest = (crate::grammar::parse_chain_rest(s, j)->0).0;
                if rest.len() >= 1 {
                    lemma_chain_relations_sf(g0, rest);
                }
            }
        }
    }
}

/// Every expression of a parsed program has the structural shape.
proof fn lemma_parse_program_sf(s: Seq<char>, i: int)
    requires
        0 <= i <= s.len(),
    ensures
        crate::grammar::parse_program(s, i) matches Some(es) ==> forall|k: int|
            0 <= k < es.len() ==> sf_expr(#[trigger] es[k]),
    decreases s.len() - i,
{
    let j = crate::grammar::skip_ws(s, i);
    crate::grammar::lemma_skip_ws(s, i);
    if j < s.len() {
        lemma_parse_expr_sf(s, j);
        crate::grammar::lemma_parse_expr(s, j);
        if crate::grammar::parse_expr(s, j) is Some {
            let head = (crate::grammar::parse_expr(s, j)->0).0;
            let k2 = (crate::grammar::parse_expr(s, j)->0).1;
            lemma_parse_program_sf(s, k2);
            if crate::grammar::parse_program(s, k2) is Some {
                let rest = crate::grammar::parse_program(s, k2)->0;
                let es = head + rest;
                assert(forall|k: int| 0 <= k < head.len() ==> #[trigger] es[k] == head[k]);
                assert(forall|k: int|
                    head.len() <= k < es.len() ==> #[trigger] es[k] == rest[k - head.len()]);
            }
        }
    }
}

/// Round-trip display for parsed manifests: a manifest parsed from some text
/// renders to text that parses back to the very same expression sequence,
/// as long as its literal segments are nonempty and hold neither a quote nor
/// a `${` opener — conditions only a single-quoted source string can break,
/// since a double-quoted rendering cannot spell such a literal.
pub proof fn lemma_parsed_round_trip(s: Seq<char>, m: Seq<ExprV>)
    requires
        crate::grammar::spec_parse(s) == Some(m),
        lit_clean_manifest(m),
    ensures
        crate::grammar::spec_parse(crate::render::manifest_text(m)) == Some(m),
{
    lemma_parse_program_sf(s, 0);
    assert(crate::grammar::parse_program(s, 0) == Some(m));
    assert forall|k: int| 0 <= k < m.len() implies crate::roundtrip::wf_expr(
        #[trigger] m[k],
    ) by {
        assert((crate::grammar::parse_program(s, 0)->0)[k] == m[k]);
        assert(sf_expr(m[k]));
        assert(lit_clean_expr(m[k]));
        lemma_expr_wf(m[k]);
    }
    crate::roundtrip::lemma_round_trip_display(m);
}

} // verus!
