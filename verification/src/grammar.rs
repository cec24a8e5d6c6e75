//! The manifest grammar, as spec functions over character sequences.
//!
//! A program is any interleaving of resource declarations
//! `type { "title": name => "value", ... }` and relation chains
//! `ref-arg op ref-arg (op ref-arg)*`, where an op is one of `->`, `<-`, `~>`,
//! `<~` and a ref-arg is a reference `Type["title"]` or a bracketed list of
//! references. Each parse function takes a position and returns the parsed
//! value with the position just past it, or `None` where the text does not
//! match.

use crate::ast::{canon_join, AttrV, ExprV, RefV, RelationOp};
use crate::pstring::SegV;
use vstd::prelude::*;

verus! {

pub open spec fn is_ws(c: char) -> bool {
    c == ' ' || c == '\t' || c == '\r' || c == '\n'
}

pub open spec fn is_ident_start(c: char) -> bool {
    ('a' <= c && c <= 'z') || ('A' <= c && c <= 'Z') || c == '_'
}

pub open spec fn is_ident_char(c: char) -> bool {
    is_ident_start(c) || ('0' <= c && c <= '9')
}

pub open spec fn is_upper(c: char) -> bool {
    'A' <= c && c <= 'Z'
}

/// The first position at or after `i` holding no whitespace.
pub open spec fn skip_ws(s: Seq<char>, i: int) -> int
    decreases s.len() - i,
        when i <= s.len()
{
    if 0 <= i && i < s.len() && is_ws(s[i]) {
        skip_ws(s, i + 1)
    } else {
        i
    }
}

pub proof fn lemma_skip_ws(s: Seq<char>, i: int)
    requires
        0 <= i <= s.len(),
    ensures
        i <= skip_ws(s, i) <= s.len(),
        skip_ws(s, i) < s.len() ==> !is_ws(s[skip_ws(s, i)]),
    decreases s.len() - i,
{
    if i < s.len() && is_ws(s[i]) {
        lemma_skip_ws(s, i + 1);
    }
}

/// The first position at or after `i` holding no identifier character.
pub open spec fn ident_end(s: Seq<char>, i: int) -> int
    decreases s.len() - i,
        when i <= s.len()
{
    if 0 <= i && i < s.len() && is_ident_char(s[i]) {
        ident_end(s, i + 1)
    } else {
        i
    }
}

pub proof fn lemma_ident_end(s: Seq<char>, i: int)
    requires
        0 <= i <= s.len(),
    ensures
        i <= ident_end(s, i) <= s.len(),
    decreases s.len() - i,
{
    if i < s.len() && is_ident_char(s[i]) {
        lemma_ident_end(s, i + 1);
    }
}

/// The first position at or after `i` holding `c`, or the length.
pub open spec fn find_char(s: Seq<char>, i: int, c: char) -> int
    decreases s.len() - i,
        when i <= s.len()
{
    if 0 <= i && i < s.len() && s[i] != c {
        find_char(s, i + 1, c)
    } else {
        i
    }
}

pub proof fn lemma_find_char(s: Seq<char>, i: int, c: char)
    requires
        0 <= i <= s.len(),
    ensures
        i <= find_char(s, i, c) <= s.len(),
        find_char(s, i, c) < s.len() ==> s[find_char(s, i, c)] == c,
    decreases s.len() - i,
{
    if i < s.len() && s[i] != c {
        lemma_find_char(s, i + 1, c);
    }
}

/// A type name: identifier segments joined by `::`, no whitespace inside.
pub open spec fn parse_type_segs(s: Seq<char>, i: int) -> Option<(Seq<Seq<char>>, int)>
    decreases s.len() - i,
        when 0 <= i <= s.len()
        via parse_type_segs_dec
{
    if i < s.len() && is_ident_start(s[i]) {
        let j = ident_end(s, i);
        if j + 1 < s.len() && s[j] == ':' && s[j + 1] == ':' {
            match parse_type_segs(s, j + 2) {
                Some((rest, k)) => Some((seq![s.subrange(i, j)] + rest, k)),
                None => None,
            }
        } else {
            Some((seq![s.subrange(i, j)], j))
        }
    } else {
        None
    }
}

#[via_fn]
proof fn parse_type_segs_dec(s: Seq<char>, i: int) {
    if i < s.len() && is_ident_start(s[i]) {
        lemma_ident_end(s, i);
    }
}

pub proof fn lemma_parse_type_segs(s: Seq<char>, i: int)
    requires
        0 <= i <= s.len(),
    ensures
        parse_type_segs(s, i) matches Some(p) ==> i < p.1 <= s.len(),
    decreases s.len() - i,
{
    if i < s.len() && is_ident_start(s[i]) {
        lemma_ident_end(s, i);
        let j = ident_end(s, i);
        assert(ident_end(s, i) == ident_end(s, i + 1));
        lemma_ident_end(s, i + 1);
        if j + 1 < s.len() && s[j] == ':' && s[j + 1] == ':' {
            lemma_parse_type_segs(s, j + 2);
        }
    }
}

/// Whether a position starts either the closing quote or a `${` variable.
pub open spec fn dq_stop(s: Seq<char>, i: int) -> bool {
    s[i] == '"' || (s[i] == '$' && i + 1 < s.len() && s[i + 1] == '{')
}

/// The end of a literal run inside a double-quoted string.
pub open spec fn plain_end(s: Seq<char>, i: int) -> int
    decreases s.len() - i,
        when i <= s.len()
{
    if 0 <= i && i < s.len() && !dq_stop(s, i) {
        plain_end(s, i + 1)
    } else {
        i
    }
}

pub proof fn lemma_plain_end(s: Seq<char>, i: int)
    requires
        0 <= i <= s.len(),
    ensures
        i <= plain_end(s, i) <= s.len(),
        plain_end(s, i) < s.len() ==> dq_stop(s, plain_end(s, i)),
    decreases s.len() - i,
{
    if i < s.len() && !dq_stop(s, i) {
        lemma_plain_end(s, i + 1);
    }
}

/// The contents of a double-quoted string from just after the opening quote:
/// literal runs and `${identifier}` placeholders until the closing quote.
/// Literal runs are maximal, so no two adjacent segments are literals and no
/// literal segment is empty.
pub open spec fn parse_dq(s: Seq<char>, i: int) -> Option<(Seq<SegV>, int)>
    decreases s.len() - i,
        when 0 <= i <= s.len()
        via parse_dq_dec
{
    if i >= s.len() {
        None
    } else if s[i] == '"' {
        Some((Seq::empty(), i + 1))
    } else if s[i] == '$' && i + 1 < s.len() && s[i + 1] == '{' {
        if i + 2 < s.len() && is_ident_start(s[i + 2]) {
            let j = ident_end(s, i + 2);
            if j < s.len() && s[j] == '}' {
                match parse_dq(s, j + 1) {
                    Some((rest, k)) => Some((seq![SegV::Var(s.subrange(i + 2, j))] + rest, k)),
                    None => None,
                }
            } else {
                None
            }
        } else {
            None
        }
    } else {
        let j = plain_end(s, i);
        match parse_dq(s, j) {
            Some((rest, k)) => Some((seq![SegV::Lit(s.subrange(i, j))] + rest, k)),
            None => None,
        }
    }
}

#[via_fn]
proof fn parse_dq_dec(s: Seq<char>, i: int) {
    if 0 <= i && i < s.len() {
        if s[i] == '"' {
        } else if s[i] == '$' && i + 1 < s.len() && s[i + 1] == '{' {
            if i + 2 < s.len() && is_ident_start(s[i + 2]) {
                lemma_ident_end(s, i + 2);
            }
        } else {
            assert(!dq_stop(s, i));
            assert(plain_end(s, i) == plain_end(s, i + 1));
            lemma_plain_end(s, i + 1);
        }
    }
}

pub proof fn lemma_parse_dq(s: Seq<char>, i: int)
    requires
        0 <= i <= s.len(),
    ensures
        parse_dq(s, i) matches Some(p) ==> i < p.1 <= s.len(),
    decreases s.len() - i,
{
    if i >= s.len() {
    } else if s[i] == '"' {
    } else if s[i] == '$' && i + 1 < s.len() && s[i + 1] == '{' {
        if i + 2 < s.len() && is_ident_start(s[i + 2]) {
            lemma_ident_end(s, i + 2);
            let j = ident_end(s, i + 2);
            if j < s.len() && s[j] == '}' {
                lemma_parse_dq(s, j + 1);
            }
        }
    } else {
        assert(plain_end(s, i) == plain_end(s, i + 1));
        lemma_plain_end(s, i + 1);
        let j = plain_end(s, i);
        lemma_parse_dq(s, j);
    }
}

/// A quoted string: single-quoted text is one verbatim literal segment;
/// double-quoted text decomposes into literal runs and variable placeholders.
pub open spec fn parse_quoted(s: Seq<char>, i: int) -> Option<(Seq<SegV>, int)> {
    if 0 <= i && i < s.len() && s[i] == '\'' {
        let j = find_char(s, i + 1, '\'');
        if j < s.len() {
            Some((seq![SegV::Lit(s.subrange(i + 1, j))], j + 1))
        } else {
            None
        }
    } else if 0 <= i && i < s.len() && s[i] == '"' {
        parse_dq(s, i + 1)
    } else {
        None
    }
}

pub proof fn lemma_parse_quoted(s: Seq<char>, i: int)
    requires
        0 <= i <= s.len(),
    ensures
        parse_quoted(s, i) matches Some(p) ==> i < p.1 <= s.len(),
{
    if i < s.len() && s[i] == '\'' {
        lemma_find_char(s, i + 1, '\'');
    } else if i < s.len() && s[i] == '"' {
        lemma_parse_dq(s, i + 1);
    }
}

/// Every segment of a reference's type name must open upper-case.
pub open spec fn segs_ucfirst(segs: Seq<Seq<char>>) -> bool {
    forall|k: int| 0 <= k < segs.len() ==> segs[k].len() > 0 && is_upper(segs[k][0])
}

/// A resource reference `Type["title"]`, its type name canonicalized.
pub open spec fn parse_res_ref(s: Seq<char>, i: int) -> Option<(RefV, int)> {
    match parse_type_segs(s, i) {
        Some((segs, j)) => {
            if segs_ucfirst(segs) {
                let j1 = skip_ws(s, j);
                if j1 < s.len() && s[j1] == '[' {
                    let j2 = skip_ws(s, j1 + 1);
                    match parse_quoted(s, j2) {
                        Some((title, j3)) => {
                            let j4 = skip_ws(s, j3);
                            if j4 < s.len() && s[j4] == ']' {
                                Some((RefV { rtype: canon_join(segs), title }, j4 + 1))
                            } else {
                                None
                            }
                        },
                        None => None,
                    }
                } else {
                    None
                }
            } else {
                None
            }
        },
        None => None,
    }
}

pub proof fn lemma_parse_res_ref(s: Seq<char>, i: int)
    requires
        0 <= i <= s.len(),
    ensures
        parse_res_ref(s, i) matches Some(p) ==> i < p.1 <= s.len(),
{
    lemma_parse_type_segs(s, i);
    if parse_type_segs(s, i) is Some {
        let j = (parse_type_segs(s, i)->0).1;
        lemma_skip_ws(s, j);
        let j1 = skip_ws(s, j);
        if j1 < s.len() && s[j1] == '[' {
            lemma_skip_ws(s, j1 + 1);
            let j2 = skip_ws(s, j1 + 1);
            lemma_parse_quoted(s, j2);
            if parse_quoted(s, j2) is Some {
                lemma_skip_ws(s, (parse_quoted(s, j2)->0).1);
            }
        }
    }
}

/// The members of a reference list after the first: `, ref` repeated, then `]`.
pub open spec fn parse_ref_list_rest(s: Seq<char>, i: int) -> Option<(Seq<RefV>, int)>
    decreases s.len() - i,
        when 0 <= i <= s.len()
        via parse_ref_list_rest_dec
{
    let j = skip_ws(s, i);
    if j < s.len() && s[j] == ']' {
        Some((Seq::empty(), j + 1))
    } else if j < s.len() && s[j] == ',' {
        let j1 = skip_ws(s, j + 1);
        match parse_res_ref(s, j1) {
            Some((r, k)) => match parse_ref_list_rest(s, k) {
                Some((rest, k2)) => Some((seq![r] + rest, k2)),
                None => None,
            },
            None => None,
        }
    } else {
        None
    }
}

#[via_fn]
proof fn parse_ref_list_rest_dec(s: Seq<char>, i: int) {
    lemma_skip_ws(s, i);
    let j = skip_ws(s, i);
    if j < s.len() && s[j] == ',' {
        lemma_skip_ws(s, j + 1);
        lemma_parse_res_ref(s, skip_ws(s, j + 1));
    }
}

pub proof fn lemma_parse_ref_list_rest(s: Seq<char>, i: int)
    requires
        0 <= i <= s.len(),
    ensures
        parse_ref_list_rest(s, i) matches Some(p) ==> i < p.1 <= s.len(),
    decreases s.len() - i,
{
    lemma_skip_ws(s, i);
    let j = skip_ws(s, i);
    if j < s.len() && s[j] == ',' {
        lemma_skip_ws(s, j + 1);
        let j1 = skip_ws(s, j + 1);
        lemma_parse_res_ref(s, j1);
        if parse_res_ref(s, j1) is Some {
            lemma_parse_ref_list_rest(s, (parse_res_ref(s, j1)->0).1);
        }
    }
}

/// A ref-arg: one reference, or a bracketed, comma-separated reference list.
pub open spec fn parse_ref_arg(s: Seq<char>, i: int) -> Option<(Seq<RefV>, int)> {
    if 0 <= i && i < s.len() && s[i] == '[' {
        let j = skip_ws(s, i + 1);
        match parse_res_ref(s, j) {
            Some((r, k)) => match parse_ref_list_rest(s, k) {
                Some((rest, k2)) => Some((seq![r] + rest, k2)),
                None => None,
            },
            None => None,
        }
    } else {
        match parse_res_ref(s, i) {
            Some((r, k)) => Some((seq![r], k)),
            None => None,
        }
    }
}

pub proof fn lemma_parse_ref_arg(s: Seq<char>, i: int)
    requires
        0 <= i <= s.len(),
    ensures
        parse_ref_arg(s, i) matches Some(p) ==> i < p.1 <= s.len(),
        parse_ref_arg(s, i) matches Some(p) ==> p.0.len() >= 1,
{
    if i < s.len() && s[i] == '[' {
        lemma_skip_ws(s, i + 1);
        let j = skip_ws(s, i + 1);
        lemma_parse_res_ref(s, j);
        if parse_res_ref(s, j) is Some {
            lemma_parse_ref_list_rest(s, (parse_res_ref(s, j)->0).1);
        }
    } else {
        lemma_parse_res_ref(s, i);
    }
}

/// A relation operator: a two-character arrow.
pub open spec fn parse_op(s: Seq<char>, i: int) -> Option<(RelationOp, int)> {
    if 0 <= i && i + 2 <= s.len() {
        match RelationOp::spec_of_text(s.subrange(i, i + 2)) {
            Some(op) => Some((op, i + 2)),
            None => None,
        }
    } else {
        None
    }
}

/// The remainder of a relation chain: `(op ref-arg)*`. Ends, consuming
/// nothing, where no operator follows.
pub open spec fn parse_chain_rest(s: Seq<char>, i: int) -> Option<
    (Seq<(RelationOp, Seq<RefV>)>, int),
>
    decreases s.len() - i,
        when 0 <= i <= s.len()
        via parse_chain_rest_dec
{
    let j = skip_ws(s, i);
    match parse_op(s, j) {
        Some((op, j2)) => {
            let j3 = skip_ws(s, j2);
            match parse_ref_arg(s, j3) {
                Some((g, k)) => match parse_chain_rest(s, k) {
                    Some((rest, k2)) => Some((seq![(op, g)] + rest, k2)),
                    None => None,
                },
                None => None,
            }
        },
        None => Some((Seq::empty(), i)),
    }
}

#[via_fn]
proof fn parse_chain_rest_dec(s: Seq<char>, i: int) {
    lemma_skip_ws(s, i);
    let j = skip_ws(s, i);
    if parse_op(s, j) is Some {
        let j2 = (parse_op(s, j)->0).1;
        lemma_skip_ws(s, j2);
        lemma_parse_ref_arg(s, skip_ws(s, j2));
    }
}

pub proof fn lemma_parse_chain_rest(s: Seq<char>, i: int)
    requires
        0 <= i <= s.len(),
    ensures
        parse_chain_rest(s, i) matches Some(p) ==> i <= p.1 <= s.len(),
    decreases s.len() - i,
{
    lemma_skip_ws(s, i);
    let j = skip_ws(s, i);
    if parse_op(s, j) is Some {
        let j2 = (parse_op(s, j)->0).1;
        lemma_skip_ws(s, j2);
        let j3 = skip_ws(s, j2);
        lemma_parse_ref_arg(s, j3);
        if parse_ref_arg(s, j3) is Some {
            lemma_parse_chain_rest(s, (parse_ref_arg(s, j3)->0).1);
        }
    }
}

/// One relation statement per adjacent pair of groups, each keeping its own
/// operator: a chain is never merged into one transitive statement.
pub open spec fn chain_relations(g0: Seq<RefV>, rest: Seq<(RelationOp, Seq<RefV>)>) -> Seq<ExprV>
    decreases rest.len(),
{
    if rest.len() == 0 {
        Seq::empty()
    } else {
        seq![ExprV::Rel { from: g0, to: rest[0].1, op: rest[0].0 }] + chain_relations(
            rest[0].1,
            rest.drop_first(),
        )
    }
}

/// Chain decomposition: a chain of `k` groups joined by `k - 1` operators
/// yields exactly `k - 1` relation statements, the one at position `t`
/// pairing group `t` with group `t + 1` under the operator between them —
/// never one merged transitive statement.
pub proof fn lemma_chain_decomposition(g0: Seq<RefV>, rest: Seq<(RelationOp, Seq<RefV>)>)
    ensures
        chain_relations(g0, rest).len() == rest.len(),
        forall|t: int|
            0 <= t < rest.len() ==> #[trigger] chain_relations(g0, rest)[t] == (ExprV::Rel {
                from: if t == 0 {
                    g0
                } else {
                    rest[t - 1].1
                },
                to: rest[t].1,
                op: rest[t].0,
            }),
    decreases rest.len(),
{
    if rest.len() > 0 {
        lemma_chain_decomposition(rest[0].1, rest.drop_first());
        let c = chain_relations(g0, rest);
        let cr = chain_relations(rest[0].1, rest.drop_first());
        assert forall|t: int| 0 <= t < rest.len() implies #[trigger] c[t] == (ExprV::Rel {
            from: if t == 0 {
                g0
            } else {
                rest[t - 1].1
            },
            to: rest[t].1,
            op: rest[t].0,
        }) by {
            if t > 0 {
                assert(c[t] == cr[t - 1]);
                assert(rest.drop_first()[t - 1] == rest[t]);
                if t == 1 {
                    assert(cr[0] == ExprV::Rel {
                        from: rest[0].1,
                        to: rest.drop_first()[0].1,
                        op: rest.drop_first()[0].0,
                    });
                } else {
                    assert(rest.drop_first()[t - 2] == rest[t - 1]);
                }
            }
        }
    }
}

/// A relation chain: at least two ref-args joined by operators.
pub open spec fn parse_relation(s: Seq<char>, i: int) -> Option<(Seq<ExprV>, int)> {
    match parse_ref_arg(s, i) {
        Some((g0, j)) => match parse_chain_rest(s, j) {
            Some((rest, k)) => if rest.len() >= 1 {
                Some((chain_relations(g0, rest), k))
            } else {
                None
            },
            None => None,
        },
        None => None,
    }
}

pub proof fn lemma_parse_relation(s: Seq<char>, i: int)
    requires
        0 <= i <= s.len(),
    ensures
        parse_relation(s, i) matches Some(p) ==> i < p.1 <= s.len(),
{
    lemma_parse_ref_arg(s, i);
    if parse_ref_arg(s, i) is Some {
        lemma_parse_chain_rest(s, (parse_ref_arg(s, i)->0).1);
    }
}

/// One attribute: `name => "value"`.
pub open spec fn parse_attr(s: Seq<char>, i: int) -> Option<(AttrV, int)> {
    if 0 <= i && i < s.len() && is_ident_start(s[i]) {
        let j = ident_end(s, i);
        let j1 = skip_ws(s, j);
        if j1 + 1 < s.len() && s[j1] == '=' && s[j1 + 1] == '>' {
            let j2 = skip_ws(s, j1 + 2);
            match parse_quoted(s, j2) {
                Some((v, k)) => Some((AttrV { name: s.subrange(i, j), value: v }, k)),
                None => None,
            }
        } else {
            None
        }
    } else {
        None
    }
}

pub proof fn lemma_parse_attr(s: Seq<char>, i: int)
    requires
        0 <= i <= s.len(),
    ensures
        parse_attr(s, i) matches Some(p) ==> i < p.1 <= s.len(),
{
    if i < s.len() && is_ident_start(s[i]) {
        lemma_ident_end(s, i);
        let j = ident_end(s, i);
        lemma_skip_ws(s, j);
        let j1 = skip_ws(s, j);
        if j1 + 1 < s.len() && s[j1] == '=' && s[j1 + 1] == '>' {
            lemma_skip_ws(s, j1 + 2);
            lemma_parse_quoted(s, skip_ws(s, j1 + 2));
        }
    }
}

/// The attribute block after the title's `:`, up to and including the closing
/// brace. Attributes are comma-separated; a trailing comma is allowed.
pub open spec fn parse_attrs(s: Seq<char>, i: int) -> Option<(Seq<AttrV>, int)>
    decreases s.len() - i,
        when 0 <= i <= s.len()
        via parse_attrs_dec
{
    let j = skip_ws(s, i);
    if j < s.len() && s[j] == '}' {
        Some((Seq::empty(), j + 1))
    } else {
        match parse_attr(s, j) {
            Some((a, k)) => {
                let k1 = skip_ws(s, k);
                if k1 < s.len() && s[k1] == ',' {
                    match parse_attrs(s, k1 + 1) {
                        Some((rest, k2)) => Some((seq![a] + rest, k2)),
                        None => None,
                    }
                } else if k1 < s.len() && s[k1] == '}' {
                    Some((seq![a], k1 + 1))
                } else {
                    None
                }
            },
            None => None,
        }
    }
}

#[via_fn]
proof fn parse_attrs_dec(s: Seq<char>, i: int) {
    lemma_skip_ws(s, i);
    let j = skip_ws(s, i);
    lemma_parse_attr(s, j);
    if parse_attr(s, j) is Some {
        lemma_skip_ws(s, (parse_attr(s, j)->0).1);
    }
}

pub proof fn lemma_parse_attrs(s: Seq<char>, i: int)
    requires
        0 <= i <= s.len(),
    ensures
        parse_attrs(s, i) matches Some(p) ==> i < p.1 <= s.len(),
    decreases s.len() - i,
{
    lemma_skip_ws(s, i);
    let j = skip_ws(s, i);
    lemma_parse_attr(s, j);
    if parse_attr(s, j) is Some {
        let k = (parse_attr(s, j)->0).1;
        lemma_skip_ws(s, k);
        let k1 = skip_ws(s, k);
        if k1 < s.len() && s[k1] == ',' {
            lemma_parse_attrs(s, k1 + 1);
        }
    }
}

/// A resource declaration `type { "title": attributes }`, its type name
/// canonicalized.
pub open spec fn parse_resource(s: Seq<char>, i: int) -> Option<(ExprV, int)> {
    match parse_type_segs(s, i) {
        Some((segs, j)) => {
            let j1 = skip_ws(s, j);
            if j1 < s.len() && s[j1] == '{' {
                let j2 = skip_ws(s, j1 + 1);
                match parse_quoted(s, j2) {
                    Some((title, j3)) => {
                        let j4 = skip_ws(s, j3);
                        if j4 < s.len() && s[j4] == ':' {
                            match parse_attrs(s, j4 + 1) {
                                Some((attrs, k)) => Some(
                                    (ExprV::Res { rtype: canon_join(segs), title, attrs }, k),
                                ),
                                None => None,
                            }
                        } else {
                            None
                        }
                    },
                    None => None,
                }
            } else {
                None
            }
        },
        None => None,
    }
}

pub proof fn lemma_parse_resource(s: Seq<char>, i: int)
    requires
        0 <= i <= s.len(),
    ensures
        parse_resource(s, i) matches Some(p) ==> i < p.1 <= s.len(),
{
    lemma_parse_type_segs(s, i);
    if parse_type_segs(s, i) is Some {
        let j = (parse_type_segs(s, i)->0).1;
        lemma_skip_ws(s, j);
        let j1 = skip_ws(s, j);
        if j1 < s.len() && s[j1] == '{' {
            lemma_skip_ws(s, j1 + 1);
            let j2 = skip_ws(s, j1 + 1);
            lemma_parse_quoted(s, j2);
            if parse_quoted(s, j2) is Some {
                let j3 = (parse_quoted(s, j2)->0).1;
                lemma_skip_ws(s, j3);
                let j4 = skip_ws(s, j3);
                if j4 < s.len() && s[j4] == ':' {
                    lemma_parse_attrs(s, j4 + 1);
                }
            }
        }
    }
}

/// One top-level expression: a resource declaration, else a relation chain.
pub open spec fn parse_expr(s: Seq<char>, i: int) -> Option<(Seq<ExprV>, int)> {
    match parse_resource(s, i) {
        Some((e, k)) => Some((seq![e], k)),
        None => parse_relation(s, i),
    }
}

pub proof fn lemma_parse_expr(s: Seq<char>, i: int)
    requires
        0 <= i <= s.len(),
    ensures
        parse_expr(s, i) matches Some(p) ==> i < p.1 <= s.len(),
{
    lemma_parse_resource(s, i);
    lemma_parse_relation(s, i);
}

/// A whole program from position `i`: whitespace-separated expressions until
/// the end of the text.
pub open spec fn parse_program(s: Seq<char>, i: int) -> Option<Seq<ExprV>>
    decreases s.len() - i,
        when 0 <= i <= s.len()
        via parse_program_dec
{
    let j = skip_ws(s, i);
    if j >= s.len() {
        Some(Seq::empty())
    } else {
        match parse_expr(s, j) {
            Some((es, k)) => match parse_program(s, k) {
                Some(rest) => Some(es + rest),
                None => None,
            },
            None => None,
        }
    }
}

#[via_fn]
proof fn parse_program_dec(s: Seq<char>, i: int) {
    lemma_skip_ws(s, i);
    lemma_parse_expr(s, skip_ws(s, i));
}

/// The syntax of a whole manifest text.
pub open spec fn spec_parse(s: Seq<char>) -> Option<Seq<ExprV>> {
    parse_program(s, 0)
}

} // verus!
