//! Round-trip of rendering: re-parsing the rendered text of a well-formed
//! manifest yields the same expressions. Well-formed means what parsing
//! itself produces — canonical type names, identifier variable names,
//! maximal nonempty literal runs — narrowed by the characters a literal
//! segment must avoid for its double-quoted rendering to read back the same
//! way: a quote would end the string early, and a `${` would read back as a
//! variable. Only single-quoted source text can put those into a literal.

use crate::ast::{AttrV, ExprV, RefV, RelationOp};
use crate::grammar::{
    dq_stop, ident_end, is_ident_char, is_ident_start, is_upper, is_ws, parse_dq, plain_end,
    skip_ws,
};
use crate::pstring::{seg_text, segs_text, SegV};
use vstd::prelude::*;

verus! {

/// An identifier: nonempty, identifier characters, no leading digit.
pub open spec fn wf_ident(w: Seq<char>) -> bool {
    &&& w.len() >= 1
    &&& is_ident_start(w[0])
    &&& forall|k: int| 0 <= k < w.len() ==> is_ident_char(#[trigger] w[k])
}

/// A segment sequence whose double-quoted rendering reads back unchanged:
/// every variable name an identifier; every literal nonempty, free of `"`
/// and of `${`, and followed by a variable if anything.
pub open spec fn wf_segs(ss: Seq<SegV>) -> bool {
    forall|k: int|
        0 <= k < ss.len() ==> match #[trigger] ss[k] {
            SegV::Lit(t) => {
                &&& t.len() >= 1
                &&& (forall|m: int| 0 <= m < t.len() ==> #[trigger] t[m] != '"')
                &&& (forall|m: int|
                    0 <= m < t.len() - 1 ==> !(#[trigger] t[m] == '$' && t[m + 1] == '{'))
                &&& (k + 1 < ss.len() ==> ss[k + 1] is Var)
            },
            SegV::Var(v) => wf_ident(v),
        }
}

/// Skipping whitespace stays put on anything else.
pub proof fn lemma_skip_ws_none(s: Seq<char>, i: int)
    requires
        0 <= i <= s.len(),
        i < s.len() ==> !is_ws(s[i]),
    ensures
        skip_ws(s, i) == i,
{
}

/// Skipping whitespace crosses one newline onto anything else.
pub proof fn lemma_skip_ws_one(s: Seq<char>, i: int)
    requires
        0 <= i < s.len(),
        is_ws(s[i]),
        i + 1 < s.len() ==> !is_ws(s[i + 1]),
    ensures
        skip_ws(s, i) == i + 1,
{
    lemma_skip_ws_none(s, i + 1);
}

/// An identifier laid out in the text scans to its end.
pub proof fn lemma_ident_end_at(s: Seq<char>, i: int, e: int)
    requires
        0 <= i <= e <= s.len(),
        forall|k: int| i <= k < e ==> is_ident_char(#[trigger] s[k]),
        e < s.len() ==> !is_ident_char(s[e]),
    ensures
        ident_end(s, i) == e,
    decreases e - i,
{
    if i < e {
        lemma_ident_end_at(s, i + 1, e);
    }
}

/// A literal run laid out in the text scans to its end.
pub proof fn lemma_plain_end_at(s: Seq<char>, i: int, e: int)
    requires
        0 <= i <= e <= s.len(),
        forall|k: int| i <= k < e ==> !(#[trigger] dq_stop(s, k)),
        e < s.len() ==> dq_stop(s, e),
    ensures
        plain_end(s, i) == e,
    decreases e - i,
{
    if i < e {
        assert(!dq_stop(s, i));
        lemma_plain_end_at(s, i + 1, e);
    }
}

/// The contents of a double-quoted rendering parse back to the very segments
/// rendered, ending just past the closing quote.
pub proof fn lemma_parse_dq_render(s: Seq<char>, i: int, ss: Seq<SegV>)
    requires
        wf_segs(ss),
        0 <= i,
        i + segs_text(ss).len() + 1 <= s.len(),
        s.subrange(i, i + segs_text(ss).len() as int) == segs_text(ss),
        s[i + segs_text(ss).len() as int] == '"',
    ensures
        parse_dq(s, i) == Some((ss, i + segs_text(ss).len() + 1)),
    decreases ss.len(),
{
    let txt = segs_text(ss);
    let n = txt.len() as int;
    assert forall|k: int| 0 <= k < n implies s[i + k] == txt[k] by {
        assert(s.subrange(i, i + n)[k] == s[i + k]);
    }
    if ss.len() == 0 {
        assert(n == 0);
        assert(s[i] == '"');
        assert(ss =~= Seq::<SegV>::empty());
        assert(parse_dq(s, i) == Some((Seq::<SegV>::empty(), i + 1)));
    } else {
        let head = ss[0];
        let rest = ss.drop_first();
        let ht = seg_text(head);
        let rt = segs_text(rest);
        assert(txt == ht + rt);
        assert(forall|k: int| 0 <= k < ht.len() ==> txt[k] == #[trigger] ht[k]);
        assert forall|k: int| 0 <= k < rt.len() implies txt[ht.len() + k] == #[trigger] rt[k] by {
            assert((ht + rt)[ht.len() + k] == rt[k]);
        }
        let j = i + ht.len() as int;
        assert(wf_segs(rest)) by {
            assert(forall|k: int| 0 <= k < rest.len() ==> #[trigger] rest[k] == ss[k + 1]);
        }
        assert(s.subrange(j, j + rt.len() as int) =~= rt);
        assert(s[j + rt.len() as int] == '"');
        lemma_parse_dq_render(s, j, rest);
        match head {
            SegV::Var(v) => {
                let w = seq!['$', '{'] + v + seq!['}'];
                assert(ht =~= w);
                assert(ht.len() == v.len() + 3);
                assert(ht[0] == '$' && ht[1] == '{');
                assert(txt[0] == ht[0] && txt[1] == ht[1]);
                assert(s[i] == '$' && s[i + 1] == '{');
                assert forall|k: int| 0 <= k < v.len() implies s[i + 2 + k] == #[trigger] v[k] by {
                    assert(ht[2 + k] == w[2 + k]);
                    assert(w[2 + k] == v[k]);
                    assert(txt[2 + k] == ht[2 + k]);
                }
                assert(ht[2 + v.len() as int] == w[2 + v.len() as int] == '}');
                assert(txt[2 + v.len() as int] == ht[2 + v.len() as int]);
                assert(s[i + 2 + v.len() as int] == '}');
                assert(s[i + 2] == v[0]);
                assert(is_ident_start(s[i + 2]));
                assert forall|k: int| i + 2 <= k < i + 2 + v.len() implies is_ident_char(
                    #[trigger] s[k],
                ) by {
                    assert(s[k] == v[k - i - 2]);
                    assert(is_ident_char(v[k - i - 2]));
                }
                assert(!is_ident_char('}')) by {
                    assert(!is_ident_start('}'));
                }
                lemma_ident_end_at(s, i + 2, i + 2 + v.len() as int);
                assert(s.subrange(i + 2, i + 2 + v.len() as int) =~= v);
                assert(seq![SegV::Var(v)] + rest =~= ss);
                assert(parse_dq(s, i) == Some((ss, i + n + 1)));
            },
            SegV::Lit(t) => {
                assert(ht == t);
                assert(s[i] == t[0]);
                assert(t[0] != '"');
                assert forall|k: int| i <= k < j implies !(#[trigger] dq_stop(s, k)) by {
                    assert(s[k] == t[k - i]);
                    assert(s[k] != '"');
                    if s[k] == '$' {
                        if k + 1 < j {
                            assert(s[k + 1] == t[k - i + 1]);
                            assert(!(t[k - i] == '$' && t[k - i + 1] == '{'));
                        } else {
                            // the character after the literal starts a
                            // variable or is the closing quote
                            if rest.len() == 0 {
                                assert(s[j] == '"');
                            } else {
                                assert(rest[0] is Var);
                                assert(rt == seg_text(rest[0]) + segs_text(rest.drop_first()));
                                assert(rt[0] == '$');
                                assert(s[j] == '$');
                            }
                            assert(s[k + 1] != '{');
                        }
                    }
                }
                assert(dq_stop(s, j)) by {
                    if rest.len() == 0 {
                        assert(s[j] == '"');
                    } else {
                        assert(rest[0] is Var);
                        let v0 = rest[0]->Var_0;
                        assert(seg_text(rest[0]) =~= seq!['$', '{'] + v0 + seq!['}']);
                        assert(rt == seg_text(rest[0]) + segs_text(rest.drop_first()));
                        assert(rt[0] == '$' && rt[1] == '{');
                        assert(s[j] == '$' && s[j + 1] == '{');
                    }
                }
                lemma_plain_end_at(s, i, j);
                assert(s.subrange(i, j) =~= t);
                assert(!(s[i] == '$' && s[i + 1] == '{')) by {
                    if s[i] == '$' {
                        assert(!dq_stop(s, i));
                    }
                }
                assert(seq![SegV::Lit(t)] + rest =~= ss);
                assert(parse_dq(s, i) == Some((ss, i + n + 1)));
            },
        }
    }
}

/// Identifier segments joined by `::`, with no case change.
pub open spec fn join_sep(segs: Seq<Seq<char>>) -> Seq<char>
    decreases segs.len(),
{
    if segs.len() == 0 {
        Seq::empty()
    } else if segs.len() == 1 {
        segs[0]
    } else {
        segs[0] + seq![':', ':'] + join_sep(segs.drop_first())
    }
}

/// `segs` spells out `t`: nonempty identifier segments, each with a leading
/// character that canonicalization leaves alone (upper-case where references
/// require it), joined by `::`.
pub open spec fn is_type_layout(t: Seq<char>, segs: Seq<Seq<char>>, upper: bool) -> bool {
    &&& segs.len() >= 1
    &&& (forall|k: int|
        0 <= k < segs.len() ==> wf_ident(#[trigger] segs[k]) && crate::ast::uc(segs[k][0])
            == segs[k][0] && (upper ==> is_upper(segs[k][0])))
    &&& t == join_sep(segs)
}

/// A canonical type-name text: some segment layout spells it out.
pub open spec fn wf_type_text(t: Seq<char>, upper: bool) -> bool {
    exists|segs: Seq<Seq<char>>| #[trigger] is_type_layout(t, segs, upper)
}

/// Canonicalization leaves an already-canonical layout alone.
proof fn lemma_canon_join_fixed(segs: Seq<Seq<char>>)
    requires
        forall|k: int|
            0 <= k < segs.len() ==> (#[trigger] segs[k]).len() >= 1 && crate::ast::uc(segs[k][0])
                == segs[k][0],
    ensures
        crate::ast::canon_join(segs) == join_sep(segs),
    decreases segs.len(),
{
    if segs.len() > 0 {
        assert(crate::ast::uc_first(segs[0]) =~= segs[0]);
        if segs.len() > 1 {
            assert(forall|k: int|
                0 <= k < segs.drop_first().len() ==> #[trigger] segs.drop_first()[k] == segs[k
                    + 1]);
            lemma_canon_join_fixed(segs.drop_first());
        }
    }
}

/// A type-name layout laid out in the text parses back to its segments.
proof fn lemma_type_segs_render(s: Seq<char>, i: int, segs: Seq<Seq<char>>, t: Seq<char>)
    requires
        is_type_layout(t, segs, false) || is_type_layout(t, segs, true),
        0 <= i,
        i + t.len() <= s.len(),
        s.subrange(i, i + t.len() as int) == t,
        i + t.len() < s.len() ==> !is_ident_char(s[i + t.len() as int]) && s[i + t.len() as int]
            != ':',
    ensures
        crate::grammar::parse_type_segs(s, i) == Some((segs, i + t.len())),
    decreases segs.len(),
{
    let n = t.len() as int;
    assert forall|k: int| 0 <= k < n implies s[i + k] == t[k] by {
        assert(s.subrange(i, i + n)[k] == s[i + k]);
    }
    let w = segs[0];
    assert(wf_ident(w));
    if segs.len() == 1 {
        assert(t == w);
        assert(is_ident_start(s[i]));
        assert forall|k: int| i <= k < i + n implies is_ident_char(#[trigger] s[k]) by {
            assert(s[k] == t[k - i]);
        }
        lemma_ident_end_at(s, i, i + n);
        assert(s.subrange(i, i + n) =~= w);
        let j = i + n;
        assert(!(j + 1 < s.len() && s[j] == ':' && s[j + 1] == ':')) by {
            if j < s.len() {
                assert(s[j] != ':');
            }
        }
        assert(seq![w] =~= segs);
    } else {
        let rest = segs.drop_first();
        let rt = join_sep(rest);
        assert(t == w + seq![':', ':'] + rt);
        assert(forall|k: int| 0 <= k < w.len() ==> t[k] == #[trigger] w[k]);
        let j = i + w.len() as int;
        assert(t[w.len() as int] == ':' && t[w.len() as int + 1] == ':');
        assert(s[j] == ':' && s[j + 1] == ':');
        assert(is_ident_start(s[i]));
        assert forall|k: int| i <= k < j implies is_ident_char(#[trigger] s[k]) by {
            assert(s[k] == t[k - i]);
            assert(t[k - i] == w[k - i]);
        }
        assert(!is_ident_char(':')) by {
            assert(!is_ident_start(':'));
        }
        lemma_ident_end_at(s, i, j);
        assert(s.subrange(i, j) =~= w);
        assert forall|k: int| 0 <= k < rt.len() implies s[j + 2 + k] == #[trigger] rt[k] by {
            assert(t[w.len() as int + 2 + k] == ((w + seq![':', ':']) + rt)[w.len() as int + 2 + k]);
            assert(((w + seq![':', ':']) + rt)[w.len() as int + 2 + k] == rt[k]);
        }
        assert(s.subrange(j + 2, j + 2 + rt.len() as int) =~= rt);
        assert(forall|k: int| 0 <= k < rest.len() ==> #[trigger] rest[k] == segs[k + 1]);
        assert(is_type_layout(rt, rest, false));
        lemma_type_segs_render(s, j + 2, rest, rt);
        assert(j + 1 < s.len());
        assert(seq![w] + rest =~= segs);
        assert(j + 2 + rt.len() == i + n);
    }
}

/// A double-quoted rendering parses back to its segments.
proof fn lemma_parse_quoted_render(s: Seq<char>, i: int, ss: Seq<SegV>)
    requires
        wf_segs(ss),
        0 <= i,
        i + crate::render::quote_text(ss).len() <= s.len(),
        s.subrange(i, i + crate::render::quote_text(ss).len() as int) == crate::render::quote_text(
            ss,
        ),
    ensures
        crate::grammar::parse_quoted(s, i) == Some(
            (ss, i + crate::render::quote_text(ss).len()),
        ),
{
    let qt = crate::render::quote_text(ss);
    let n = qt.len() as int;
    assert forall|k: int| 0 <= k < n implies s[i + k] == qt[k] by {
        assert(s.subrange(i, i + n)[k] == s[i + k]);
    }
    let inner = segs_text(ss);
    assert(qt == seq!['"'] + inner + seq!['"']);
    assert(qt[0] == '"');
    assert(s[i] == '"');
    assert(s[i] != '\'');
    assert forall|k: int| 0 <= k < inner.len() implies s[i + 1 + k] == #[trigger] inner[k] by {
        assert(qt[1 + k] == ((seq!['"'] + inner) + seq!['"'])[1 + k]);
        assert(((seq!['"'] + inner) + seq!['"'])[1 + k] == inner[k]);
    }
    assert(qt[1 + inner.len() as int] == '"');
    assert(s[i + 1 + inner.len() as int] == '"');
    assert(s.subrange(i + 1, i + 1 + inner.len() as int) =~= inner);
    lemma_parse_dq_render(s, i + 1, ss);
}

/// A reference rendering parses back to the reference.
pub open spec fn wf_ref(r: RefV) -> bool {
    &&& wf_type_text(r.rtype, true)
    &&& wf_segs(r.title)
}

proof fn lemma_res_ref_render(s: Seq<char>, i: int, r: RefV)
    requires
        wf_ref(r),
        0 <= i,
        i + crate::render::ref_text(r).len() <= s.len(),
        s.subrange(i, i + crate::render::ref_text(r).len() as int) == crate::render::ref_text(r),
    ensures
        crate::grammar::parse_res_ref(s, i) == Some((r, i + crate::render::ref_text(r).len())),
{
    let rt = crate::render::ref_text(r);
    let n = rt.len() as int;
    assert forall|k: int| 0 <= k < n implies s[i + k] == rt[k] by {
        assert(s.subrange(i, i + n)[k] == s[i + k]);
    }
    let qt = crate::render::quote_text(r.title);
    assert(rt == r.rtype + seq!['['] + qt + seq![']']);
    let segs = choose|segs: Seq<Seq<char>>| is_type_layout(r.rtype, segs, true);
    let tl = r.rtype.len() as int;
    assert forall|k: int| 0 <= k < tl implies s[i + k] == #[trigger] r.rtype[k] by {
        assert(rt[k] == (((r.rtype + seq!['[']) + qt) + seq![']'])[k]);
    }
    assert(s.subrange(i, i + tl) =~= r.rtype);
    assert(rt[tl] == (((r.rtype + seq!['[']) + qt) + seq![']'])[tl] == '[');
    assert(s[i + tl] == '[');
    assert(!is_ident_char('[') && '[' != ':') by {
        assert(!is_ident_start('['));
    }
    lemma_type_segs_render(s, i, segs, r.rtype);
    assert(crate::grammar::segs_ucfirst(segs));
    lemma_skip_ws_none(s, i + tl);
    assert forall|k: int| 0 <= k < qt.len() implies s[i + tl + 1 + k] == #[trigger] qt[k] by {
        assert(rt[tl + 1 + k] == (((r.rtype + seq!['[']) + qt) + seq![']'])[tl + 1 + k]);
    }
    assert(qt[0] == '"');
    assert(s[i + tl + 1] == '"');
    assert(!is_ws('"'));
    lemma_skip_ws_none(s, i + tl + 1);
    assert(s.subrange(i + tl + 1, i + tl + 1 + qt.len() as int) =~= qt);
    lemma_parse_quoted_render(s, i + tl + 1, r.title);
    let j3 = i + tl + 1 + qt.len() as int;
    assert(rt[n - 1] == (((r.rtype + seq!['[']) + qt) + seq![']'])[n - 1] == ']');
    assert(j3 == n - 1 + i);
    assert(s[j3] == ']');
    assert(!is_ws(']'));
    lemma_skip_ws_none(s, j3);
    lemma_canon_join_fixed(segs);
    assert(crate::ast::canon_join(segs) == r.rtype);
    assert(RefV { rtype: crate::ast::canon_join(segs), title: r.title } == r);
}

/// The list tail after a first reference: `, ref` repeated, then `]`.
pub open spec fn rest_text(rs: Seq<RefV>) -> Seq<char>
    decreases rs.len(),
{
    if rs.len() == 0 {
        seq![']']
    } else {
        ", "@ + crate::render::ref_text(rs[0]) + rest_text(rs.drop_first())
    }
}

/// A bracketed reference list.
pub open spec fn arg_text(rs: Seq<RefV>) -> Seq<char> {
    seq!['['] + crate::render::refs_text(rs) + seq![']']
}

/// A nonempty comma-joined list splits as its first reference and the tail.
proof fn lemma_refs_split(rs: Seq<RefV>)
    requires
        rs.len() >= 1,
    ensures
        crate::render::refs_text(rs) + seq![']'] == crate::render::ref_text(rs[0]) + rest_text(
            rs.drop_first(),
        ),
    decreases rs.len(),
{
    if rs.len() == 1 {
        assert(rs.drop_first().len() == 0);
        assert(crate::render::refs_text(rs) + seq![']'] =~= crate::render::ref_text(rs[0])
            + rest_text(rs.drop_first()));
    } else {
        lemma_refs_split(rs.drop_first());
        assert(rs.drop_first()[0] == rs[1]);
        assert(crate::render::refs_text(rs) == crate::render::ref_text(rs[0]) + ", "@
            + crate::render::refs_text(rs.drop_first()));
        assert(crate::render::refs_text(rs) + seq![']'] =~= crate::render::ref_text(rs[0]) + (
        ", "@ + (crate::render::refs_text(rs.drop_first()) + seq![']'])));
        assert(rest_text(rs.drop_first()) == ", "@ + crate::render::ref_text(rs.drop_first()[0])
            + rest_text(rs.drop_first().drop_first()));
        assert(", "@ + (crate::render::refs_text(rs.drop_first()) + seq![']']) =~= rest_text(
            rs.drop_first(),
        ));
    }
}

/// A rendered list tail parses back to its references.
proof fn lemma_ref_list_rest_render(s: Seq<char>, i: int, rs: Seq<RefV>)
    requires
        forall|k: int| 0 <= k < rs.len() ==> wf_ref(#[trigger] rs[k]),
        0 <= i,
        i + rest_text(rs).len() <= s.len(),
        s.subrange(i, i + rest_text(rs).len() as int) == rest_text(rs),
    ensures
        crate::grammar::parse_ref_list_rest(s, i) == Some((rs, i + rest_text(rs).len())),
    decreases rs.len(),
{
    let txt = rest_text(rs);
    let n = txt.len() as int;
    assert forall|k: int| 0 <= k < n implies s[i + k] == txt[k] by {
        assert(s.subrange(i, i + n)[k] == s[i + k]);
    }
    if rs.len() == 0 {
        assert(txt[0] == ']');
        assert(s[i + 0] == txt[0]);
        assert(s[i] == ']');
        assert(!is_ws(']'));
        lemma_skip_ws_none(s, i);
        assert(rs =~= Seq::<RefV>::empty());
    } else {
        let rt = crate::render::ref_text(rs[0]);
        let rest = rs.drop_first();
        assert(txt == ", "@ + rt + rest_text(rest));
        assert(", "@.len() == 2) by {
            reveal_strlit(", ");
        }
        assert(txt[0] == ',' && txt[1] == ' ') by {
            reveal_strlit(", ");
            assert(", "@[0] == ',' && ", "@[1] == ' ');
            assert(txt[0] == ((", "@ + rt) + rest_text(rest))[0]);
            assert(txt[1] == ((", "@ + rt) + rest_text(rest))[1]);
        }
        assert(s[i] == ',' && s[i + 1] == ' ');
        assert(!is_ws(','));
        lemma_skip_ws_none(s, i);
        assert forall|k: int| 0 <= k < rt.len() implies s[i + 2 + k] == #[trigger] rt[k] by {
            assert(txt[2 + k] == ((", "@ + rt) + rest_text(rest))[2 + k]);
        }
        assert(wf_ref(rs[0]));
        assert(rt.len() >= 1) by {
            let segs = choose|segs: Seq<Seq<char>>| is_type_layout(rs[0].rtype, segs, true);
            assert(rt == rs[0].rtype + seq!['['] + crate::render::quote_text(rs[0].title) + seq![
                ']',
            ]);
        }
        assert(rt[0] == rs[0].rtype[0]) by {
            assert(rt == rs[0].rtype + seq!['['] + crate::render::quote_text(rs[0].title) + seq![
                ']',
            ]);
            let segs = choose|segs: Seq<Seq<char>>| is_type_layout(rs[0].rtype, segs, true);
            assert(rs[0].rtype == join_sep(segs));
            assert(join_sep(segs).len() >= segs[0].len() >= 1) by {
                if segs.len() > 1 {
                    assert(join_sep(segs) == segs[0] + seq![':', ':'] + join_sep(
                        segs.drop_first(),
                    ));
                }
            }
            assert(rt[0] == (((rs[0].rtype + seq!['[']) + crate::render::quote_text(rs[0].title))
                + seq![']'])[0]);
        }
        assert(is_upper(rs[0].rtype[0])) by {
            let segs = choose|segs: Seq<Seq<char>>| is_type_layout(rs[0].rtype, segs, true);
            assert(is_upper(segs[0][0]));
            if segs.len() == 1 {
                assert(rs[0].rtype == segs[0]);
            } else {
                assert(join_sep(segs) == segs[0] + seq![':', ':'] + join_sep(segs.drop_first()));
                assert(rs[0].rtype[0] == segs[0][0]);
            }
        }
        assert(!is_ws(s[i + 2]));
        lemma_skip_ws_one(s, i + 1);
        assert(skip_ws(s, i + 1) == i + 2);
        assert(s.subrange(i + 2, i + 2 + rt.len() as int) =~= rt);
        lemma_res_ref_render(s, i + 2, rs[0]);
        let k2 = i + 2 + rt.len() as int;
        assert forall|k: int| 0 <= k < rest_text(rest).len() implies s[k2 + k] == #[trigger]
        rest_text(rest)[k] by {
            assert(txt[2 + rt.len() + k] == ((", "@ + rt) + rest_text(rest))[2 + rt.len() + k]);
        }
        assert(s.subrange(k2, k2 + rest_text(rest).len() as int) =~= rest_text(rest));
        assert(forall|k: int| 0 <= k < rest.len() ==> #[trigger] rest[k] == rs[k + 1]);
        lemma_ref_list_rest_render(s, k2, rest);
        assert(seq![rs[0]] + rest =~= rs);
    }
}

/// A bracketed reference list parses back as one ref-arg.
proof fn lemma_ref_arg_render(s: Seq<char>, i: int, rs: Seq<RefV>)
    requires
        rs.len() >= 1,
        forall|k: int| 0 <= k < rs.len() ==> wf_ref(#[trigger] rs[k]),
        0 <= i,
        i + arg_text(rs).len() <= s.len(),
        s.subrange(i, i + arg_text(rs).len() as int) == arg_text(rs),
    ensures
        crate::grammar::parse_ref_arg(s, i) == Some((rs, i + arg_text(rs).len())),
{
    let txt = arg_text(rs);
    let n = txt.len() as int;
    assert forall|k: int| 0 <= k < n implies s[i + k] == txt[k] by {
        assert(s.subrange(i, i + n)[k] == s[i + k]);
    }
    lemma_refs_split(rs);
    let rt = crate::render::ref_text(rs[0]);
    let tail = rest_text(rs.drop_first());
    assert(txt =~= seq!['['] + (rt + tail)) by {
        assert(crate::render::refs_text(rs) + seq![']'] == rt + tail);
        assert(txt == seq!['['] + crate::render::refs_text(rs) + seq![']']);
    }
    assert(txt[0] == '[');
    assert(s[i] == '[');
    assert forall|k: int| 0 <= k < rt.len() implies s[i + 1 + k] == #[trigger] rt[k] by {
        assert(txt[1 + k] == (seq!['['] + (rt + tail))[1 + k]);
        assert((rt + tail)[k] == rt[k]);
    }
    assert(rt == rs[0].rtype + seq!['['] + crate::render::quote_text(rs[0].title) + seq![']']);
    assert(is_upper(rs[0].rtype[0]) && rt[0] == rs[0].rtype[0]) by {
        let segs = choose|segs: Seq<Seq<char>>| is_type_layout(rs[0].rtype, segs, true);
        assert(is_upper(segs[0][0]));
        if segs.len() == 1 {
            assert(rs[0].rtype == segs[0]);
        } else {
            assert(join_sep(segs) == segs[0] + seq![':', ':'] + join_sep(segs.drop_first()));
            assert(rs[0].rtype[0] == segs[0][0]);
        }
        assert(rt[0] == (((rs[0].rtype + seq!['[']) + crate::render::quote_text(rs[0].title))
            + seq![']'])[0]);
    }
    assert(s[i + 1] == rt[0]);
    assert(!is_ws(s[i + 1]));
    lemma_skip_ws_none(s, i + 1);
    assert(s.subrange(i + 1, i + 1 + rt.len() as int) =~= rt);
    lemma_res_ref_render(s, i + 1, rs[0]);
    let k2 = i + 1 + rt.len() as int;
    assert forall|k: int| 0 <= k < tail.len() implies s[k2 + k] == #[trigger] tail[k] by {
        assert(txt[1 + rt.len() + k] == (seq!['['] + (rt + tail))[1 + rt.len() + k]);
        assert((rt + tail)[rt.len() + k] == tail[k]);
    }
    assert(s.subrange(k2, k2 + tail.len() as int) =~= tail);
    assert(forall|k: int|
        0 <= k < rs.drop_first().len() ==> #[trigger] rs.drop_first()[k] == rs[k + 1]);
    lemma_ref_list_rest_render(s, k2, rs.drop_first());
    assert(seq![rs[0]] + rs.drop_first() =~= rs);
    assert(k2 + tail.len() == i + n);
}

/// An arrow parses back to its operator.
proof fn lemma_op_render(s: Seq<char>, i: int, op: RelationOp)
    requires
        0 <= i,
        i + 2 <= s.len(),
        s.subrange(i, i + 2) == op.spec_text(),
    ensures
        crate::grammar::parse_op(s, i) == Some((op, i + 2)),
{
    let p = seq!['-', '>'];
    let r = seq!['<', '-'];
    let n = seq!['~', '>'];
    let u = seq!['<', '~'];
    assert(p[0] == '-' && p[1] == '>' && r[0] == '<' && r[1] == '-' && n[0] == '~' && n[1] == '>'
        && u[0] == '<' && u[1] == '~');
    assert(p != r && p != n && p != u && r != n && r != u && n != u) by {
        assert(p[0] != r[0] && p[0] != n[0] && p[0] != u[0] && r[1] != n[1] && r[1] != u[1] && n[0]
            != u[0]);
    }
    match op {
        RelationOp::Provide => {
            assert(op.spec_text() == p);
        },
        RelationOp::Require => {
            assert(op.spec_text() == r);
        },
        RelationOp::Notify => {
            assert(op.spec_text() == n);
        },
        RelationOp::Subscribe => {
            assert(op.spec_text() == u);
        },
    }
}

/// No arrow starts where an identifier, a bracket, or the end of the text
/// stands.
proof fn lemma_op_none(s: Seq<char>, j: int)
    requires
        0 <= j <= s.len(),
        j < s.len() ==> is_ident_start(s[j]) || s[j] == '[',
    ensures
        crate::grammar::parse_op(s, j) is None,
{
    if j + 2 <= s.len() {
        let w = s.subrange(j, j + 2);
        assert(w[0] == s[j]);
        assert(s[j] != '-' && s[j] != '<' && s[j] != '~');
        assert(w != seq!['-', '>'] && w != seq!['<', '-'] && w != seq!['~', '>'] && w != seq![
            '<',
            '~',
        ]) by {
            assert(seq!['-', '>'][0] == '-' && seq!['<', '-'][0] == '<' && seq!['~', '>'][0]
                == '~' && seq!['<', '~'][0] == '<');
        }
    }
}

/// What one attribute contributes between its leading space and its trailing
/// comma.
pub open spec fn attr_body(a: AttrV) -> Seq<char> {
    a.name + " => "@ + crate::render::quote_text(a.value)
}

/// A rendered attribute parses back.
proof fn lemma_attr_render(s: Seq<char>, i: int, a: AttrV)
    requires
        wf_ident(a.name),
        wf_segs(a.value),
        0 <= i,
        i + attr_body(a).len() <= s.len(),
        s.subrange(i, i + attr_body(a).len() as int) == attr_body(a),
    ensures
        crate::grammar::parse_attr(s, i) == Some((a, i + attr_body(a).len())),
{
    let txt = attr_body(a);
    let n = txt.len() as int;
    assert forall|k: int| 0 <= k < n implies s[i + k] == txt[k] by {
        assert(s.subrange(i, i + n)[k] == s[i + k]);
    }
    let nl = a.name.len() as int;
    let qt = crate::render::quote_text(a.value);
    reveal_strlit(" => ");
    assert(" => "@.len() == 4);
    assert(" => "@[0] == ' ' && " => "@[1] == '=' && " => "@[2] == '>' && " => "@[3] == ' ');
    assert forall|k: int| 0 <= k < nl implies s[i + k] == #[trigger] a.name[k] by {
        assert(txt[k] == ((a.name + " => "@) + qt)[k]);
    }
    assert forall|k: int| 0 <= k < 4 implies txt[nl + k] == #[trigger] " => "@[k] by {
        assert(txt[nl + k] == ((a.name + " => "@) + qt)[nl + k]);
    }
    assert(s[i + nl] == ' ' && s[i + nl + 1] == '=' && s[i + nl + 2] == '>' && s[i + nl + 3]
        == ' ');
    assert forall|k: int| 0 <= k < qt.len() implies s[i + nl + 4 + k] == #[trigger] qt[k] by {
        assert(txt[nl + 4 + k] == ((a.name + " => "@) + qt)[nl + 4 + k]);
    }
    assert(is_ident_start(s[i])) by {
        assert(s[i + 0] == a.name[0]);
    }
    assert forall|k: int| i <= k < i + nl implies is_ident_char(#[trigger] s[k]) by {
        assert(s[k] == a.name[k - i]);
    }
    assert(!is_ident_char(' ')) by {
        assert(!is_ident_start(' '));
    }
    lemma_ident_end_at(s, i, i + nl);
    assert(s.subrange(i, i + nl) =~= a.name);
    lemma_skip_ws_one(s, i + nl);
    assert(qt[0] == '"') by {
        assert(qt == seq!['"'] + segs_text(a.value) + seq!['"']);
    }
    assert(s[i + nl + 4] == '"');
    lemma_skip_ws_one(s, i + nl + 3);
    assert(s.subrange(i + nl + 4, i + nl + 4 + qt.len() as int) =~= qt);
    lemma_parse_quoted_render(s, i + nl + 4, a.value);
    assert(AttrV { name: s.subrange(i, i + nl), value: a.value } == a);
}

/// The attribute block's text up to and including the closing brace.
pub open spec fn block_text(attrs: Seq<AttrV>) -> Seq<char> {
    crate::render::attrs_text(attrs) + " }"@
}

/// A rendered attribute block parses back.
#[verifier::rlimit(60)]
proof fn lemma_attrs_render(s: Seq<char>, i: int, attrs: Seq<AttrV>)
    requires
        forall|k: int|
            0 <= k < attrs.len() ==> wf_ident((#[trigger] attrs[k]).name) && wf_segs(
                attrs[k].value,
            ),
        0 <= i,
        i + block_text(attrs).len() <= s.len(),
        s.subrange(i, i + block_text(attrs).len() as int) == block_text(attrs),
    ensures
        crate::grammar::parse_attrs(s, i) == Some((attrs, i + block_text(attrs).len())),
    decreases attrs.len(),
{
    let txt = block_text(attrs);
    let n = txt.len() as int;
    assert forall|k: int| 0 <= k < n implies s[i + k] == txt[k] by {
        assert(s.subrange(i, i + n)[k] == s[i + k]);
    }
    reveal_strlit(" }");
    assert(" }"@.len() == 2 && " }"@[0] == ' ' && " }"@[1] == '}');
    if attrs.len() == 0 {
        assert(txt =~= " }"@);
        assert(s[i + 0] == txt[0] && s[i + 1] == txt[1]);
        assert(s[i] == ' ' && s[i + 1] == '}');
        lemma_skip_ws_one(s, i);
        assert(attrs =~= Seq::<AttrV>::empty());
    } else {
        let a = attrs[0];
        let rest = attrs.drop_first();
        let at = crate::render::attr_text(a);
        let bt = attr_body(a);
        assert(crate::render::attrs_text(attrs) == at + crate::render::attrs_text(rest));
        assert(txt =~= (seq![' '] + bt + seq![',']) + block_text(rest)) by {
            assert(at =~= seq![' '] + bt + seq![',']);
        }
        let whole = (seq![' '] + bt + seq![',']) + block_text(rest);
        assert(forall|k: int| 0 <= k < n ==> txt[k] == #[trigger] whole[k]);
        assert(whole[0] == ' ');
        assert(s[i + 0] == txt[0]);
        assert(s[i] == ' ');
        assert forall|k: int| 0 <= k < bt.len() implies s[i + 1 + k] == #[trigger] bt[k] by {
            assert(txt[1 + k] == whole[1 + k]);
            assert(whole[1 + k] == bt[k]);
        }
        assert(s[i + 1] == bt[0]);
        assert(bt[0] == a.name[0]) by {
            assert(bt == (a.name + " => "@) + crate::render::quote_text(a.value));
            assert(wf_ident(a.name));
        }
        assert(is_ident_start(s[i + 1]));
        lemma_skip_ws_one(s, i);
        assert(s[i + 1] != '}') by {
            assert(!is_ident_start('}'));
        }
        assert(s.subrange(i + 1, i + 1 + bt.len() as int) =~= bt);
        lemma_attr_render(s, i + 1, a);
        let k2 = i + 1 + bt.len() as int;
        assert(whole[1 + bt.len() as int] == ',');
        assert(s[k2] == ',');
        assert(!is_ws(','));
        lemma_skip_ws_none(s, k2);
        assert forall|k: int| 0 <= k < block_text(rest).len() implies s[k2 + 1 + k] == #[trigger]
        block_text(rest)[k] by {
            assert(txt[2 + bt.len() + k] == whole[2 + bt.len() + k]);
            assert(whole[2 + bt.len() + k] == block_text(rest)[k]);
        }
        assert(s.subrange(k2 + 1, k2 + 1 + block_text(rest).len() as int) =~= block_text(rest));
        assert(forall|k: int| 0 <= k < rest.len() ==> #[trigger] rest[k] == attrs[k + 1]);
        lemma_attrs_render(s, k2 + 1, rest);
        assert(seq![a] + rest =~= attrs);
        assert(k2 + 1 + block_text(rest).len() == i + n);
    }
}

/// A well-formed expression: canonical, identifier-shaped names throughout,
/// titles and values whose rendering reads back unchanged, and relation sides
/// that are nonempty well-formed reference lists.
pub open spec fn wf_expr(e: ExprV) -> bool {
    match e {
        ExprV::Res { rtype, title, attrs } => {
            &&& wf_type_text(rtype, false)
            &&& wf_segs(title)
            &&& forall|k: int|
                0 <= k < attrs.len() ==> wf_ident((#[trigger] attrs[k]).name) && wf_segs(
                    attrs[k].value,
                )
        },
        ExprV::Rel { from, to, op: _ } => {
            &&& from.len() >= 1
            &&& to.len() >= 1
            &&& forall|k: int| 0 <= k < from.len() ==> wf_ref(#[trigger] from[k])
            &&& forall|k: int| 0 <= k < to.len() ==> wf_ref(#[trigger] to[k])
        },
    }
}

/// A rendered resource declaration parses back.
#[verifier::rlimit(60)]
proof fn lemma_resource_render(s: Seq<char>, i: int, e: ExprV)
    requires
        e is Res,
        wf_expr(e),
        0 <= i,
        i + crate::render::expr_text(e).len() <= s.len(),
        s.subrange(i, i + crate::render::expr_text(e).len() as int) == crate::render::expr_text(
            e,
        ),
    ensures
        crate::grammar::parse_resource(s, i) == Some((e, i + crate::render::expr_text(e).len())),
{
    let txt = crate::render::expr_text(e);
    let n = txt.len() as int;
    assert forall|k: int| 0 <= k < n implies s[i + k] == txt[k] by {
        assert(s.subrange(i, i + n)[k] == s[i + k]);
    }
    let rtype = e->Res_rtype;
    let title = e->Res_title;
    let attrs = e->Res_attrs;
    let tl = rtype.len() as int;
    let qt = crate::render::quote_text(title);
    let ql = qt.len() as int;
    reveal_strlit(" { ");
    assert(" { "@.len() == 3 && " { "@[0] == ' ' && " { "@[1] == '{' && " { "@[2] == ' ');
    let whole = ((((rtype + " { "@) + qt) + seq![':']) + crate::render::attrs_text(attrs))
        + " }"@;
    assert(txt =~= whole);
    assert(forall|k: int| 0 <= k < n ==> txt[k] == #[trigger] whole[k]);
    assert forall|k: int| 0 <= k < tl implies s[i + k] == #[trigger] rtype[k] by {
        assert(txt[k] == whole[k]);
        assert(whole[k] == rtype[k]);
    }
    assert(s.subrange(i, i + tl) =~= rtype);
    assert(whole[tl] == ' ' && whole[tl + 1] == '{' && whole[tl + 2] == ' ');
    assert(s[i + tl] == ' ' && s[i + tl + 1] == '{' && s[i + tl + 2] == ' ');
    let segs = choose|segs: Seq<Seq<char>>| is_type_layout(rtype, segs, false);
    assert(!is_ident_char(' ') && ' ' != ':') by {
        assert(!is_ident_start(' '));
    }
    lemma_type_segs_render(s, i, segs, rtype);
    lemma_skip_ws_one(s, i + tl);
    assert forall|k: int| 0 <= k < ql implies s[i + tl + 3 + k] == #[trigger] qt[k] by {
        assert(txt[tl + 3 + k] == whole[tl + 3 + k]);
        assert(whole[tl + 3 + k] == qt[k]);
    }
    assert(qt[0] == '"') by {
        assert(qt == seq!['"'] + segs_text(title) + seq!['"']);
    }
    assert(s[i + tl + 3] == '"');
    lemma_skip_ws_one(s, i + tl + 2);
    assert(s.subrange(i + tl + 3, i + tl + 3 + ql) =~= qt);
    lemma_parse_quoted_render(s, i + tl + 3, title);
    let j3 = i + tl + 3 + ql;
    assert(whole[tl + 3 + ql] == ':');
    assert(s[j3] == ':');
    assert(!is_ws(':'));
    lemma_skip_ws_none(s, j3);
    assert forall|k: int| 0 <= k < block_text(attrs).len() implies s[j3 + 1 + k] == #[trigger]
    block_text(attrs)[k] by {
        assert(txt[tl + 4 + ql + k] == whole[tl + 4 + ql + k]);
        assert(whole[tl + 4 + ql + k] == block_text(attrs)[k]) by {
            if k < crate::render::attrs_text(attrs).len() {
                assert(whole[tl + 4 + ql + k] == crate::render::attrs_text(attrs)[k]);
                assert(block_text(attrs)[k] == crate::render::attrs_text(attrs)[k]);
            } else {
                assert(whole[tl + 4 + ql + k] == " }"@[k - crate::render::attrs_text(
                    attrs,
                ).len()]);
                assert(block_text(attrs)[k] == " }"@[k - crate::render::attrs_text(
                    attrs,
                ).len()]);
            }
        }
    }
    assert(s.subrange(j3 + 1, j3 + 1 + block_text(attrs).len() as int) =~= block_text(attrs));
    lemma_attrs_render(s, j3 + 1, attrs);
    lemma_canon_join_fixed(segs);
    assert(crate::ast::canon_join(segs) == rtype);
    assert(j3 + 1 + block_text(attrs).len() == i + n);
    assert(ExprV::Res { rtype: crate::ast::canon_join(segs), title, attrs } == e);
}

/// A rendered relation statement parses back as exactly one statement,
/// provided no arrow follows it in the surrounding text.
#[verifier::rlimit(60)]
proof fn lemma_relation_render(s: Seq<char>, i: int, e: ExprV)
    requires
        e is Rel,
        wf_expr(e),
        0 <= i,
        i + crate::render::expr_text(e).len() <= s.len(),
        s.subrange(i, i + crate::render::expr_text(e).len() as int) == crate::render::expr_text(
            e,
        ),
        crate::grammar::parse_op(
            s,
            skip_ws(s, i + crate::render::expr_text(e).len() as int),
        ) is None,
    ensures
        crate::grammar::parse_relation(s, i) == Some(
            (seq![e], i + crate::render::expr_text(e).len()),
        ),
{
    let txt = crate::render::expr_text(e);
    let n = txt.len() as int;
    assert forall|k: int| 0 <= k < n implies s[i + k] == txt[k] by {
        assert(s.subrange(i, i + n)[k] == s[i + k]);
    }
    let from = e->Rel_from;
    let to = e->Rel_to;
    let op = e->Rel_op;
    reveal_strlit("] ");
    reveal_strlit(" [");
    assert("] "@.len() == 2 && "] "@[0] == ']' && "] "@[1] == ' ');
    assert(" ["@.len() == 2 && " ["@[0] == ' ' && " ["@[1] == '[');
    let fa = arg_text(from);
    let ta = arg_text(to);
    let whole = ((fa + seq![' ']) + op.spec_text() + seq![' ']) + ta;
    assert(txt =~= whole) by {
        assert(txt == ((((seq!['['] + crate::render::refs_text(from)) + "] "@) + op.spec_text())
            + " ["@) + crate::render::refs_text(to) + seq![']']);
    }
    assert(forall|k: int| 0 <= k < n ==> txt[k] == #[trigger] whole[k]);
    let fl = fa.len() as int;
    assert forall|k: int| 0 <= k < fl implies s[i + k] == #[trigger] fa[k] by {
        assert(txt[k] == whole[k]);
        assert(whole[k] == fa[k]);
    }
    assert(s.subrange(i, i + fl) =~= fa);
    lemma_ref_arg_render(s, i, from);
    let p = i + fl;
    assert(whole[fl] == ' ' && whole[fl + 1] == op.spec_text()[0] && whole[fl + 2]
        == op.spec_text()[1]);
    assert(s[p] == ' ' && s[p + 1] == op.spec_text()[0] && s[p + 2] == op.spec_text()[1]);
    assert(!is_ws(op.spec_text()[0])) by {
        match op {
            RelationOp::Provide => assert(op.spec_text()[0] == '-'),
            RelationOp::Require => assert(op.spec_text()[0] == '<'),
            RelationOp::Notify => assert(op.spec_text()[0] == '~'),
            RelationOp::Subscribe => assert(op.spec_text()[0] == '<'),
        }
    }
    lemma_skip_ws_one(s, p);
    assert(s.subrange(p + 1, p + 3) =~= op.spec_text());
    lemma_op_render(s, p + 1, op);
    assert(whole[fl + 3] == ' ' && whole[fl + 4] == ta[0]);
    assert(ta[0] == '[');
    assert(s[p + 3] == ' ' && s[p + 4] == '[');
    lemma_skip_ws_one(s, p + 3);
    assert forall|k: int| 0 <= k < ta.len() implies s[p + 4 + k] == #[trigger] ta[k] by {
        assert(txt[fl + 4 + k] == whole[fl + 4 + k]);
        assert(whole[fl + 4 + k] == ta[k]);
    }
    assert(s.subrange(p + 4, p + 4 + ta.len() as int) =~= ta);
    lemma_ref_arg_render(s, p + 4, to);
    let q = p + 4 + ta.len() as int;
    assert(q == i + n);
    assert(crate::grammar::parse_chain_rest(s, q) == Some(
        (Seq::<(RelationOp, Seq<RefV>)>::empty(), q),
    ));
    assert(crate::grammar::parse_chain_rest(s, p) == Some((seq![(op, to)], q))) by {
        assert(seq![(op, to)] + Seq::<(RelationOp, Seq<RefV>)>::empty() =~= seq![(op, to)]);
    }
    assert(crate::grammar::chain_relations(from, seq![(op, to)]) =~= seq![e]) by {
        let rest = seq![(op, to)];
        assert(rest[0] == (op, to));
        assert(rest.drop_first() =~= Seq::<(RelationOp, Seq<RefV>)>::empty());
        assert(crate::grammar::chain_relations(to, rest.drop_first()) =~= Seq::<ExprV>::empty());
        assert(ExprV::Rel { from, to: rest[0].1, op: rest[0].0 } == e);
    }
}

/// Every expression of the manifest is well-formed.
pub open spec fn wf_manifest(es: Seq<ExprV>) -> bool {
    forall|k: int| 0 <= k < es.len() ==> wf_expr(#[trigger] es[k])
}

/// A rendered expression's first character: never whitespace, never the start
/// of an arrow.
proof fn lemma_expr_first_char(e: ExprV)
    requires
        wf_expr(e),
    ensures
        crate::render::expr_text(e).len() >= 1,
        is_ident_start(crate::render::expr_text(e)[0]) || crate::render::expr_text(e)[0] == '[',
{
    let txt = crate::render::expr_text(e);
    match e {
        ExprV::Res { rtype, title, attrs } => {
            let segs = choose|segs: Seq<Seq<char>>| is_type_layout(rtype, segs, false);
            assert(rtype.len() >= 1 && is_ident_start(rtype[0])) by {
                if segs.len() == 1 {
                    assert(rtype == segs[0]);
                } else {
                    assert(join_sep(segs) == segs[0] + seq![':', ':'] + join_sep(
                        segs.drop_first(),
                    ));
                    assert(rtype[0] == segs[0][0]);
                }
            }
            assert(txt == rtype + " { "@ + crate::render::quote_text(title)
                + seq![':'] + crate::render::attrs_text(attrs) + " }"@);
            assert(txt[0] == rtype[0]);
        },
        ExprV::Rel { from, to, op } => {
            assert(txt == seq!['['] + crate::render::refs_text(from) + "] "@ + op.spec_text()
                + " ["@ + crate::render::refs_text(to) + seq![']']);
            assert(txt[0] == '[');
        },
    }
}

/// A rendered expression parses back as exactly itself, provided no arrow
/// follows it in the surrounding text.
proof fn lemma_expr_render(s: Seq<char>, i: int, e: ExprV)
    requires
        wf_expr(e),
        0 <= i,
        i + crate::render::expr_text(e).len() <= s.len(),
        s.subrange(i, i + crate::render::expr_text(e).len() as int) == crate::render::expr_text(
            e,
        ),
        crate::grammar::parse_op(
            s,
            skip_ws(s, i + crate::render::expr_text(e).len() as int),
        ) is None,
    ensures
        crate::grammar::parse_expr(s, i) == Some((seq![e], i + crate::render::expr_text(e).len())),
{
    match e {
        ExprV::Res { .. } => {
            lemma_resource_render(s, i, e);
        },
        ExprV::Rel { .. } => {
            lemma_expr_first_char(e);
            let txt = crate::render::expr_text(e);
            assert(s.subrange(i, i + txt.len() as int)[0] == s[i]);
            assert(s[i] == '[');
            assert(!is_ident_start('['));
            assert(crate::grammar::parse_type_segs(s, i) is None);
            assert(crate::grammar::parse_resource(s, i) is None);
            lemma_relation_render(s, i, e);
        },
    }
}

/// A rendered expression sequence, one expression per line, parses back to
/// the very sequence.
proof fn lemma_program_render(s: Seq<char>, i: int, es: Seq<ExprV>)
    requires
        wf_manifest(es),
        0 <= i <= s.len(),
        s.len() - i == crate::render::manifest_text(es).len(),
        s.subrange(i, s.len() as int) == crate::render::manifest_text(es),
    ensures
        crate::grammar::parse_program(s, i) == Some(es),
    decreases es.len(),
{
    let txt = crate::render::manifest_text(es);
    let n = txt.len() as int;
    assert forall|k: int| 0 <= k < n implies s[i + k] == txt[k] by {
        assert(s.subrange(i, i + n)[k] == s[i + k]);
    }
    if es.len() == 0 {
        assert(i == s.len());
        assert(skip_ws(s, i) == i);
        assert(es =~= Seq::<ExprV>::empty());
    } else {
        let e = es[0];
        let rest = es.drop_first();
        let et = crate::render::expr_text(e);
        let mt = crate::render::manifest_text(rest);
        assert(txt == et + seq!['\n'] + mt);
        assert(wf_expr(e));
        lemma_expr_first_char(e);
        assert forall|k: int| 0 <= k < et.len() implies s[i + k] == #[trigger] et[k] by {
            assert(txt[k] == ((et + seq!['\n']) + mt)[k]);
        }
        assert(s.subrange(i, i + et.len() as int) =~= et);
        assert(s[i + 0] == et[0]);
        assert(!is_ws(s[i])) by {
            if et[0] == '[' {
            } else {
                assert(is_ident_start(et[0]));
            }
        }
        lemma_skip_ws_none(s, i);
        let p = i + et.len() as int;
        assert(txt[et.len() as int] == ((et + seq!['\n']) + mt)[et.len() as int]);
        assert(s[p] == '\n');
        assert forall|k: int| 0 <= k < mt.len() implies s[p + 1 + k] == #[trigger] mt[k] by {
            assert(txt[et.len() + 1 + k] == ((et + seq!['\n']) + mt)[et.len() + 1 + k]);
        }
        assert(wf_manifest(rest)) by {
            assert(forall|k: int| 0 <= k < rest.len() ==> #[trigger] rest[k] == es[k + 1]);
        }
        // What stands just after the newline: the end of the text, or the
        // first character of the next rendered expression.
        assert(p + 1 < s.len() ==> !is_ws(s[p + 1]) && (is_ident_start(s[p + 1]) || s[p + 1]
            == '[')) by {
            if p + 1 < s.len() {
                assert(mt.len() > 0);
                assert(rest.len() > 0);
                let e2 = rest[0];
                assert(wf_expr(e2));
                lemma_expr_first_char(e2);
                let et2 = crate::render::expr_text(e2);
                assert(mt == et2 + seq!['\n'] + crate::render::manifest_text(rest.drop_first()));
                assert(mt[0] == ((et2 + seq!['\n']) + crate::render::manifest_text(
                    rest.drop_first(),
                ))[0]);
                assert(mt[0] == et2[0]);
                assert(s[p + 1] == mt[0]);
                if et2[0] == '[' {
                } else {
                    assert(is_ident_start(et2[0]));
                }
            }
        }
        lemma_skip_ws_one(s, p);
        lemma_op_none(s, p + 1);
        lemma_expr_render(s, i, e);
        assert(s.subrange(p + 1, s.len() as int) =~= mt);
        lemma_program_render(s, p + 1, rest);
        assert(crate::grammar::parse_program(s, p) == Some(rest)) by {
            assert(skip_ws(s, p) == p + 1);
            assert(skip_ws(s, p + 1) == p + 1) by {
                lemma_skip_ws_none(s, p + 1);
            }
        }
        assert(crate::grammar::parse_program(s, i) == Some(seq![e] + rest));
        assert(seq![e] + rest =~= es);
    }
}

/// Round-trip display: rendering a well-formed manifest back to text and
/// re-parsing it yields exactly the expression sequence rendered. Every
/// parsed manifest is well-formed here except where a single-quoted source
/// literal holds a `"` or a `${`, which no double-quoted rendering can spell.
pub proof fn lemma_round_trip_display(m: Seq<ExprV>)
    requires
        wf_manifest(m),
    ensures
        crate::grammar::spec_parse(crate::render::manifest_text(m)) == Some(m),
{
    let s = crate::render::manifest_text(m);
    assert(s.subrange(0, s.len() as int) =~= s);
    lemma_program_render(s, 0, m);
}

} // verus!
