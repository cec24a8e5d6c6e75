//! Abstract syntax: resource declarations and relation statements, in source
//! order, together with the ghost models the contracts speak of.

use crate::pstring::{segs_text, PuppetString, SegV};
use vstd::prelude::*;

verus! {

/// Relation operators as written in a manifest: `->`, `<-`, `~>`, `<~`.
/// `Require` and `Subscribe` mirror `Provide` and `Notify`: parsing swaps the
/// sides of the statement so that an edge always points from the thing that
/// must happen first to the thing that depends on it.
#[derive(Debug, Clone, Copy, PartialEq, Eq, Structural)]
pub enum RelationOp {
    Provide,
    Require,
    Notify,
    Subscribe,
}

/// Ghost model of a resource reference: canonical type name and title segments.
pub struct RefV {
    pub rtype: Seq<char>,
    pub title: Seq<SegV>,
}

/// Ghost model of an attribute.
pub struct AttrV {
    pub name: Seq<char>,
    pub value: Seq<SegV>,
}

/// Ghost model of one manifest expression.
pub enum ExprV {
    Res { rtype: Seq<char>, title: Seq<SegV>, attrs: Seq<AttrV> },
    Rel { from: Seq<RefV>, to: Seq<RefV>, op: RelationOp },
}

/// A reference to a resource by canonical type name and title, independent of
/// whether that resource is declared in the current statement.
#[derive(Debug, Clone)]
pub struct ResourceRef {
    pub rtype: String,
    pub title: PuppetString,
}

impl View for ResourceRef {
    type V = RefV;

    open spec fn view(&self) -> RefV {
        RefV { rtype: self.rtype@, title: self.title@ }
    }
}

/// A (name, value) pair attached to a resource declaration; carried through
/// parsing but not interpreted by the graph engine.
#[derive(Debug, Clone)]
pub struct Attribute {
    pub name: String,
    pub value: PuppetString,
}

impl View for Attribute {
    type V = AttrV;

    open spec fn view(&self) -> AttrV {
        AttrV { name: self.name@, value: self.value@ }
    }
}

/// One manifest expression: a resource declaration (with its canonical type
/// name) or a relation statement between two reference lists.
#[derive(Debug)]
pub enum PuppetExpr {
    Resource { rtype: String, title: PuppetString, attributes: Vec<Attribute> },
    Relation { from: Vec<ResourceRef>, to: Vec<ResourceRef>, op: RelationOp },
}

impl View for PuppetExpr {
    type V = ExprV;

    open spec fn view(&self) -> ExprV {
        match self {
            PuppetExpr::Resource { rtype, title, attributes } => ExprV::Res {
                rtype: rtype@,
                title: title@,
                attrs: attributes@.map_values(|a: Attribute| a@),
            },
            PuppetExpr::Relation { from, to, op } => ExprV::Rel {
                from: from@.map_values(|r: ResourceRef| r@),
                to: to@.map_values(|r: ResourceRef| r@),
                op: *op,
            },
        }
    }
}

/// The source-ordered sequence of expressions of one manifest.
#[derive(Debug)]
pub struct Manifest(pub Vec<PuppetExpr>);

impl View for Manifest {
    type V = Seq<ExprV>;

    open spec fn view(&self) -> Seq<ExprV> {
        self.0@.map_values(|e: PuppetExpr| e@)
    }
}

/// The resource declarations among a sequence of expressions, in order.
pub open spec fn res_exprs(es: Seq<ExprV>) -> Seq<ExprV>
    decreases es.len(),
{
    if es.len() == 0 {
        Seq::empty()
    } else {
        (if es[0] is Res {
            seq![es[0]]
        } else {
            Seq::empty()
        }) + res_exprs(es.drop_first())
    }
}

/// The relation statements among a sequence of expressions, in order.
pub open spec fn rel_exprs(es: Seq<ExprV>) -> Seq<ExprV>
    decreases es.len(),
{
    if es.len() == 0 {
        Seq::empty()
    } else {
        (if es[0] is Rel {
            seq![es[0]]
        } else {
            Seq::empty()
        }) + rel_exprs(es.drop_first())
    }
}

impl Manifest {
    /// The resource declarations of the manifest, in source order.
    pub fn resources(&self) -> (r: Vec<&PuppetExpr>)
        ensures
            r@.map_values(|e: &PuppetExpr| e@) == res_exprs(self@),
    {
        let ghost ev = self@;
        let mut r: Vec<&PuppetExpr> = Vec::new();
        let n = self.0.len();
        let mut k: usize = 0;
        proof {
            assert(ev.skip(0) =~= ev);
            assert(r@.map_values(|e: &PuppetExpr| e@) + res_exprs(ev) =~= res_exprs(ev));
        }
        while k < n
            invariant
                k <= n == self.0@.len(),
                ev == self@,
                r@.map_values(|e: &PuppetExpr| e@) + res_exprs(ev.skip(k as int)) == res_exprs(
                    ev,
                ),
            decreases n - k,
        {
            let ghost pre = r@.map_values(|e: &PuppetExpr| e@);
            let ghost tail = ev.skip(k as int);
            proof {
                assert(tail[0] == ev[k as int]);
                assert(tail.drop_first() =~= ev.skip(k as int + 1));
            }
            let e = &self.0[k];
            match e {
                PuppetExpr::Resource { .. } => {
                    r.push(e);
                    proof {
                        assert(r@.map_values(|x: &PuppetExpr| x@) =~= pre.push(ev[k as int]));
                        assert(r@.map_values(|x: &PuppetExpr| x@) + res_exprs(
                            ev.skip(k as int + 1),
                        ) =~= res_exprs(ev));
                    }
                },
                PuppetExpr::Relation { .. } => {
                    proof {
                        assert(r@.map_values(|x: &PuppetExpr| x@) + res_exprs(
                            ev.skip(k as int + 1),
                        ) =~= res_exprs(ev));
                    }
                },
            }
            k += 1;
        }
        proof {
            assert(ev.skip(n as int) =~= Seq::<ExprV>::empty());
            assert(r@.map_values(|e: &PuppetExpr| e@) + res_exprs(ev.skip(n as int)) =~= r@
                .map_values(|e: &PuppetExpr| e@));
        }
        r
    }

    /// The relation statements of the manifest, in source order.
    pub fn relations(&self) -> (r: Vec<&PuppetExpr>)
        ensures
            r@.map_values(|e: &PuppetExpr| e@) == rel_exprs(self@),
    {
        let ghost ev = self@;
        let mut r: Vec<&PuppetExpr> = Vec::new();
        let n = self.0.len();
        let mut k: usize = 0;
        proof {
            assert(ev.skip(0) =~= ev);
            assert(r@.map_values(|e: &PuppetExpr| e@) + rel_exprs(ev) =~= rel_exprs(ev));
        }
        while k < n
            invariant
                k <= n == self.0@.len(),
                ev == self@,
                r@.map_values(|e: &PuppetExpr| e@) + rel_exprs(ev.skip(k as int)) == rel_exprs(
                    ev,
                ),
            decreases n - k,
        {
            let ghost pre = r@.map_values(|e: &PuppetExpr| e@);
            let ghost tail = ev.skip(k as int);
            proof {
                assert(tail[0] == ev[k as int]);
                assert(tail.drop_first() =~= ev.skip(k as int + 1));
            }
            let e = &self.0[k];
            match e {
                PuppetExpr::Relation { .. } => {
                    r.push(e);
                    proof {
                        assert(r@.map_values(|x: &PuppetExpr| x@) =~= pre.push(ev[k as int]));
                        assert(r@.map_values(|x: &PuppetExpr| x@) + rel_exprs(
                            ev.skip(k as int + 1),
                        ) =~= rel_exprs(ev));
                    }
                },
                PuppetExpr::Resource { .. } => {
                    proof {
                        assert(r@.map_values(|x: &PuppetExpr| x@) + rel_exprs(
                            ev.skip(k as int + 1),
                        ) =~= rel_exprs(ev));
                    }
                },
            }
            k += 1;
        }
        proof {
            assert(ev.skip(n as int) =~= Seq::<ExprV>::empty());
            assert(r@.map_values(|e: &PuppetExpr| e@) + rel_exprs(ev.skip(n as int)) =~= r@
                .map_values(|e: &PuppetExpr| e@));
        }
        r
    }
}

/// The identity key of a resource: the text `Type[title]`.
pub open spec fn id_text(rtype: Seq<char>, title: Seq<SegV>) -> Seq<char> {
    rtype + seq!['['] + segs_text(title) + seq![']']
}

/// Upper-case an ASCII lower-case letter; leave every other character alone.
pub open spec fn uc(c: char) -> char {
    if 'a' <= c && c <= 'z' {
        (((c as u32) - 32) as u8) as char
    } else {
        c
    }
}

/// Upper-case the leading character of one type-name segment.
pub open spec fn uc_first(seg: Seq<char>) -> Seq<char> {
    if seg.len() == 0 {
        seg
    } else {
        seq![uc(seg[0])] + seg.drop_first()
    }
}

/// The canonical type name: each `::`-separated segment with its leading
/// character upper-cased, rejoined with `::`.
pub open spec fn canon_join(segs: Seq<Seq<char>>) -> Seq<char>
    decreases segs.len(),
{
    if segs.len() == 0 {
        Seq::empty()
    } else if segs.len() == 1 {
        uc_first(segs[0])
    } else {
        uc_first(segs[0]) + seq![':', ':'] + canon_join(segs.drop_first())
    }
}

/// Canonicalization looks only at each segment's leading character, so
/// canonicalizing already-canonicalized segments changes nothing: type names
/// that differ only there resolve to the same canonical name.
pub proof fn lemma_canon_idempotent(segs: Seq<Seq<char>>)
    ensures
        canon_join(segs.map_values(|s: Seq<char>| uc_first(s))) == canon_join(segs),
    decreases segs.len(),
{
    let m = segs.map_values(|s: Seq<char>| uc_first(s));
    if segs.len() == 0 {
        assert(m =~= Seq::<Seq<char>>::empty());
    } else {
        assert(uc_first(uc_first(segs[0])) =~= uc_first(segs[0])) by {
            if segs[0].len() > 0 {
                assert(uc(uc(segs[0][0])) == uc(segs[0][0]));
                assert(uc_first(segs[0]).drop_first() =~= segs[0].drop_first());
            }
        }
        if segs.len() == 1 {
            assert(m.len() == 1 && m[0] == uc_first(segs[0]));
        } else {
            lemma_canon_idempotent(segs.drop_first());
            assert(m.drop_first() =~= segs.drop_first().map_values(
                |s: Seq<char>| uc_first(s),
            ));
        }
    }
}

/// The suffix a non-first canonical segment list contributes: a `::`
/// separator followed by the canonical join, or nothing when empty.
pub open spec fn canon_tail(segs: Seq<Seq<char>>) -> Seq<char> {
    if segs.len() == 0 {
        Seq::empty()
    } else {
        seq![':', ':'] + canon_join(segs)
    }
}

/// Exec form of `uc`.
pub fn uc_char(c: char) -> (r: char)
    ensures
        r == uc(c),
{
    if 'a' <= c && c <= 'z' {
        (((c as u32) - 32) as u8) as char
    } else {
        c
    }
}

impl RelationOp {
    /// The operator a two-character arrow denotes, if any.
    pub open spec fn spec_of_text(s: Seq<char>) -> Option<RelationOp> {
        if s == seq!['-', '>'] {
            Some(RelationOp::Provide)
        } else if s == seq!['<', '-'] {
            Some(RelationOp::Require)
        } else if s == seq!['~', '>'] {
            Some(RelationOp::Notify)
        } else if s == seq!['<', '~'] {
            Some(RelationOp::Subscribe)
        } else {
            None
        }
    }

    /// The arrow an operator renders to.
    pub open spec fn spec_text(self) -> Seq<char> {
        match self {
            RelationOp::Provide => seq!['-', '>'],
            RelationOp::Require => seq!['<', '-'],
            RelationOp::Notify => seq!['~', '>'],
            RelationOp::Subscribe => seq!['<', '~'],
        }
    }

    /// Parse an arrow text: exactly the four two-character operators.
    pub fn from_str(op: &str) -> (r: Option<RelationOp>)
        ensures
            r == Self::spec_of_text(op@),
    {
        let cs = crate::scan::str_to_chars(op);
        if cs.len() == 2 {
            let r = Self::from_chars(cs[0], cs[1]);
            proof {
                assert(op@ =~= seq![cs@[0], cs@[1]]);
            }
            r
        } else {
            proof {
                assert(op@.len() != 2);
                assert(forall|a: char, b: char| (seq![a, b]).len() == 2);
                assert(Self::spec_of_text(op@) is None) by {
                    assert(seq!['-', '>'].len() == 2 && seq!['<', '-'].len() == 2 && seq![
                        '~',
                        '>',
                    ].len() == 2 && seq!['<', '~'].len() == 2);
                }
            }
            None
        }
    }

    /// Parse an arrow made of two characters.
    pub fn from_chars(a: char, b: char) -> (r: Option<RelationOp>)
        ensures
            r == Self::spec_of_text(seq![a, b]),
    {
        let r = if a == '-' && b == '>' {
            Some(RelationOp::Provide)
        } else if a == '<' && b == '-' {
            Some(RelationOp::Require)
        } else if a == '~' && b == '>' {
            Some(RelationOp::Notify)
        } else if a == '<' && b == '~' {
            Some(RelationOp::Subscribe)
        } else {
            None
        };
        proof {
            let s = seq![a, b];
            assert(s.len() == 2 && s[0] == a && s[1] == b);
            assert(seq!['-', '>'].len() == 2 && seq!['-', '>'][0] == '-' && seq!['-', '>'][1]
                == '>');
            assert(seq!['<', '-'].len() == 2 && seq!['<', '-'][0] == '<' && seq!['<', '-'][1]
                == '-');
            assert(seq!['~', '>'].len() == 2 && seq!['~', '>'][0] == '~' && seq!['~', '>'][1]
                == '>');
            assert(seq!['<', '~'].len() == 2 && seq!['<', '~'][0] == '<' && seq!['<', '~'][1]
                == '~');
            if a == '-' && b == '>' {
                assert(s =~= seq!['-', '>']);
            } else if a == '<' && b == '-' {
                assert(s =~= seq!['<', '-']);
            } else if a == '~' && b == '>' {
                assert(s =~= seq!['~', '>']);
            } else if a == '<' && b == '~' {
                assert(s =~= seq!['<', '~']);
            } else {
                assert(s != seq!['-', '>'] && s != seq!['<', '-'] && s != seq!['~', '>'] && s
                    != seq!['<', '~']);
            }
        }
        r
    }
}

/// Append one segment in canonical form: leading character upper-cased.
fn append_uc_first(r: &mut String, seg: &Vec<char>)
    requires
        seg@.len() > 0,
    ensures
        final(r)@ == old(r)@ + uc_first(seg@),
{
    let ghost pre = old(r)@;
    crate::pstring::push_char(r, uc_char(seg[0]));
    let n = seg.len();
    let mut k: usize = 1;
    while k < n
        invariant
            1 <= k <= n == seg@.len(),
            r@ == pre + seq![uc(seg@[0])] + seg@.subrange(1, k as int),
        decreases n - k,
    {
        crate::pstring::push_char(r, seg[k]);
        proof {
            assert(seg@.subrange(1, k as int).push(seg@[k as int]) =~= seg@.subrange(
                1,
                k as int + 1,
            ));
            assert(r@ =~= pre + seq![uc(seg@[0])] + seg@.subrange(1, k as int + 1));
        }
        k += 1;
    }
    proof {
        assert(seq![uc(seg@[0])] + seg@.subrange(1, n as int) =~= uc_first(seg@)) by {
            assert(seg@.drop_first() =~= seg@.subrange(1, n as int));
        }
        assert(pre + seq![uc(seg@[0])] + seg@.subrange(1, n as int) =~= pre + uc_first(seg@));
    }
}

/// The canonical type name of a segment list, as an owned string.
pub fn canon_string(segs: &Vec<Vec<char>>) -> (r: String)
    requires
        forall|k: int| 0 <= k < segs@.len() ==> segs@[k]@.len() > 0,
    ensures
        r@ == canon_join(segs@.map_values(|v: Vec<char>| v@)),
{
    let ghost v = segs@.map_values(|x: Vec<char>| x@);
    let mut r = String::new();
    let n = segs.len();
    if n == 0 {
        proof {
            assert(v.len() == 0);
            assert(r@ =~= canon_join(v));
        }
        return r;
    }
    append_uc_first(&mut r, &segs[0]);
    proof {
        assert(r@ =~= uc_first(v[0]));
        if n == 1 {
            assert(canon_join(v) == uc_first(v[0]));
        } else {
            assert(v.skip(1) =~= v.drop_first());
            assert(canon_join(v) == uc_first(v[0]) + canon_tail(v.skip(1)));
            assert(r@ + canon_tail(v.skip(1)) =~= canon_join(v));
        }
    }
    let mut k: usize = 1;
    while k < n
        invariant
            1 <= k <= n == segs@.len(),
            v == segs@.map_values(|x: Vec<char>| x@),
            forall|m: int| 0 <= m < segs@.len() ==> segs@[m]@.len() > 0,
            k < n ==> r@ + canon_tail(v.skip(k as int)) == canon_join(v),
            k == n ==> r@ == canon_join(v),
        decreases n - k,
    {
        let ghost pre = r@;
        crate::pstring::push_char(&mut r, ':');
        crate::pstring::push_char(&mut r, ':');
        append_uc_first(&mut r, &segs[k]);
        proof {
            let rest = v.skip(k as int);
            assert(rest[0] == v[k as int]);
            assert(r@ =~= pre + seq![':', ':'] + uc_first(rest[0]));
            if k + 1 < n {
                assert(rest.drop_first() =~= v.skip(k as int + 1));
                assert(canon_join(rest) == uc_first(rest[0]) + seq![':', ':'] + canon_join(
                    rest.drop_first(),
                ));
                assert(r@ + canon_tail(v.skip(k as int + 1)) =~= pre + canon_tail(rest));
            } else {
                assert(rest.len() == 1);
                assert(canon_join(rest) == uc_first(rest[0]));
                assert(r@ =~= pre + canon_tail(rest));
            }
        }
        k += 1;
    }
    r
}

impl ResourceRef {
    /// The identity key of the referenced resource: `Type[title]`.
    pub fn id(&self) -> (r: String)
        ensures
            r@ == id_text(self.rtype@, self.title@),
    {
        let mut r = self.rtype.clone();
        crate::pstring::push_char(&mut r, '[');
        r.append(self.title.to_text().as_str());
        crate::pstring::push_char(&mut r, ']');
        proof {
            assert(r@ =~= id_text(self.rtype@, self.title@));
        }
        r
    }

    /// A copy referring to the same resource.
    pub fn duplicate(&self) -> (r: Self)
        ensures
            r@ == self@,
    {
        ResourceRef { rtype: self.rtype.clone(), title: self.title.duplicate() }
    }
}

/// A copy of a reference list, same references in the same order.
pub fn dup_refs(v: &Vec<ResourceRef>) -> (r: Vec<ResourceRef>)
    ensures
        r@.map_values(|x: ResourceRef| x@) == v@.map_values(|x: ResourceRef| x@),
{
    let mut r: Vec<ResourceRef> = Vec::new();
    let n = v.len();
    let mut i: usize = 0;
    while i < n
        invariant
            i <= n == v@.len(),
            r@.map_values(|x: ResourceRef| x@) == v@.subrange(0, i as int).map_values(
                |x: ResourceRef| x@,
            ),
        decreases n - i,
    {
        let ghost pre = r@.map_values(|x: ResourceRef| x@);
        r.push(v[i].duplicate());
        proof {
            assert(r@.map_values(|x: ResourceRef| x@) =~= pre.push(v@[i as int]@));
            assert(v@.subrange(0, i as int + 1).map_values(|x: ResourceRef| x@) =~= pre.push(
                v@[i as int]@,
            )) by {
                assert(v@.subrange(0, i as int).map_values(|x: ResourceRef| x@) == pre);
                assert(forall|m: int|
                    0 <= m < i as int + 1 ==> v@.subrange(0, i as int + 1)[m] == v@[m]);
            }
        }
        i += 1;
    }
    proof {
        assert(v@.subrange(0, n as int) =~= v@);
    }
    r
}

} // verus!
