//! Rendering a manifest back to text. The layout is fixed so that rendering a
//! parsed manifest yields text the grammar accepts again: titles and
//! attribute values are double-quoted, variables render as `${name}`, and
//! relation sides render as bracketed reference lists.

use crate::ast::{AttrV, Attribute, ExprV, Manifest, PuppetExpr, RefV, RelationOp, ResourceRef};
use crate::pstring::{segs_text, PuppetString, SegV};
use vstd::prelude::*;
use vstd::string::StringExecFns;

verus! {

/// A double-quoted rendering of an interpolated string.
pub open spec fn quote_text(ss: Seq<SegV>) -> Seq<char> {
    seq!['"'] + segs_text(ss) + seq!['"']
}

/// The text of one attribute: ` name => "value",`.
pub open spec fn attr_text(a: AttrV) -> Seq<char> {
    seq![' '] + a.name + " => "@ + quote_text(a.value) + seq![',']
}

/// The texts of an attribute list, in order.
pub open spec fn attrs_text(attrs: Seq<AttrV>) -> Seq<char>
    decreases attrs.len(),
{
    if attrs.len() == 0 {
        Seq::empty()
    } else {
        attr_text(attrs[0]) + attrs_text(attrs.drop_first())
    }
}

/// The text of one reference: `Type["title"]`.
pub open spec fn ref_text(r: RefV) -> Seq<char> {
    r.rtype + seq!['['] + quote_text(r.title) + seq![']']
}

/// The comma-separated texts of a reference list.
pub open spec fn refs_text(rs: Seq<RefV>) -> Seq<char>
    decreases rs.len(),
{
    if rs.len() == 0 {
        Seq::empty()
    } else if rs.len() == 1 {
        ref_text(rs[0])
    } else {
        ref_text(rs[0]) + ", "@ + refs_text(rs.drop_first())
    }
}

/// The text of one expression: a declaration `type { "title": attrs }`, or a
/// relation `[refs] op [refs]`.
pub open spec fn expr_text(e: ExprV) -> Seq<char> {
    match e {
        ExprV::Res { rtype, title, attrs } => rtype + " { "@ + quote_text(title) + seq![':']
            + attrs_text(attrs) + " }"@,
        ExprV::Rel { from, to, op } => seq!['['] + refs_text(from) + "] "@ + op.spec_text()
            + " ["@ + refs_text(to) + seq![']'],
    }
}

/// The text of a whole manifest: each expression on its own line.
pub open spec fn manifest_text(es: Seq<ExprV>) -> Seq<char>
    decreases es.len(),
{
    if es.len() == 0 {
        Seq::empty()
    } else {
        expr_text(es[0]) + seq!['\n'] + manifest_text(es.drop_first())
    }
}

/// Append a double-quoted rendering of an interpolated string.
fn push_quoted(r: &mut String, s: &PuppetString)
    ensures
        final(r)@ == old(r)@ + quote_text(s@),
{
    crate::pstring::push_char(r, '"');
    r.append(s.to_text().as_str());
    crate::pstring::push_char(r, '"');
    proof {
        assert(r@ =~= old(r)@ + quote_text(s@));
    }
}

/// Append the comma-separated texts of a reference list.
fn push_refs(r: &mut String, rs: &Vec<ResourceRef>)
    ensures
        final(r)@ == old(r)@ + refs_text(crate::parse::refs_view(rs@)),
{
    let ghost rv = crate::parse::refs_view(rs@);
    let ghost base = old(r)@;
    let n = rs.len();
    let mut k: usize = 0;
    while k < n
        invariant
            k <= n == rs@.len(),
            rv == crate::parse::refs_view(rs@),
            base == old(r)@,
            k == 0 ==> r@ == base,
            1 <= k < n ==> base + refs_text(rv) == r@ + ", "@ + refs_text(rv.skip(k as int)),
            k == n ==> r@ == base + refs_text(rv),
        decreases n - k,
    {
        let ghost pre = r@;
        let ghost tail = rv.skip(k as int);
        proof {
            assert(tail[0] == rv[k as int]);
            assert(tail.drop_first() =~= rv.skip(k as int + 1));
        }
        if k > 0 {
            r.append(", ");
        }
        r.append(rs[k].rtype.as_str());
        crate::pstring::push_char(r, '[');
        push_quoted(r, &rs[k].title);
        crate::pstring::push_char(r, ']');
        proof {
            if k == 0 {
                assert(r@ =~= pre + ref_text(rv[0]));
                if n == 1 {
                    assert(refs_text(rv) == ref_text(rv[0]));
                    assert(rv.skip(0) =~= rv);
                    assert(r@ =~= base + refs_text(rv));
                } else {
                    assert(rv.skip(0) =~= rv);
                    assert(refs_text(rv) == ref_text(rv[0]) + ", "@ + refs_text(rv.skip(1)));
                    assert(base + refs_text(rv) =~= r@ + ", "@ + refs_text(rv.skip(1)));
                }
            } else {
                assert(r@ =~= pre + ", "@ + ref_text(rv[k as int]));
                if k + 1 == n {
                    assert(tail.len() == 1);
                    assert(refs_text(tail) == ref_text(tail[0]));
                    assert(base + refs_text(rv) =~= r@);
                } else {
                    assert(tail.len() >= 2);
                    assert(refs_text(tail) == ref_text(tail[0]) + ", "@ + refs_text(
                        tail.drop_first(),
                    ));
                    assert(base + refs_text(rv) =~= r@ + ", "@ + refs_text(
                        rv.skip(k as int + 1),
                    ));
                }
            }
        }
        k += 1;
    }
    proof {
        if n == 0 {
            assert(refs_text(rv) =~= Seq::<char>::empty());
            assert(r@ =~= base + refs_text(rv));
        }
    }
}

impl RelationOp {
    /// The arrow an operator renders to.
    pub fn to_text(&self) -> (r: &'static str)
        ensures
            r@ == self.spec_text(),
    {
        match self {
            RelationOp::Provide => {
                proof {
                    reveal_strlit("->");
                    assert("->"@ =~= seq!['-', '>']);
                }
                "->"
            },
            RelationOp::Require => {
                proof {
                    reveal_strlit("<-");
                    assert("<-"@ =~= seq!['<', '-']);
                }
                "<-"
            },
            RelationOp::Notify => {
                proof {
                    reveal_strlit("~>");
                    assert("~>"@ =~= seq!['~', '>']);
                }
                "~>"
            },
            RelationOp::Subscribe => {
                proof {
                    reveal_strlit("<~");
                    assert("<~"@ =~= seq!['<', '~']);
                }
                "<~"
            },
        }
    }
}

impl PuppetExpr {
    /// Render one expression in the fixed layout.
    pub fn to_text(&self) -> (r: String)
        ensures
            r@ == expr_text(self@),
    {
        match self {
            PuppetExpr::Resource { rtype, title, attributes } => {
                let ghost av = attributes@.map_values(|a: Attribute| a@);
                let mut r = rtype.clone();
                r.append(" { ");
                push_quoted(&mut r, title);
                crate::pstring::push_char(&mut r, ':');
                let ghost mid = r@;
                let n = attributes.len();
                let mut k: usize = 0;
                proof {
                    assert(av.skip(0) =~= av);
                    assert(r@ + attrs_text(av.skip(0)) =~= mid + attrs_text(av));
                }
                while k < n
                    invariant
                        k <= n == attributes@.len(),
                        av == attributes@.map_values(|a: Attribute| a@),
                        r@ + attrs_text(av.skip(k as int)) == mid + attrs_text(av),
                    decreases n - k,
                {
                    let ghost pre = r@;
                    let ghost tail = av.skip(k as int);
                    proof {
                        assert(tail[0] == av[k as int]);
                        assert(tail.drop_first() =~= av.skip(k as int + 1));
                    }
                    let a = &attributes[k];
                    crate::pstring::push_char(&mut r, ' ');
                    r.append(a.name.as_str());
                    r.append(" => ");
                    push_quoted(&mut r, &a.value);
                    crate::pstring::push_char(&mut r, ',');
                    proof {
                        assert(r@ =~= pre + attr_text(av[k as int]));
                        assert(r@ + attrs_text(av.skip(k as int + 1)) =~= mid + attrs_text(av));
                    }
                    k += 1;
                }
                proof {
                    assert(av.skip(n as int) =~= Seq::<AttrV>::empty());
                    assert(r@ =~= mid + attrs_text(av));
                }
                r.append(" }");
                proof {
                    assert(r@ =~= expr_text(self@));
                }
                r
            },
            PuppetExpr::Relation { from, to, op } => {
                let mut r = String::new();
                crate::pstring::push_char(&mut r, '[');
                push_refs(&mut r, from);
                r.append("] ");
                r.append(op.to_text());
                r.append(" [");
                push_refs(&mut r, to);
                crate::pstring::push_char(&mut r, ']');
                proof {
                    assert(r@ =~= expr_text(self@));
                }
                r
            },
        }
    }
}

impl Manifest {
    /// Render the whole manifest, each expression on its own line.
    pub fn to_text(&self) -> (r: String)
        ensures
            r@ == manifest_text(self@),
    {
        let ghost ev = self@;
        let mut r = String::new();
        let n = self.0.len();
        let mut k: usize = 0;
        proof {
            assert(ev.skip(0) =~= ev);
            assert(r@ + manifest_text(ev.skip(0)) =~= manifest_text(ev));
        }
        while k < n
            invariant
                k <= n == self.0@.len(),
                ev == self@,
                r@ + manifest_text(ev.skip(k as int)) == manifest_text(ev),
            decreases n - k,
        {
            let ghost pre = r@;
            let ghost tail = ev.skip(k as int);
            proof {
                assert(tail[0] == ev[k as int]);
                assert(tail.drop_first() =~= ev.skip(k as int + 1));
            }
            r.append(self.0[k].to_text().as_str());
            crate::pstring::push_char(&mut r, '\n');
            proof {
                assert(r@ =~= pre + (expr_text(ev[k as int]) + seq!['\n']));
                assert(r@ + manifest_text(ev.skip(k as int + 1)) =~= manifest_text(ev));
            }
            k += 1;
        }
        proof {
            assert(ev.skip(n as int) =~= Seq::<ExprV>::empty());
            assert(r@ =~= manifest_text(ev));
        }
        r
    }
}

} // verus!
