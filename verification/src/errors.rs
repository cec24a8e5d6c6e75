//! The distinct, inspectable error values of manifest compilation.

use crate::pstring::{segs_text, PuppetString, SegV};
use vstd::prelude::*;

verus! {

/// Ghost model of a compilation error.
pub enum ErrV {
    /// The text does not match the grammar.
    Syntax,
    /// A relation references a resource that no declaration provides.
    UndefinedReference { rtype: Seq<char>, title: Seq<SegV> },
    /// A declared resource's canonical type name has no registered constructor.
    UnknownType { rtype: Seq<char> },
    /// Inserting the edge `from -> to` would create a cycle.
    Cycle { from: Seq<char>, to: Seq<char> },
    /// An edge endpoint is missing from the graph: a broken internal
    /// invariant, since validation should have rejected the reference.
    MissingResource { id: Seq<char> },
    /// A relation statement was handed where a resource declaration was
    /// expected: a caller error, not a manifest error.
    ExpectedResource,
}

/// A compilation error: syntax, validation, registry, or graph admission.
#[derive(Debug)]
pub enum PuppetError {
    Syntax,
    UndefinedReference { rtype: String, title: PuppetString },
    UnknownType { rtype: String },
    Cycle { from: String, to: String },
    MissingResource { id: String },
    ExpectedResource,
}

impl View for PuppetError {
    type V = ErrV;

    open spec fn view(&self) -> ErrV {
        match self {
            PuppetError::Syntax => ErrV::Syntax,
            PuppetError::UndefinedReference { rtype, title } => ErrV::UndefinedReference {
                rtype: rtype@,
                title: title@,
            },
            PuppetError::UnknownType { rtype } => ErrV::UnknownType { rtype: rtype@ },
            PuppetError::Cycle { from, to } => ErrV::Cycle { from: from@, to: to@ },
            PuppetError::MissingResource { id } => ErrV::MissingResource { id: id@ },
            PuppetError::ExpectedResource => ErrV::ExpectedResource,
        }
    }
}

/// The report text of an error.
pub open spec fn err_text(e: ErrV) -> Seq<char> {
    match e {
        ErrV::Syntax => "Syntax error: the text does not match the manifest grammar"@,
        ErrV::UndefinedReference { rtype, title } => "Undefined resource reference: "@ + rtype
            + seq!['[', '\''] + segs_text(title) + seq!['\'', ']'],
        ErrV::UnknownType { rtype } => "unknown rtype: "@ + rtype,
        ErrV::Cycle { from, to } => "Error creating edge in acyclic graph: "@ + from + seq![
            ' ',
        ] + to,
        ErrV::MissingResource { id } => "Unknown resource: "@ + id,
        ErrV::ExpectedResource => "Expected a resource declaration, got a relation"@,
    }
}

impl PuppetError {
    /// Render the error for reporting.
    pub fn message(&self) -> (r: String)
        ensures
            r@ == err_text(self@),
    {
        match self {
            PuppetError::Syntax => {
                let r = String::new().concat(
                    "Syntax error: the text does not match the manifest grammar",
                );
                proof {
                    assert(r@ =~= err_text(self@));
                }
                r
            },
            PuppetError::UndefinedReference { rtype, title } => {
                let mut r = String::new().concat("Undefined resource reference: ");
                r.append(rtype.as_str());
                crate::pstring::push_char(&mut r, '[');
                crate::pstring::push_char(&mut r, '\'');
                r.append(title.to_text().as_str());
                crate::pstring::push_char(&mut r, '\'');
                crate::pstring::push_char(&mut r, ']');
                proof {
                    assert(r@ =~= err_text(self@));
                }
                r
            },
            PuppetError::UnknownType { rtype } => {
                let mut r = String::new().concat("unknown rtype: ");
                r.append(rtype.as_str());
                proof {
                    assert(r@ =~= err_text(self@));
                }
                r
            },
            PuppetError::Cycle { from, to } => {
                let mut r = String::new().concat("Error creating edge in acyclic graph: ");
                r.append(from.as_str());
                crate::pstring::push_char(&mut r, ' ');
                r.append(to.as_str());
                proof {
                    assert(r@ =~= err_text(self@));
                }
                r
            },
            PuppetError::MissingResource { id } => {
                let mut r = String::new().concat("Unknown resource: ");
                r.append(id.as_str());
                proof {
                    assert(r@ =~= err_text(self@));
                }
                r
            },
            PuppetError::ExpectedResource => {
                let r = String::new().concat(
                    "Expected a resource declaration, got a relation",
                );
                proof {
                    assert(r@ =~= err_text(self@));
                }
                r
            },
        }
    }
}

} // verus!
