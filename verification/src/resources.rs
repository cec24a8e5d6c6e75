//! The resource capability: identity (type, title, composite id) and the
//! target-state line. The registry maps canonical type names to constructors;
//! it is the closed set of resource kinds this library knows.

use crate::ast::{ExprV, PuppetExpr};
use crate::errors::PuppetError;
use crate::pstring::segs_text;
use vstd::prelude::*;
use vstd::string::StringExecFns;

verus! {

/// The target state a resource should be brought to during execution; the
/// execution itself is outside this library.
#[derive(Debug, Clone, Copy, PartialEq, Eq, Structural)]
pub enum Ensure {
    Present,
    Absent,
}

impl Default for Ensure {
    fn default() -> (r: Self)
        ensures
            r == Ensure::Present,
    {
        Ensure::Present
    }
}

/// The kind of a dependency edge: plain ordering, or ordering plus a
/// "dependent should react to a change" marker.
#[derive(Debug, Clone, Copy, PartialEq, Eq, Structural)]
pub enum Relation {
    Provide,
    Notify,
}

impl Relation {
    /// The arrow an edge kind renders to.
    pub open spec fn spec_symbol(self) -> Seq<char> {
        match self {
            Relation::Provide => seq!['-', '>'],
            Relation::Notify => seq!['~', '>'],
        }
    }

    pub fn symbol(&self) -> (r: &'static str)
        ensures
            r@ == self.spec_symbol(),
    {
        match self {
            Relation::Provide => {
                proof {
                    reveal_strlit("->");
                    assert("->"@ =~= seq!['-', '>']);
                }
                "->"
            },
            Relation::Notify => {
                proof {
                    reveal_strlit("~>");
                    assert("~>"@ =~= seq!['~', '>']);
                }
                "~>"
            },
        }
    }
}

/// The composite identity of a resource node: `Type[title]` over rendered
/// text.
pub open spec fn node_id_text(rtype: Seq<char>, title: Seq<char>) -> Seq<char> {
    rtype + seq!['['] + title + seq![']']
}

/// The line describing a state change.
pub open spec fn ensure_line(e: Ensure, title: Seq<char>) -> Seq<char> {
    match e {
        Ensure::Present => "Ensure present: "@ + title,
        Ensure::Absent => "Ensure absent: "@ + title,
    }
}

/// The capability set the graph engine sees of a resource: identify it and
/// describe bringing it to a target state. The description line is returned to
/// the caller, which may print it; this library performs no output.
pub trait Resource {
    /// The canonical type name.
    spec fn spec_rtype(&self) -> Seq<char>;

    /// The rendered title.
    spec fn spec_title(&self) -> Seq<char>;

    fn rtype(&self) -> (r: &'static str)
        ensures
            r@ == self.spec_rtype(),
    ;

    fn title(&self) -> (r: String)
        ensures
            r@ == self.spec_title(),
    ;

    fn ensure(&self, ensure: Ensure) -> (r: String)
        ensures
            r@ == ensure_line(ensure, self.spec_title()),
    ;

    fn id(&self) -> (r: String)
        ensures
            r@ == node_id_text(self.spec_rtype(), self.spec_title()),
    {
        let mut r = String::new().concat(self.rtype());
        crate::pstring::push_char(&mut r, '[');
        r.append(self.title().as_str());
        crate::pstring::push_char(&mut r, ']');
        proof {
            assert(r@ =~= node_id_text(self.spec_rtype(), self.spec_title()));
        }
        r
    }
}

/// A managed file.
#[derive(Debug, Clone)]
pub struct File {
    pub title: String,
}

impl Resource for File {
    open spec fn spec_rtype(&self) -> Seq<char> {
        "File"@
    }

    open spec fn spec_title(&self) -> Seq<char> {
        self.title@
    }

    fn rtype(&self) -> (r: &'static str) {
        "File"
    }

    fn title(&self) -> (r: String) {
        self.title.clone()
    }

    fn ensure(&self, ensure: Ensure) -> (r: String) {
        let mut r = match ensure {
            Ensure::Present => String::new().concat("Ensure present: "),
            Ensure::Absent => String::new().concat("Ensure absent: "),
        };
        r.append(self.title.as_str());
        proof {
            assert(r@ =~= ensure_line(ensure, self.spec_title()));
        }
        r
    }
}

/// An execution step.
#[derive(Debug, Clone)]
pub struct Exec {
    pub title: String,
}

impl Resource for Exec {
    open spec fn spec_rtype(&self) -> Seq<char> {
        "Exec"@
    }

    open spec fn spec_title(&self) -> Seq<char> {
        self.title@
    }

    fn rtype(&self) -> (r: &'static str) {
        "Exec"
    }

    fn title(&self) -> (r: String) {
        self.title.clone()
    }

    fn ensure(&self, ensure: Ensure) -> (r: String) {
        let mut r = match ensure {
            Ensure::Present => String::new().concat("Ensure present: "),
            Ensure::Absent => String::new().concat("Ensure absent: "),
        };
        r.append(self.title.as_str());
        proof {
            assert(r@ =~= ensure_line(ensure, self.spec_title()));
        }
        r
    }
}

/// A managed service.
#[derive(Debug, Clone)]
pub struct Service {
    pub title: String,
}

impl Resource for Service {
    open spec fn spec_rtype(&self) -> Seq<char> {
        "Service"@
    }

    open spec fn spec_title(&self) -> Seq<char> {
        self.title@
    }

    fn rtype(&self) -> (r: &'static str) {
        "Service"
    }

    fn title(&self) -> (r: String) {
        self.title.clone()
    }

    fn ensure(&self, ensure: Ensure) -> (r: String) {
        let mut r = match ensure {
            Ensure::Present => String::new().concat("Ensure present: "),
            Ensure::Absent => String::new().concat("Ensure absent: "),
        };
        r.append(self.title.as_str());
        proof {
            assert(r@ =~= ensure_line(ensure, self.spec_title()));
        }
        r
    }
}

/// A namespaced example kind, exercising `::` canonical names.
#[derive(Debug, Clone)]
pub struct FooBar {
    pub title: String,
}

impl Resource for FooBar {
    open spec fn spec_rtype(&self) -> Seq<char> {
        "Foo::Bar"@
    }

    open spec fn spec_title(&self) -> Seq<char> {
        self.title@
    }

    fn rtype(&self) -> (r: &'static str) {
        "Foo::Bar"
    }

    fn title(&self) -> (r: String) {
        self.title.clone()
    }

    fn ensure(&self, ensure: Ensure) -> (r: String) {
        let mut r = match ensure {
            Ensure::Present => String::new().concat("Ensure present: "),
            Ensure::Absent => String::new().concat("Ensure absent: "),
        };
        r.append(self.title.as_str());
        proof {
            assert(r@ =~= ensure_line(ensure, self.spec_title()));
        }
        r
    }
}

/// The canonical type names the registry knows.
pub open spec fn known_type(t: Seq<char>) -> bool {
    t == "File"@ || t == "Exec"@ || t == "Service"@ || t == "Foo::Bar"@
}

/// One node of the plan: the closed union of the registered resource kinds.
#[derive(Debug, Clone)]
pub enum ResourceNode {
    File(File),
    Exec(Exec),
    Service(Service),
    FooBar(FooBar),
}

impl ResourceNode {
    /// The canonical type name of the node.
    pub open spec fn spec_rtype(&self) -> Seq<char> {
        match self {
            ResourceNode::File(x) => x.spec_rtype(),
            ResourceNode::Exec(x) => x.spec_rtype(),
            ResourceNode::Service(x) => x.spec_rtype(),
            ResourceNode::FooBar(x) => x.spec_rtype(),
        }
    }

    /// The rendered title of the node.
    pub open spec fn spec_title(&self) -> Seq<char> {
        match self {
            ResourceNode::File(x) => x.spec_title(),
            ResourceNode::Exec(x) => x.spec_title(),
            ResourceNode::Service(x) => x.spec_title(),
            ResourceNode::FooBar(x) => x.spec_title(),
        }
    }

    /// The composite identity of the node.
    pub open spec fn spec_id(&self) -> Seq<char> {
        node_id_text(self.spec_rtype(), self.spec_title())
    }

    pub fn rtype(&self) -> (r: &'static str)
        ensures
            r@ == self.spec_rtype(),
    {
        match self {
            ResourceNode::File(x) => x.rtype(),
            ResourceNode::Exec(x) => x.rtype(),
            ResourceNode::Service(x) => x.rtype(),
            ResourceNode::FooBar(x) => x.rtype(),
        }
    }

    pub fn title(&self) -> (r: String)
        ensures
            r@ == self.spec_title(),
    {
        match self {
            ResourceNode::File(x) => x.title(),
            ResourceNode::Exec(x) => x.title(),
            ResourceNode::Service(x) => x.title(),
            ResourceNode::FooBar(x) => x.title(),
        }
    }

    pub fn id(&self) -> (r: String)
        ensures
            r@ == self.spec_id(),
    {
        match self {
            ResourceNode::File(x) => x.id(),
            ResourceNode::Exec(x) => x.id(),
            ResourceNode::Service(x) => x.id(),
            ResourceNode::FooBar(x) => x.id(),
        }
    }

    pub fn ensure(&self, ensure: Ensure) -> (r: String)
        ensures
            r@ == ensure_line(ensure, self.spec_title()),
    {
        match self {
            ResourceNode::File(x) => x.ensure(ensure),
            ResourceNode::Exec(x) => x.ensure(ensure),
            ResourceNode::Service(x) => x.ensure(ensure),
            ResourceNode::FooBar(x) => x.ensure(ensure),
        }
    }

    /// Construct a node from a canonical type name and a rendered title.
    /// Succeeds exactly on the registered type names.
    pub fn construct(rtype: &String, title: String) -> (r: Result<ResourceNode, PuppetError>)
        ensures
            match r {
                Ok(node) => {
                    &&& known_type(rtype@)
                    &&& node.spec_rtype() == rtype@
                    &&& node.spec_title() == title@
                },
                Err(e) => !known_type(rtype@) && (e matches PuppetError::UnknownType {
                    rtype: t,
                } && t@ == rtype@),
            },
    {
        if *rtype == "File".to_owned() {
            Ok(ResourceNode::File(File { title }))
        } else if *rtype == "Exec".to_owned() {
            Ok(ResourceNode::Exec(Exec { title }))
        } else if *rtype == "Service".to_owned() {
            Ok(ResourceNode::Service(Service { title }))
        } else if *rtype == "Foo::Bar".to_owned() {
            Ok(ResourceNode::FooBar(FooBar { title }))
        } else {
            Err(PuppetError::UnknownType { rtype: rtype.clone() })
        }
    }

    /// Construct a node from a resource declaration, rendering its title.
    /// A relation statement is rejected: only declarations name resources.
    pub fn try_from_expr(expr: &PuppetExpr) -> (r: Result<ResourceNode, PuppetError>)
        ensures
            match r {
                Ok(node) => expr@ matches ExprV::Res { rtype, title, .. } && known_type(rtype)
                    && node.spec_rtype() == rtype && node.spec_title() == segs_text(title),
                Err(e) => match expr@ {
                    ExprV::Res { rtype, .. } => !known_type(rtype) && (e
                        matches PuppetError::UnknownType { rtype: t } && t@ == rtype),
                    ExprV::Rel { .. } => e is ExpectedResource,
                },
            },
    {
        match expr {
            PuppetExpr::Resource { rtype, title, .. } => {
                ResourceNode::construct(rtype, title.to_text())
            },
            PuppetExpr::Relation { .. } => Err(PuppetError::ExpectedResource),
        }
    }
}

} // verus!
