//! The syntax tree that the metrics are read off: a tree of nodes, each of
//! one of a fixed set of kinds.

use vstd::prelude::*;

verus! {

/// The declared visibility of an item.
#[derive(Clone, Copy, Debug, PartialEq, Eq)]
pub enum Visibility {
    /// `pub`
    Public,
    /// `crate`
    Crate,
    /// `pub(..)` with a restriction
    Restricted,
    /// Nothing written.
    Inherited,
}

impl Visibility {
    /// Only a plain `pub` makes an item public.
    pub open spec fn spec_is_public(self) -> bool {
        self is Public
    }

    #[verifier::when_used_as_spec(spec_is_public)]
    pub fn is_public(self) -> (r: bool)
        ensures
            r == self.spec_is_public(),
    {
        match self {
            Visibility::Public => true,
            _ => false,
        }
    }
}

/// The type that an implementation block is written for.
#[derive(Debug)]
pub enum ImplTarget {
    /// A path such as `a::T`, by the identifiers of its segments; `generic`
    /// tells whether a segment carries generic arguments.
    Path { segments: Vec<String>, generic: bool },
    /// Any other type: a tuple, a reference, a slice, ...
    Other,
}

impl ImplTarget {
    /// The identifier under which the block's members are counted: the
    /// first segment of a path without generic arguments. No other target
    /// has one.
    pub open spec fn simple_name(self) -> Option<Seq<char>> {
        match self {
            ImplTarget::Path { segments, generic } => if !generic && segments.len() > 0 {
                Some(segments[0]@)
            } else {
                None
            },
            ImplTarget::Other => None,
        }
    }

    pub fn name(&self) -> (r: Option<&String>)
        ensures
            r is Some <==> self.simple_name() is Some,
            r matches Some(s) ==> self.simple_name() == Some(s@),
    {
        match self {
            ImplTarget::Path { segments, generic } => if !*generic && segments.len() > 0 {
                Some(&segments[0])
            } else {
                None
            },
            ImplTarget::Other => None,
        }
    }
}

/// A module declaration: `mod x { .. }`, or `mod x;`, whose body is in
/// another file.
#[derive(Debug)]
pub struct ModuleReference {
    pub identifier: String,
    pub has_inline_body: bool,
}

/// What a node of the syntax tree is.
#[derive(Debug)]
pub enum Kind {
    /// A function item, wherever it stands. Its children are its body.
    Function { identifier: String },
    /// A function in an implementation block. Its children are its body.
    Method { identifier: String, visibility: Visibility },
    /// A closure expression.
    Closure,
    /// An implementation block. Its members are among its children.
    Impl { target: ImplTarget },
    /// A module declaration. The children are the inline body, if any.
    Module(ModuleReference),
    /// An `if` expression: condition, branch and what follows `else` are
    /// among its children.
    If { has_else: bool },
    /// A `match` expression. Its arms are among its children.
    Match,
    /// One arm of a `match`.
    Arm { guarded: bool },
    /// `loop`, `while` or `for`.
    Loop,
    /// Anything else.
    Other,
}

/// A node of a syntax tree, or a whole file (a node of kind `Other` whose
/// children are the items).
#[derive(Debug)]
pub struct Node {
    pub kind: Kind,
    pub children: Vec<Node>,
}

impl Node {
    pub fn new(kind: Kind, children: Vec<Node>) -> (r: Node)
        ensures
            r.kind == kind,
            r.children == children,
    {
        Node { kind, children }
    }
}

} // verus!
