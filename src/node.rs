use vstd::prelude::*;
use crate::loc::Lines;

verus! {

/// The list of supported space kinds.
#[derive(Debug, Clone, Copy, PartialEq, Eq, Structural)]
pub enum SpaceKind {
    /// An unknown space
    Unknown,
    /// A function space
    Function,
    /// A class space
    Class,
    /// A struct space
    Struct,
    /// A `Rust` trait space
    Trait,
    /// A `Rust` implementation space
    Impl,
    /// A general space
    Unit,
    /// A `C/C++` namespace
    Namespace,
}

/// The lower-case name of each kind.
pub open spec fn kind_name(k: SpaceKind) -> Seq<char> {
    match k {
        SpaceKind::Unknown => "unknown"@,
        SpaceKind::Function => "function"@,
        SpaceKind::Class => "class"@,
        SpaceKind::Struct => "struct"@,
        SpaceKind::Trait => "trait"@,
        SpaceKind::Impl => "impl"@,
        SpaceKind::Unit => "unit"@,
        SpaceKind::Namespace => "namespace"@,
    }
}

impl SpaceKind {
    /// The lower-case name of this kind.
    pub fn as_str(&self) -> (r: &'static str)
        ensures
            r@ == kind_name(*self),
    {
        proof {
            reveal_strlit("unknown");
            reveal_strlit("function");
            reveal_strlit("class");
            reveal_strlit("struct");
            reveal_strlit("trait");
            reveal_strlit("impl");
            reveal_strlit("unit");
            reveal_strlit("namespace");
        }
        match self {
            SpaceKind::Unknown => "unknown",
            SpaceKind::Function => "function",
            SpaceKind::Class => "class",
            SpaceKind::Struct => "struct",
            SpaceKind::Trait => "trait",
            SpaceKind::Impl => "impl",
            SpaceKind::Unit => "unit",
            SpaceKind::Namespace => "namespace",
        }
    }
}

/// What a language's metric hooks report for one node.
#[derive(Debug, Clone, Copy, PartialEq, Eq)]
pub struct NodeCounts {
    /// Arguments of a function declared here.
    pub fn_args: usize,
    /// Arguments of a closure declared here.
    pub closure_args: usize,
    /// Exit points of functions found here.
    pub fn_exits: usize,
    /// Exit points of closures found here.
    pub closure_exits: usize,
    /// Decision points found here.
    pub cyclomatic: usize,
    /// Functions declared here.
    pub functions: usize,
    /// Closures declared here.
    pub closures: usize,
    /// Lines attributed to this node.
    pub lines: Lines,
}

impl NodeCounts {
    /// A node that no hook counts.
    pub fn zero() -> (r: NodeCounts)
        ensures
            r == (NodeCounts {
                fn_args: 0,
                closure_args: 0,
                fn_exits: 0,
                closure_exits: 0,
                cyclomatic: 0,
                functions: 0,
                closures: 0,
                lines: Lines { sloc: 0, ploc: 0, lloc: 0, cloc: 0, blank: 0 },
            }),
    {
        NodeCounts {
            fn_args: 0,
            closure_args: 0,
            fn_exits: 0,
            closure_exits: 0,
            cyclomatic: 0,
            functions: 0,
            closures: 0,
            lines: Lines::zero(),
        }
    }
}

/// A syntax-tree node as a language adapter classifies it.
///
/// A tree is handed over as its nodes in document (pre-order) order, each
/// with its depth: the root has depth 0 and each child one more than its
/// parent.
#[derive(Debug, Clone)]
pub struct Node {
    /// Depth in the syntax tree.
    pub depth: usize,
    /// Whether the node opens a space (function, closure, class, struct,
    /// trait, impl, namespace or unit).
    pub opens_space: bool,
    /// The kind of space the node opens.
    pub kind: SpaceKind,
    /// The name of the space it opens, when the adapter resolves one.
    pub name: Option<String>,
    /// Zero-based first row.
    pub start_row: usize,
    /// Zero-based last row.
    pub end_row: usize,
    /// Number of children in the syntax tree.
    pub child_count: usize,
    /// The counts of the metric hooks.
    pub counts: NodeCounts,
    /// Operator identities met at this node.
    pub operators: Vec<u16>,
    /// Operand texts met at this node.
    pub operands: Vec<Vec<u8>>,
}

} // verus!
