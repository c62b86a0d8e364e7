//! Function-space extraction and per-scope complexity metrics.
//!
//! A syntax tree, handed over as its nodes in document order with their
//! depths and what a language adapter reports of each, is turned into a
//! tree of spaces (functions, closures, classes, the whole file), each
//! carrying metrics cumulated over its subtree.
pub mod node;
pub mod nexits;
pub mod nargs;
pub mod nom;
pub mod cyclomatic;
pub mod loc;
pub mod halstead;
pub mod mi;
pub mod selection;
pub mod spaces;
pub mod shape;
pub mod ops;

pub use loc::Lines;
pub use node::{Node, NodeCounts, SpaceKind};
pub use ops::{operands_and_operators, Ops, OpsCfg, OpsCode};
pub use selection::{ChosenMetrics, MetricsList};
pub use spaces::{metrics, CodeMetrics, FuncSpace, Metrics, MetricsCfg};
