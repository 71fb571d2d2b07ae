//! Translation of SubC syntax trees into process-calculus scripts.
//!
//! A compilation unit is handed over as the sequence of its nodes in the
//! order in which a depth-first walk leaves them. Each node's rule reads the
//! fragments of its children and stores its own; the compilation unit's rule
//! emits the script.

pub mod text;
pub mod error;
pub mod tree;
pub mod model;
pub mod subc2pv;
pub mod laws;
pub mod lut;

pub use crate::error::{ErrorKind, MalformedConfiguration, TranslateError};
pub use crate::lut::LookupTable;

pub use crate::subc2pv::{hash_code, translate, SubC2PVListener};
pub use crate::tree::{AssignmentOperator, Rule, RuleKind, SyntaxNode};
