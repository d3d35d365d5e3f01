//! References to the entries of a table.

use vstd::prelude::*;

verus! {

/// Which version of a value a reference asks for.
#[derive(Clone, Copy, Debug, PartialEq, Eq, Structural)]
pub enum ValueVersion {
    /// The newest one.
    Latest,
}

/// A reference to one entry of a table.
#[derive(Debug)]
pub struct Field {
    pub table_id: String,
    pub select_id: String,
    pub table_node: Option<String>,
    pub version: ValueVersion,
}

} // verus!
