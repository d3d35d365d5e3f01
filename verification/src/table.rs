//! The catalog that the tree is built from.

use vstd::prelude::*;

verus! {

/// One entry of the catalog.
#[derive(Debug)]
pub struct Select {
    /// The identifier, such as `IAB3-Sedans`.
    pub id: String,
    /// The label under which the entry is listed in its category.
    pub label: String,
}

/// A catalog: its own identifier and its entries.
#[derive(Debug)]
pub struct Table {
    pub id: String,
    pub selects: Vec<Select>,
}

} // verus!
