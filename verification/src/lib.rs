//! Data-access core of a personal finance tracker.
//!
//! The store keeps a three-level hierarchy: categories own subcategories,
//! subcategories own financial operations. Category names are unique,
//! subcategory names are unique within their category, every child row
//! references an existing parent, and deleting a parent cascades to all
//! of its descendants. Operations are kept ordered by date descending,
//! ties broken by identifier descending.

use vstd::prelude::*;

pub mod filter;
pub mod order;
pub mod store;

verus! {

/// A spending category, the root of the hierarchy.
#[derive(Debug, Clone)]
pub struct Category {
    pub id: usize,
    pub name: String,
}

/// A subdivision of a category.
#[derive(Debug, Clone)]
pub struct Subcategory {
    pub id: usize,
    pub category_id: usize,
    pub name: String,
}

/// A single financial operation: an amount, in the smallest currency
/// unit, booked on a calendar date under a subcategory.
#[derive(Debug, Clone)]
pub struct Operation {
    pub id: usize,
    pub subcategory_id: usize,
    pub date: String,
    pub value: u64,
}

impl Category {
    /// A copy whose fields carry the same values.
    pub fn duplicate(&self) -> (r: Category)
        ensures
            r.id == self.id,
            r.name@ == self.name@,
    {
        Category { id: self.id, name: self.name.clone() }
    }
}

impl Subcategory {
    /// A copy whose fields carry the same values.
    pub fn duplicate(&self) -> (r: Subcategory)
        ensures
            r.id == self.id,
            r.category_id == self.category_id,
            r.name@ == self.name@,
    {
        Subcategory { id: self.id, category_id: self.category_id, name: self.name.clone() }
    }
}

impl Operation {
    /// A copy whose fields carry the same values.
    pub fn duplicate(&self) -> (r: Operation)
        ensures
            r.id == self.id,
            r.subcategory_id == self.subcategory_id,
            r.date@ == self.date@,
            r.value == self.value,
    {
        Operation {
            id: self.id,
            subcategory_id: self.subcategory_id,
            date: self.date.clone(),
            value: self.value,
        }
    }
}

} // verus!
