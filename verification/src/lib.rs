//! Merging of inventories: lists of quantities, each under a name.
//!
//! An inventory is a `Vec` of items, an item a pair of a quantity and a name.
//! Two functions merge a current inventory with an incoming one into an
//! inventory in ascending order of the names:
//!
//! - [`update_inventory_sort_first`] sorts both and walks them side by side.
//!   An item of the one and an item of the other under the same name become
//!   one item with the sum of the two quantities. Items that share a name
//!   within one inventory are not added to each other.
//! - [`update_inventory`] adds up all the quantities under a name, within an
//!   inventory as well as across the two.
//!
//! The two agree on inventories that each hold no name twice. Names are
//! ordered by code point, and quantities are added as `i32::wrapping_add`
//! adds them, so that every pair of inventories has a merge.
//!
//! The contracts are stated over the [`lines`] of an inventory; the module
//! [`laws`] holds what follows from them for every merge.

pub mod accumulating;
pub mod laws;
pub mod lines;
pub mod merging;
pub mod names;
pub mod sorting;

pub use accumulating::update_inventory;
pub use merging::update_inventory_sort_first;
