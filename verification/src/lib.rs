//! An in-memory bill tracker: a store that maps bill names to ordered
//! histories of amounts, with operations to add an amount, list the
//! stored histories, remove a name outright, or undo the most recent
//! addition for a name.

pub mod menu;
pub mod store;
