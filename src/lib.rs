//! Keyed list reconciliation: the diff that brings a rendered, keyed list in
//! line with a new sequence of items, with a minimal number of node moves, and
//! the cell through which a rendered node is reached after mount.
mod chain;
mod keyed;
mod noderef;
mod reconcile;
mod script;

pub use chain::{count_true, is_chain, longest_chain};
pub use keyed::{created_mask, KeyedList, ScopeArena};
pub use noderef::NodeRef;
pub use reconcile::{dedup_keys, first_occurrences, old_positions, op_fits, reconcile, retained_mask};
pub use script::Op;
