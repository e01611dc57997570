//! An in-memory columnar data engine: typed, nullable columns gathered in stores, cheap
//! filtered and sorted views over them, and merges and joins across views.
//!
//! - `masked`: the missing-value type `MaybeNa` and the masked data vector behind a column.
//! - `field`: field identifiers, column kinds, and the value types columns hold.
//! - `order`: the column order and the stable sort order of a column.
//! - `store`: `DataStore`, the owner of a table's columns.
//! - `frame`: `DataFrame`, a shared store plus a private row permutation.
//! - `view`: `DataView`, a logical table over frames (subview, rename, merge, filter, sort).
//! - `join`: the sort-merge and cross join engine.
//! - `stats`: counts and extrema of a column.
//! - `cons`: a small heterogeneous list.
pub mod cons;
pub mod error;
pub mod field;
pub mod frame;
pub mod join;
pub mod masked;
pub mod order;
pub mod stats;
pub mod store;
pub mod view;
