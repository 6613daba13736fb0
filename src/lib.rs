//! A bidirectional ordered map: a one-to-one correspondence between values of
//! two ordered types, searchable from either side.
pub mod layout;
pub mod order;
pub mod two_way_map;

pub use order::{above, below, precedes, total_order, within};
pub use two_way_map::{IntoIter, RefIter, TwoWayMap};
