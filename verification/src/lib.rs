//! A packed memory array: a sorted, array-backed set of keys that keeps
//! deliberate gaps between elements, so that an insertion or deletion near
//! an existing key only shifts a short run of neighbours, while lookup
//! remains a binary search.
pub mod pma;
pub mod slots;
pub mod util;
