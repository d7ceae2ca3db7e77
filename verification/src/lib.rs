//! A chunked double-ended queue: a growable sequence container built from
//! fixed-capacity blocks linked at both ends, giving amortized O(1) push and
//! pop on either side without ever copying the backing store on growth.

pub mod deque;
pub mod model;
