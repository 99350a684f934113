//! Lists compared without regard to order.

pub mod candidates;
pub mod coerce;
pub mod dict_keys;
pub mod digest;
pub mod distance;
pub mod fxhash;
pub mod hash;
pub mod identified;
pub mod keys;
pub mod length;
pub mod members;
pub mod memo;
pub mod numeric;
pub mod pairing;
pub mod rearranged;
pub mod replayed;
pub mod resolver;
pub mod unordered;
