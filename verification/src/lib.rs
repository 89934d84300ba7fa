//! Selection of the `k` nearest among a large, unordered set of points.
//!
//! The selection never looks at a point. It sees a candidate, a
//! [`candidate::DistancePoint`]: the rank of the point's distance to the
//! query, and a handle by which the caller finds the point again. Ranks are
//! integers; [`key::distance_key`] ranks a distance given as the bits of a
//! double, and gives a distance that is not a number the last rank.
//!
//! Two strategies make the same selection. [`partition::select_partition`]
//! reorders the whole buffer around its `k`-th entry and cuts it off there.
//! [`streaming::select_streaming`] offers each candidate once to a
//! [`heap::BoundedHeap`] of at most `k`. [`select::select_closest`] takes
//! the strategy as an argument, and [`select::closest_positions`] works from
//! the keys of the points to the places of the nearest.
//!
//! What a selection is, is said once, in [`candidate::closest_of`]: as many
//! candidates as were asked for, or all where there are fewer; each taken
//! from the candidates; none left behind that is nearer than one taken.
//! Among candidates at the same distance the choice is free, and the
//! selection comes out in no particular order. [`laws`] holds what follows
//! for every selection, whichever strategy made it.

pub mod buffer;
pub mod candidate;
pub mod counting;
pub mod heap;
pub mod key;
pub mod laws;
pub mod partition;
pub mod select;
pub mod streaming;
