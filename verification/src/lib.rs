//! Exhaustive enumeration of the round trips through a set of towns:
//! stepping a sequence through its arrangements in lexical order, the
//! key under which a tour and its reverse are one route, the distances
//! that a round trip adds up, and the records of an enumeration.

pub mod aggregate;
pub mod distance;
pub mod driver;
pub mod factorial;
pub mod key;
pub mod length;
pub mod lexical;
pub mod order;
pub mod permutation;
pub mod rank;
pub mod sweep;
pub mod tour;

pub use aggregate::Aggregator;
pub use distance::make_dist_mat;
pub use driver::enumerate;
pub use driver::Enumeration;
pub use driver::InstanceTooLarge;
pub use driver::Phase;
pub use factorial::checked_factorial;
pub use factorial::factorial;
pub use key::checked_tour_as_key;
pub use key::tour_as_key;
pub use length::calc_tour_length;
pub use length::round_trip_terms;
pub use permutation::LexicalPermutation;
