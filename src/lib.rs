//! Seed-to-location translation: a chain of interval maps applied to seed
//! identifiers, the grammar of the almanac text that describes them, and the
//! search for the lowest location.

pub mod parse;
pub mod resolve;
pub mod solve;

pub use parse::{is_almanac, parse, Seeds};
pub use resolve::{IntervalMap, MapSection};
pub use solve::{part_one, part_two, seeds_pair_up};
