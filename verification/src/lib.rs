//! Iterators over the combinations of a set of elements, with and without replacement.
pub mod combinations;
pub mod combinations_with_replacement;
pub mod laws;
pub mod counting;
pub mod lex;
pub mod runs;
pub mod sorted_set;

pub use sorted_set::iterable_to_sorted_set;
pub use combinations::Combinations;
pub use combinations_with_replacement::CombinationsWithReplacement;
