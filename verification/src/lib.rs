//! Analysis and optimization of keyboard layouts: the keys of a layout, the
//! motions that sequences of keys make, the n-grams of a corpus found on a
//! layout, and the search for a layout that scores lower.
pub mod layout;
pub mod ngrams;
pub mod swaps;
pub mod random;
pub mod analyzer;
pub mod scoring;
pub mod optimizer;
pub mod level;
