//! Minimizer sampling over nucleotide sequences: for every window of
//! `width` consecutive k-mers, the position (and optionally the packed
//! value and strand) of the smallest k-mer under a configurable order,
//! with classic and mod-sampling schemes and a strand-canonical mode.

pub mod algorithm;
pub mod builder;
pub mod encoding;
pub mod kmer;
pub mod minimizer;
pub mod mod_sampling;
pub mod model;
pub mod order;
pub mod queue;
pub mod select;

pub use algorithm::{Minimizer, MinimizerAlgorithm, ModMinimizer};
pub use builder::MinimizerBuilder;
pub use minimizer::{
    CanonicalMinimizerIterator, CanonicalMinimizerPosIterator, MinimizerIterator,
    MinimizerPosIterator,
};
pub use mod_sampling::{
    CanonicalModSamplingIterator, CanonicalModSamplingPosIterator, ModSamplingIterator,
    ModSamplingPosIterator,
};
pub use order::KeyOrder;
