//! Selection schemes for computing minimizers.

use vstd::prelude::*;

verus! {

/// A minimizer selection scheme.
pub trait MinimizerAlgorithm {

}

/// "Classic" minimizers: the k-mer itself is ranked over a window of
/// `width` k-mers.
pub struct Minimizer {}

impl MinimizerAlgorithm for Minimizer {

}

/// Mod-minimizers: a reduced `t`-mer is ranked over a wider window and the
/// winning position is folded back modulo the width.
pub struct ModMinimizer {}

impl MinimizerAlgorithm for ModMinimizer {

}

} // verus!
