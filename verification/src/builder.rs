//! A builder for iterators over minimizers.

use crate::algorithm::{Minimizer, MinimizerAlgorithm, ModMinimizer};
use crate::encoding::{default_encoding, enc_wf, encoding_with};
use crate::minimizer::{
    CanonicalMinimizerIterator, CanonicalMinimizerPosIterator, MinimizerIterator,
    MinimizerPosIterator,
};
use crate::mod_sampling::{
    CanonicalModSamplingIterator, CanonicalModSamplingPosIterator, ModSamplingIterator,
    ModSamplingPosIterator,
};
use crate::order::KeyOrder;
use vstd::prelude::*;

verus! {

/// Smallest reduced length used by mod-sampling.
pub const R: usize = 4;

/// A builder for iterators over minimizers: selects the k-mer length, the
/// window width, the key order, the base encoding, the scheme and whether
/// selection is canonical.
pub struct MinimizerBuilder<A: MinimizerAlgorithm, const CANONICAL: bool> {
    pub minimizer_size: usize,
    pub width: u16,
    pub order: KeyOrder,
    pub encoding: Vec<u8>,
    pub marker: core::marker::PhantomData<A>,
}

impl<A: MinimizerAlgorithm, const CANONICAL: bool> MinimizerBuilder<A, CANONICAL> {
    /// The configuration is usable: a representable k-mer length, a
    /// positive width and a two-bit encoding table.
    pub open spec fn wf(self) -> bool {
        &&& 1 <= self.minimizer_size <= 32
        &&& self.width >= 1
        &&& enc_wf(self.encoding@)
    }

    /// Sets the size of the minimizers.
    pub fn minimizer_size(self, minimizer_size: usize) -> (b: Self)
        requires
            1 <= minimizer_size <= 32,
        ensures
            b == (Self { minimizer_size, ..self }),
    {
        Self { minimizer_size, ..self }
    }

    /// Sets the width of the window.
    pub fn width(self, width: u16) -> (b: Self)
        requires
            width >= 1,
        ensures
            b == (Self { width, ..self }),
    {
        Self { width, ..self }
    }

    /// Sets the seed of the seeded pseudo-random order.
    pub fn seed(self, seed: u64) -> (b: Self)
        ensures
            b == (Self { order: KeyOrder::Seeded(seed), ..self }),
    {
        Self { order: KeyOrder::Seeded(seed), ..self }
    }

    /// Sets the order used to rank minimizer candidates.
    pub fn hasher(self, order: KeyOrder) -> (b: Self)
        ensures
            b == (Self { order, ..self }),
    {
        Self { order, ..self }
    }

    /// Sets the binary encoding of the bases.
    pub fn encoding(self, a: u8, c: u8, g: u8, t: u8) -> (b: Self)
        requires
            a < 4,
            c < 4,
            g < 4,
            t < 4,
        ensures
            b.minimizer_size == self.minimizer_size,
            b.width == self.width,
            b.order == self.order,
            enc_wf(b.encoding@),
            b.encoding@[65] == a && b.encoding@[97] == a,
            b.encoding@[67] == c && b.encoding@[99] == c,
            b.encoding@[71] == g && b.encoding@[103] == g,
            b.encoding@[84] == t && b.encoding@[116] == t,
    {
        Self { encoding: encoding_with(a, c, g, t), ..self }
    }

    /// Compute canonical minimizers.
    pub fn canonical(self) -> (b: MinimizerBuilder<A, true>)
        ensures
            b.minimizer_size == self.minimizer_size,
            b.width == self.width,
            b.order == self.order,
            b.encoding == self.encoding,
    {
        MinimizerBuilder {
            minimizer_size: self.minimizer_size,
            width: self.width,
            order: self.order,
            encoding: self.encoding,
            marker: core::marker::PhantomData,
        }
    }

    /// Compute non-canonical minimizers.
    pub fn non_canonical(self) -> (b: MinimizerBuilder<A, false>)
        ensures
            b.minimizer_size == self.minimizer_size,
            b.width == self.width,
            b.order == self.order,
            b.encoding == self.encoding,
    {
        MinimizerBuilder {
            minimizer_size: self.minimizer_size,
            width: self.width,
            order: self.order,
            encoding: self.encoding,
            marker: core::marker::PhantomData,
        }
    }
}

impl MinimizerBuilder<Minimizer, false> {
    /// Sets up the builder with the default k-mer length 21, width 11,
    /// seeded order and default encoding.
    pub fn new() -> (b: Self)
        ensures
            b.wf(),
            b.minimizer_size == 21,
            b.width == 11,
            b.order == KeyOrder::Seeded(0),
    {
        MinimizerBuilder {
            minimizer_size: 21,
            width: 11,
            order: KeyOrder::Seeded(0),
            encoding: default_encoding(),
            marker: core::marker::PhantomData,
        }
    }

    /// Builds an iterator over the minimizers and their positions in the
    /// given sequence.
    pub fn iter<'a>(self, seq: &'a [u8]) -> (it: MinimizerIterator<'a>)
        requires
            self.wf(),
        ensures
            it.wf(),
            !it.started(),
            it.emitted() == 0,
            it.seq == seq,
            it.encoding@ == self.encoding@,
            it.k() == self.minimizer_size,
            it.width == self.width as int,
            it.queue.order == self.order,
    {
        MinimizerIterator::new(seq, self.minimizer_size, self.width, self.order, self.encoding)
    }

    /// Builds an iterator over the positions of the minimizers in the
    /// given sequence.
    pub fn iter_pos<'a>(self, seq: &'a [u8]) -> (it: MinimizerPosIterator<'a>)
        requires
            self.wf(),
        ensures
            it.wf(),
            !it.started(),
            it.emitted() == 0,
            it.seq == seq,
            it.encoding@ == self.encoding@,
            it.k() == self.minimizer_size,
            it.width == self.width as int,
            it.queue.order == self.order,
    {
        MinimizerPosIterator::new(seq, self.minimizer_size, self.width, self.order, self.encoding)
    }
}

impl Default for MinimizerBuilder<Minimizer, false> {
    /// The default builder: k-mer length 21, width 11, seeded order,
    /// default encoding.
    fn default() -> (b: Self)
        ensures
            b.wf(),
            b.minimizer_size == 21,
            b.width == 11,
            b.order == KeyOrder::Seeded(0),
    {
        MinimizerBuilder::new()
    }
}

impl MinimizerBuilder<Minimizer, true> {
    /// Builds an iterator over the canonical minimizers and their
    /// positions, each with a flag set on reverse-complement records.  The
    /// width must be odd so ties between minimizers can be broken.
    pub fn iter<'a>(self, seq: &'a [u8]) -> (it: CanonicalMinimizerIterator<'a>)
        requires
            self.wf(),
            self.width % 2 == 1,
        ensures
            it.wf(),
            !it.started(),
            it.emitted() == 0,
            it.seq == seq,
            it.encoding@ == self.encoding@,
            it.k() == self.minimizer_size,
            it.width == self.width as int,
            it.queue.order == self.order,
    {
        CanonicalMinimizerIterator::new(
            seq,
            self.minimizer_size,
            self.width,
            self.order,
            self.encoding,
        )
    }

    /// Builds an iterator over the positions of the canonical minimizers,
    /// each with a flag set on reverse-complement records.  The width must
    /// be odd so ties between minimizers can be broken.
    pub fn iter_pos<'a>(self, seq: &'a [u8]) -> (it: CanonicalMinimizerPosIterator<'a>)
        requires
            self.wf(),
            self.width % 2 == 1,
        ensures
            it.wf(),
            !it.started(),
            it.emitted() == 0,
            it.seq == seq,
            it.encoding@ == self.encoding@,
            it.k() == self.minimizer_size,
            it.width == self.width as int,
            it.queue.order == self.order,
    {
        CanonicalMinimizerPosIterator::new(
            seq,
            self.minimizer_size,
            self.width,
            self.order,
            self.encoding,
        )
    }
}

impl MinimizerBuilder<ModMinimizer, false> {
    /// Sets up the builder for mod-minimizers with the default k-mer
    /// length 21, width 11, seeded order and default encoding.
    pub fn new_mod() -> (b: Self)
        ensures
            b.wf(),
            b.minimizer_size == 21,
            b.width == 11,
            b.order == KeyOrder::Seeded(0),
    {
        MinimizerBuilder {
            minimizer_size: 21,
            width: 11,
            order: KeyOrder::Seeded(0),
            encoding: default_encoding(),
            marker: core::marker::PhantomData,
        }
    }

    /// Builds an iterator over the mod-minimizers and their positions in
    /// the given sequence.  The k-mer length must be at least `R`.
    pub fn iter<'a>(self, seq: &'a [u8]) -> (it: ModSamplingIterator<'a>)
        requires
            self.wf(),
            self.minimizer_size >= R,
            R + (self.minimizer_size - R) % (self.width as int) <= 31,
            self.width + self.minimizer_size - (R + (self.minimizer_size - R) % (
            self.width as int)) <= u16::MAX,
        ensures
            it.wf(),
            !it.started(),
            it.emitted() == 0,
            it.seq == seq,
            it.encoding@ == self.encoding@,
            it.k() == self.minimizer_size,
            it.t() == R + (self.minimizer_size - R) % (self.width as int),
            it.width == self.width as int,
            it.queue.order == self.order,
    {
        proof {
            vstd::arithmetic::div_mod::lemma_mod_decreases(
                (self.minimizer_size - R) as nat,
                self.width as nat,
            );
        }
        let t = R + (self.minimizer_size - R) % (self.width as usize);
        ModSamplingIterator::new(seq, self.minimizer_size, self.width, t, self.order, self.encoding)
    }

    /// Builds an iterator over the positions of the mod-minimizers in the
    /// given sequence.  The k-mer length must be at least `R`.
    pub fn iter_pos<'a>(self, seq: &'a [u8]) -> (it: ModSamplingPosIterator<'a>)
        requires
            self.wf(),
            self.minimizer_size >= R,
            R + (self.minimizer_size - R) % (self.width as int) <= 31,
            self.width + self.minimizer_size - (R + (self.minimizer_size - R) % (
            self.width as int)) <= u16::MAX,
        ensures
            it.wf(),
            !it.started(),
            it.emitted() == 0,
            it.seq == seq,
            it.encoding@ == self.encoding@,
            it.k() == self.minimizer_size,
            it.t() == R + (self.minimizer_size - R) % (self.width as int),
            it.width == self.width as int,
            it.queue.order == self.order,
    {
        proof {
            vstd::arithmetic::div_mod::lemma_mod_decreases(
                (self.minimizer_size - R) as nat,
                self.width as nat,
            );
        }
        let t = R + (self.minimizer_size - R) % (self.width as usize);
        ModSamplingPosIterator::new(
            seq,
            self.minimizer_size,
            self.width,
            t,
            self.order,
            self.encoding,
        )
    }
}

impl MinimizerBuilder<ModMinimizer, true> {
    /// Builds an iterator over the canonical mod-minimizers and their
    /// positions, each with a flag set on reverse-complement records.  The
    /// width must be odd and must divide the expanded window.
    pub fn iter<'a>(self, seq: &'a [u8]) -> (it: CanonicalModSamplingIterator<'a>)
        requires
            self.wf(),
            self.minimizer_size >= R,
            self.width % 2 == 1,
            R + (self.minimizer_size - R) % (self.width as int) <= 31,
            self.width + self.minimizer_size - (R + (self.minimizer_size - R) % (
            self.width as int)) <= u16::MAX,
            (self.width + self.minimizer_size - (R + (self.minimizer_size - R) % (
            self.width as int))) % (self.width as int) == 0,
        ensures
            it.wf(),
            !it.started(),
            it.emitted() == 0,
            it.seq == seq,
            it.encoding@ == self.encoding@,
            it.k() == self.minimizer_size,
            it.t() == R + (self.minimizer_size - R) % (self.width as int),
            it.width == self.width as int,
            it.queue.order == self.order,
    {
        proof {
            vstd::arithmetic::div_mod::lemma_mod_decreases(
                (self.minimizer_size - R) as nat,
                self.width as nat,
            );
        }
        let t = R + (self.minimizer_size - R) % (self.width as usize);
        CanonicalModSamplingIterator::new(
            seq,
            self.minimizer_size,
            self.width,
            t,
            self.order,
            self.encoding,
        )
    }

    /// Builds an iterator over the positions of the canonical
    /// mod-minimizers, each with a flag set on reverse-complement records.
    /// The width must be odd and must divide the expanded window.
    pub fn iter_pos<'a>(self, seq: &'a [u8]) -> (it: CanonicalModSamplingPosIterator<'a>)
        requires
            self.wf(),
            self.minimizer_size >= R,
            self.width % 2 == 1,
            R + (self.minimizer_size - R) % (self.width as int) <= 31,
            self.width + self.minimizer_size - (R + (self.minimizer_size - R) % (
            self.width as int)) <= u16::MAX,
            (self.width + self.minimizer_size - (R + (self.minimizer_size - R) % (
            self.width as int))) % (self.width as int) == 0,
        ensures
            it.wf(),
            !it.started(),
            it.emitted() == 0,
            it.seq == seq,
            it.encoding@ == self.encoding@,
            it.k() == self.minimizer_size,
            it.t() == R + (self.minimizer_size - R) % (self.width as int),
            it.width == self.width as int,
            it.queue.order == self.order,
    {
        proof {
            vstd::arithmetic::div_mod::lemma_mod_decreases(
                (self.minimizer_size - R) as nat,
                self.width as nat,
            );
        }
        let t = R + (self.minimizer_size - R) % (self.width as usize);
        CanonicalModSamplingPosIterator::new(
            seq,
            self.minimizer_size,
            self.width,
            t,
            self.order,
            self.encoding,
        )
    }
}

} // verus!
