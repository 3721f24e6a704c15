//! Iterators over mod-sampling minimizers: a narrower `t`-mer is ranked
//! over a wider window, and the winning position is folded back modulo the
//! requested window width.

use crate::encoding::{comp_byte, complement_table, enc_wf};
use crate::kmer::{
    code_mask, codes_wf, full_code_mask, high_codes, lemma_pack_bound, lemma_pow4_pos, low_codes,
    pack, pow4, push_code, push_rc_code,
};
use crate::model::{
    canonical_kmer_at, canonical_kmer_rank_seq, canonical_mod_minimizer_positions,
    canonical_mod_sel_at, canonical_mod_sel_seq, codes_of, is_rc_at, is_rc_seq, kmer_at,
    kmer_rank_seq, lemma_canonical_rank_window, lemma_pack_push, lemma_pack_roll, lemma_pow4_mono,
    lemma_rank_window, lemma_rc_roll, lemma_rc_tmer_high, lemma_rc_tmer_warm, lemma_rc_warm_step,
    lemma_tmer_low, mod_minimizer_positions, mod_sel_at, mod_sel_seq, rc_codes_of, rc_kmer_at,
};
use crate::order::KeyOrder;
use crate::queue::MinimizerQueue;
use crate::select::{
    lemma_leftmost_min_idx, lemma_pick_in_window, lemma_rle_last, lemma_rle_prefix, lemma_rle_step,
    pick_in_window, rle,
};
use std::collections::VecDeque;
use vstd::arithmetic::div_mod::lemma_small_mod;
use vstd::prelude::*;

verus! {

/// An iterator over the positions of the mod-sampling minimizers of a
/// sequence.
pub struct ModSamplingPosIterator<'a> {
    pub seq: &'a [u8],
    pub queue: MinimizerQueue,
    pub width: usize,
    pub width_t: usize,
    pub tmer: u64,
    pub tmer_mask: u64,
    pub encoding: Vec<u8>,
    pub base_width: usize,
    pub min_pos: usize,
    pub end: usize,
}

impl<'a> ModSamplingPosIterator<'a> {
    /// The reduced key length.
    pub open spec fn t(self) -> int {
        self.base_width - self.width_t + 1
    }

    /// The k-mer length whose positions are sampled.
    pub open spec fn k(self) -> int {
        self.base_width - self.width + 1
    }

    /// The model rank of every t-mer position of the sequence.
    pub open spec fn ranks(self) -> Seq<u64> {
        kmer_rank_seq(self.encoding@, self.seq@, self.t(), self.queue.order)
    }

    /// The full emitted-position sequence of this traversal.
    pub open spec fn out(self) -> Seq<int> {
        mod_minimizer_positions(
            self.seq@,
            self.encoding@,
            self.k(),
            self.t(),
            self.width as int,
            self.queue.order,
        )
    }

    pub open spec fn started(self) -> bool {
        self.queue.key_seq().len() > 0
    }

    pub open spec fn cfg_wf(self) -> bool {
        &&& enc_wf(self.encoding@)
        &&& 1 <= self.t() <= 31
        &&& self.t() <= self.k() <= 32
        &&& 1 <= self.width <= u16::MAX
        &&& self.width <= self.width_t <= u16::MAX
        &&& self.queue.width as int == self.width_t as int
        &&& self.base_width == self.width_t + self.t() - 1
        &&& self.tmer_mask == pow4((self.t() - 1) as nat) - 1
        &&& self.queue.wf()
    }

    /// Register and queue agree with the model after consuming
    /// `self.end` bases.
    pub open spec fn sync(self) -> bool {
        &&& self.base_width <= self.end <= self.seq@.len()
        &&& self.queue.key_seq().len() == self.end - self.t() + 1
        &&& forall|p: int|
            0 <= p < self.queue.key_seq().len() ==> #[trigger] self.queue.key_seq()[p] as nat
                == kmer_at(self.encoding@, self.seq@, self.t(), p)
        &&& self.tmer as nat == kmer_at(self.encoding@, self.seq@, self.t(), self.end - self.t())
    }

    pub open spec fn wf(self) -> bool {
        &&& self.cfg_wf()
        &&& if !self.started() {
            self.end == self.base_width && self.tmer == 0
        } else {
            &&& self.sync()
            &&& self.min_pos as int == mod_sel_at(
                self.ranks(),
                self.width as int,
                self.width_t as int,
                self.end - self.base_width,
            )
        }
    }

    /// Number of records returned so far.
    pub open spec fn emitted(self) -> int {
        if !self.started() {
            0
        } else {
            rle(
                mod_sel_seq(self.ranks(), self.width as int, self.width_t as int).take(
                    self.end - self.base_width + 1,
                ),
            ).len() as int
        }
    }

    pub open spec fn same_cfg(self, other: Self) -> bool {
        &&& self.seq == other.seq
        &&& self.encoding@ == other.encoding@
        &&& self.width == other.width
        &&& self.width_t == other.width_t
        &&& self.base_width == other.base_width
        &&& self.queue.order == other.queue.order
    }

    /// Sets up a mod-sampling traversal of `seq` with reduced length `t`.
    pub fn new(
        seq: &'a [u8],
        minimizer_size: usize,
        width: u16,
        t: usize,
        order: KeyOrder,
        encoding: Vec<u8>,
    ) -> (it: Self)
        requires
            1 <= t <= 31,
            t <= minimizer_size <= 32,
            width >= 1,
            width + minimizer_size - t <= u16::MAX,
            enc_wf(encoding@),
        ensures
            it.wf(),
            !it.started(),
            it.emitted() == 0,
            it.seq == seq,
            it.encoding@ == encoding@,
            it.k() == minimizer_size,
            it.t() == t,
            it.width == width as int,
            it.queue.order == order,
    {
        let width_t: u16 = width + ((minimizer_size - t) as u16);
        let queue = MinimizerQueue::new(width_t, order);
        let width = width as usize;
        let width_t = width_t as usize;
        ModSamplingPosIterator {
            seq,
            queue,
            width,
            width_t,
            tmer: 0,
            tmer_mask: code_mask(t),
            encoding,
            base_width: width_t + t - 1,
            end: width_t + t - 1,
            min_pos: 0,
        }
    }

    /// Produces the next mod-sampling minimizer position, or `None` when
    /// the sequence is exhausted.
    #[verifier::loop_isolation(false)]
    #[verifier::rlimit(100)]
    pub fn next(&mut self) -> (r: Option<usize>)
        requires
            old(self).wf(),
        ensures
            final(self).wf(),
            old(self).same_cfg(*final(self)),
            ({
                let out = old(self).out();
                let e0 = old(self).emitted();
                match r {
                    Some(p) => e0 < out.len() && p as int == out[e0] && final(self).emitted() == e0
                        + 1,
                    None => e0 == out.len() && final(self).emitted() == e0,
                }
            }),
    {
        let w = self.width;
        let wt = self.width_t;
        let ghost t = self.t();
        let ghost enc = self.encoding@;
        let ghost s = self.seq@;
        let ghost ord = self.queue.order;
        let ghost ranks = self.ranks();
        let ghost cds = codes_of(enc, s);
        proof {
            assert(codes_wf(cds));
            assert(cds.len() == s.len());
        }
        if self.queue.is_empty() {
            if self.base_width > self.seq.len() {
                proof {
                    assert(self.out() =~= Seq::<int>::empty());
                }
                return None;
            }
            let kk = self.base_width - wt;  // t - 1 warm-up bases
            let mut i: usize = 0;
            proof {
                assert(ranks.len() == s.len() - t + 1);
                assert(cds.take(0) =~= Seq::<u8>::empty());
                assert(pack(Seq::<u8>::empty()) == 0);
                lemma_pow4_pos(0);
            }
            while i < kk
                invariant
                    i <= kk,
                    self.seq == old(self).seq,
                    self.encoding == old(self).encoding,
                    self.width == old(self).width,
                    self.width_t == old(self).width_t,
                    self.base_width == old(self).base_width,
                    self.queue == old(self).queue,
                    self.min_pos == old(self).min_pos,
                    self.end == old(self).end,
                    self.tmer_mask == old(self).tmer_mask,
                    self.tmer as nat == pack(cds.take(i as int)),
                    self.tmer < pow4(i as nat),
                decreases kk - i,
            {
                let c = self.encoding[self.seq[i] as usize];
                proof {
                    assert(c == cds[i as int]);
                    assert(c < 4);
                    lemma_pack_bound(cds.take(i as int));
                    lemma_pow4_mono(i as nat, (t - 1) as nat);
                    lemma_small_mod(self.tmer as nat, pow4((t - 1) as nat));
                    assert(cds.take(i + 1) =~= cds.take(i as int).push(cds[i as int]));
                    lemma_pack_push(cds.take(i as int), cds[i as int]);
                    lemma_pack_bound(cds.take(i + 1));
                }
                self.tmer = push_code(self.tmer, c, self.tmer_mask, Ghost(t as nat));
                i = i + 1;
            }
            while i < self.base_width
                invariant
                    kk <= i <= self.base_width,
                    self.seq == old(self).seq,
                    self.encoding == old(self).encoding,
                    self.width == old(self).width,
                    self.width_t == old(self).width_t,
                    self.base_width == old(self).base_width,
                    self.min_pos == old(self).min_pos,
                    self.end == old(self).end,
                    self.tmer_mask == old(self).tmer_mask,
                    self.queue.wf(),
                    self.queue.width == old(self).queue.width,
                    self.queue.order == ord,
                    self.queue.key_seq().len() == i - kk,
                    forall|p: int|
                        0 <= p < i - kk ==> #[trigger] self.queue.key_seq()[p] as nat == kmer_at(
                            enc,
                            s,
                            t,
                            p,
                        ),
                    self.tmer as nat == pack(
                        cds.subrange(if i >= t { i - t } else { 0 }, i as int),
                    ),
                decreases self.base_width - i,
            {
                let ghost lo: int = if i >= t { i - t } else { 0 };
                let c = self.encoding[self.seq[i] as usize];
                proof {
                    assert(c == cds[i as int]);
                    assert(c < 4);
                    let u = cds.subrange(lo, i as int);
                    assert(codes_wf(u));
                    lemma_pack_bound(u);
                    if i < t {
                        assert(u.len() == i - lo);
                        lemma_pow4_mono((i - lo) as nat, (t - 1) as nat);
                        lemma_small_mod(self.tmer as nat, pow4((t - 1) as nat));
                        lemma_pack_push(u, cds[i as int]);
                        assert(cds.subrange(lo, i + 1) =~= u.push(cds[i as int]));
                    } else {
                        lemma_pack_roll(cds, t, i - t);
                    }
                }
                self.tmer = push_code(self.tmer, c, self.tmer_mask, Ghost(t as nat));
                proof {
                    assert(self.tmer as nat == pack(
                        cds.subrange(if i + 1 >= t { i + 1 - t } else { 0 }, i + 1),
                    ));
                    assert(i + 1 >= t);
                    assert(self.tmer as nat == kmer_at(enc, s, t, i + 1 - t));
                }
                self.queue.insert(self.tmer);
                i = i + 1;
            }
            proof {
                assert(self.queue.key_seq().len() == wt);
                assert(self.queue.count == wt);
                assert(self.queue.win_start() == 0);
                assert(self.queue.window() =~= self.queue.key_seq().skip(0));
                lemma_rank_window(enc, s, t, ord, self.queue.key_seq(), 0, wt as int);
                assert(self.queue.wranks() =~= ranks.subrange(0, wt as int));
                lemma_leftmost_min_idx(self.queue.wranks());
            }
            let rel = self.queue.get_min_pos().1;
            self.min_pos = rel % w;
            proof {
                assert(self.min_pos as int == mod_sel_at(ranks, w as int, wt as int, 0));
                let ss = mod_sel_seq(ranks, w as int, wt as int);
                assert(ss.len() >= 1);
                assert(ss[0] == mod_sel_at(ranks, w as int, wt as int, 0));
                assert(ss.take(1) =~= seq![ss[0]]);
                assert(rle(ss.take(1)) == seq![ss[0]]) by {
                    assert(ss.take(1).len() == 1);
                }
                lemma_rle_prefix(ss, 1);
                assert(self.out() == rle(ss));
                assert(rle(ss).take(1) == rle(ss.take(1)));
                assert(rle(ss)[0] == ss[0]);
                assert(self.emitted() == 1);
                assert(self.end - self.base_width == 0);
            }
            Some(self.min_pos)
        } else {
            let mut min_pos = self.min_pos;
            let ghost j0: int = self.end - self.base_width;
            let ghost r0 = rle(mod_sel_seq(ranks, w as int, wt as int).take(j0 + 1));
            proof {
                assert(old(self).emitted() == r0.len());
            }
            while self.end < self.seq.len() && min_pos == self.min_pos
                invariant
                    self.seq == old(self).seq,
                    self.encoding == old(self).encoding,
                    self.width == old(self).width,
                    self.width_t == old(self).width_t,
                    self.base_width == old(self).base_width,
                    self.min_pos == old(self).min_pos,
                    self.tmer_mask == old(self).tmer_mask,
                    self.queue.width == old(self).queue.width,
                    self.queue.order == ord,
                    self.queue.wf(),
                    self.started(),
                    self.sync(),
                    j0 <= self.end - self.base_width,
                    min_pos as int == mod_sel_at(
                        ranks,
                        w as int,
                        wt as int,
                        self.end - self.base_width,
                    ),
                    if min_pos == self.min_pos {
                        rle(
                            mod_sel_seq(ranks, w as int, wt as int).take(
                                self.end - self.base_width + 1,
                            ),
                        ) == r0
                    } else {
                        rle(
                            mod_sel_seq(ranks, w as int, wt as int).take(
                                self.end - self.base_width + 1,
                            ),
                        ) == r0.push(min_pos as int)
                    },
                decreases self.seq@.len() - self.end,
            {
                let ghost jprev: int = self.end - self.base_width;
                let c = self.encoding[self.seq[self.end] as usize];
                proof {
                    assert(c == cds[self.end as int]);
                    assert(c < 4);
                    lemma_pack_roll(cds, t, self.end - t);
                }
                self.tmer = push_code(self.tmer, c, self.tmer_mask, Ghost(t as nat));
                proof {
                    assert(self.tmer as nat == kmer_at(enc, s, t, self.end + 1 - t));
                }
                self.queue.insert(self.tmer);
                self.end = self.end + 1;
                proof {
                    let j = self.end - self.base_width;
                    assert(self.queue.key_seq().len() == j + wt);
                    assert(self.queue.win_start() == j);
                    assert(self.queue.window() =~= self.queue.key_seq().skip(j));
                    lemma_rank_window(enc, s, t, ord, self.queue.key_seq(), j, wt as int);
                    assert(self.queue.wranks() =~= ranks.subrange(j, j + wt));
                    lemma_leftmost_min_idx(self.queue.wranks());
                }
                let rel = self.queue.get_min_pos().1;
                min_pos = self.end - self.base_width + rel % w;
                proof {
                    let j = self.end - self.base_width;
                    assert(min_pos as int == mod_sel_at(ranks, w as int, wt as int, j));
                    let ss = mod_sel_seq(ranks, w as int, wt as int);
                    assert(ss.take(j + 1) =~= ss.take(j).push(ss[j]));
                    assert(ss[j] == mod_sel_at(ranks, w as int, wt as int, j));
                    assert(ss[j - 1] == mod_sel_at(ranks, w as int, wt as int, jprev));
                    lemma_rle_last(ss.take(j));
                    assert(ss.take(j).last() == ss[j - 1]);
                    lemma_rle_step(ss.take(j), ss[j]);
                }
            }
            if min_pos == self.min_pos {
                proof {
                    let j = self.end - self.base_width;
                    let ss = mod_sel_seq(ranks, w as int, wt as int);
                    assert(self.end == s.len());
                    assert(ss.len() == j + 1);
                    assert(ss.take(j + 1) =~= ss);
                    assert(old(self).emitted() == self.out().len());
                    assert(self.emitted() == old(self).emitted());
                }
                return None;
            }
            self.min_pos = min_pos;
            proof {
                let j = self.end - self.base_width;
                let ss = mod_sel_seq(ranks, w as int, wt as int);
                lemma_rle_prefix(ss, j + 1);
                assert(rle(ss.take(j + 1)) == r0.push(min_pos as int));
                assert(rle(ss).take(r0.len() as int + 1) == r0.push(min_pos as int));
                assert(r0.len() + 1 <= rle(ss).len());
                assert(rle(ss).take(r0.len() as int + 1)[r0.len() as int] == rle(
                    ss,
                )[r0.len() as int]);
                assert(r0.push(min_pos as int)[r0.len() as int] == min_pos as int);
                assert(rle(ss)[r0.len() as int] == min_pos as int);
                assert(self.emitted() == r0.len() + 1);
            }
            Some(min_pos)
        }
    }
}

/// An iterator over the mod-sampling minimizers of a sequence and their
/// positions.
pub struct ModSamplingIterator<'a> {
    pub seq: &'a [u8],
    pub queue: MinimizerQueue,
    pub width: usize,
    pub width_t: usize,
    pub mmer: u64,
    pub mmer_mask: u64,
    pub tmer_mask: u64,
    pub mmers: VecDeque<u64>,
    pub encoding: Vec<u8>,
    pub base_width: usize,
    pub min_pos: (u64, usize),
    pub end: usize,
}

impl<'a> ModSamplingIterator<'a> {
    /// The reduced key length.
    pub open spec fn t(self) -> int {
        self.base_width - self.width_t + 1
    }

    /// The k-mer length whose positions are sampled.
    pub open spec fn k(self) -> int {
        self.base_width - self.width + 1
    }

    /// The model rank of every t-mer position of the sequence.
    pub open spec fn ranks(self) -> Seq<u64> {
        kmer_rank_seq(self.encoding@, self.seq@, self.t(), self.queue.order)
    }

    /// The full emitted-position sequence of this traversal.
    pub open spec fn out(self) -> Seq<int> {
        mod_minimizer_positions(
            self.seq@,
            self.encoding@,
            self.k(),
            self.t(),
            self.width as int,
            self.queue.order,
        )
    }

    pub open spec fn started(self) -> bool {
        self.queue.key_seq().len() > 0
    }

    pub open spec fn cfg_wf(self) -> bool {
        &&& enc_wf(self.encoding@)
        &&& 1 <= self.t() <= 31
        &&& self.t() <= self.k() <= 32
        &&& 1 <= self.width <= u16::MAX
        &&& self.width <= self.width_t <= u16::MAX
        &&& self.queue.width as int == self.width_t as int
        &&& self.base_width == self.width_t + self.t() - 1
        &&& self.mmer_mask == pow4((self.k() - 1) as nat) - 1
        &&& self.tmer_mask == pow4(self.t() as nat) - 1
        &&& self.queue.wf()
    }

    /// Registers, side buffer and queue agree with the model after
    /// consuming `self.end` bases.
    pub open spec fn sync(self) -> bool {
        &&& self.base_width <= self.end <= self.seq@.len()
        &&& self.queue.key_seq().len() == self.end - self.t() + 1
        &&& forall|p: int|
            0 <= p < self.queue.key_seq().len() ==> #[trigger] self.queue.key_seq()[p] as nat
                == kmer_at(self.encoding@, self.seq@, self.t(), p)
        &&& self.mmer as nat == kmer_at(self.encoding@, self.seq@, self.k(), self.end - self.k())
        &&& self.mmers@.len() == self.width
        &&& forall|d: int|
            0 <= d < self.width ==> #[trigger] self.mmers@[d] as nat == kmer_at(
                self.encoding@,
                self.seq@,
                self.k(),
                self.end - self.base_width + d,
            )
    }

    pub open spec fn wf(self) -> bool {
        &&& self.cfg_wf()
        &&& if !self.started() {
            self.end == self.base_width && self.mmer == 0 && self.mmers@.len() == 0
        } else {
            &&& self.sync()
            &&& self.min_pos.1 as int == mod_sel_at(
                self.ranks(),
                self.width as int,
                self.width_t as int,
                self.end - self.base_width,
            )
            &&& self.min_pos.0 as nat == kmer_at(
                self.encoding@,
                self.seq@,
                self.k(),
                self.min_pos.1 as int,
            )
        }
    }

    /// Number of records returned so far.
    pub open spec fn emitted(self) -> int {
        if !self.started() {
            0
        } else {
            rle(
                mod_sel_seq(self.ranks(), self.width as int, self.width_t as int).take(
                    self.end - self.base_width + 1,
                ),
            ).len() as int
        }
    }

    pub open spec fn same_cfg(self, other: Self) -> bool {
        &&& self.seq == other.seq
        &&& self.encoding@ == other.encoding@
        &&& self.width == other.width
        &&& self.width_t == other.width_t
        &&& self.base_width == other.base_width
        &&& self.queue.order == other.queue.order
    }

    /// Sets up a mod-sampling traversal of `seq` with reduced length `t`.
    pub fn new(
        seq: &'a [u8],
        minimizer_size: usize,
        width: u16,
        t: usize,
        order: KeyOrder,
        encoding: Vec<u8>,
    ) -> (it: Self)
        requires
            1 <= t <= 31,
            t <= minimizer_size <= 32,
            width >= 1,
            width + minimizer_size - t <= u16::MAX,
            enc_wf(encoding@),
        ensures
            it.wf(),
            !it.started(),
            it.emitted() == 0,
            it.seq == seq,
            it.encoding@ == encoding@,
            it.k() == minimizer_size,
            it.t() == t,
            it.width == width as int,
            it.queue.order == order,
    {
        let width_t: u16 = width + ((minimizer_size - t) as u16);
        let queue = MinimizerQueue::new(width_t, order);
        let width = width as usize;
        let width_t = width_t as usize;
        ModSamplingIterator {
            seq,
            queue,
            width,
            width_t,
            mmer: 0,
            mmer_mask: code_mask(minimizer_size),
            tmer_mask: full_code_mask(t),
            mmers: VecDeque::new(),
            encoding,
            base_width: width_t + t - 1,
            end: width_t + t - 1,
            min_pos: (0, 0),
        }
    }


    /// Admits one more base: rolls the register, inserts the reduced key
    /// and slides the k-mer side buffer.
    #[verifier::rlimit(100)]
    fn advance_window(&mut self)
        requires
            old(self).cfg_wf(),
            old(self).sync(),
            old(self).end < old(self).seq@.len(),
        ensures
            final(self).cfg_wf(),
            final(self).sync(),
            final(self).end == old(self).end + 1,
            final(self).seq == old(self).seq,
            final(self).encoding == old(self).encoding,
            final(self).width == old(self).width,
            final(self).width_t == old(self).width_t,
            final(self).base_width == old(self).base_width,
            final(self).min_pos == old(self).min_pos,
            final(self).queue.order == old(self).queue.order,
    {
        let ghost t = self.t();
        let ghost k = self.k();
        let ghost enc = self.encoding@;
        let ghost s = self.seq@;
        let ghost cds = codes_of(enc, s);
        let ghost w = self.width as int;
        proof {
            assert(codes_wf(cds));
        }
        let c = self.encoding[self.seq[self.end] as usize];
        proof {
            assert(c == cds[self.end as int]);
            assert(c < 4);
            lemma_pack_roll(cds, k, self.end - k);
        }
        self.mmer = push_code(self.mmer, c, self.mmer_mask, Ghost(k as nat));
        proof {
            assert(self.mmer as nat == kmer_at(enc, s, k, self.end + 1 - k));
            lemma_tmer_low(enc, s, k, t, self.end + 1 - k);
            assert(self.mmer as nat % pow4(t as nat) == kmer_at(enc, s, t, self.end + 1 - t));
        }
        let tm = low_codes(self.mmer, self.tmer_mask, Ghost(t as nat));
        self.queue.insert(tm);
        self.mmers.pop_front();
        self.mmers.push_back(self.mmer);
        self.end = self.end + 1;
        proof {
            let j = self.end - self.base_width;
            assert forall|d: int| 0 <= d < w implies #[trigger] self.mmers@[d] as nat == kmer_at(
                enc,
                s,
                k,
                j + d,
            ) by {
                if d < w - 1 {
                    assert(self.mmers@[d] == old(self).mmers@[d + 1]);
                    assert(old(self).mmers@[d + 1] as nat == kmer_at(enc, s, k, j - 1 + d + 1));
                } else {
                    assert(self.mmers@[d] as nat == kmer_at(enc, s, k, self.end - k));
                }
            }
        }
    }


    /// Consumes the first full window of bases, filling the register, the
    /// side buffer and the queue.
    #[verifier::loop_isolation(false)]
    #[verifier::rlimit(100)]
    fn prime(&mut self)
        requires
            old(self).wf(),
            !old(self).started(),
            old(self).base_width <= old(self).seq@.len(),
        ensures
            final(self).cfg_wf(),
            final(self).sync(),
            final(self).started(),
            final(self).seq == old(self).seq,
            final(self).encoding == old(self).encoding,
            final(self).width == old(self).width,
            final(self).width_t == old(self).width_t,
            final(self).base_width == old(self).base_width,
            final(self).min_pos == old(self).min_pos,
            final(self).end == old(self).end,
            final(self).queue.order == old(self).queue.order,
            final(self).queue.key_seq().len() == final(self).width_t,
    {
        let w = self.width;
        let wt = self.width_t;
        let ghost t = self.t();
        let ghost k = self.k();
        let ghost enc = self.encoding@;
        let ghost s = self.seq@;
        let ghost ord = self.queue.order;
        let ghost cds = codes_of(enc, s);
        proof {
            assert(codes_wf(cds));
            assert(cds.take(0) =~= Seq::<u8>::empty());
            assert(pack(Seq::<u8>::empty()) == 0);
            lemma_pow4_pos(0);
        }
    let kk = self.base_width - wt;  // t - 1 warm-up bases
    let mut i: usize = 0;
        while i < kk
            invariant
                i <= kk,
                self.seq == old(self).seq,
                self.encoding == old(self).encoding,
                self.width == old(self).width,
                self.width_t == old(self).width_t,
                self.base_width == old(self).base_width,
                self.queue == old(self).queue,
                self.mmers == old(self).mmers,
                self.min_pos == old(self).min_pos,
                self.end == old(self).end,
                self.mmer_mask == old(self).mmer_mask,
                self.tmer_mask == old(self).tmer_mask,
                self.mmer as nat == pack(cds.take(i as int)),
                self.mmer < pow4(i as nat),
            decreases kk - i,
        {
            let c = self.encoding[self.seq[i] as usize];
            proof {
                assert(c == cds[i as int]);
                assert(c < 4);
                lemma_pack_bound(cds.take(i as int));
                lemma_pow4_mono(i as nat, (k - 1) as nat);
                lemma_small_mod(self.mmer as nat, pow4((k - 1) as nat));
                assert(cds.take(i + 1) =~= cds.take(i as int).push(cds[i as int]));
                lemma_pack_push(cds.take(i as int), cds[i as int]);
                lemma_pack_bound(cds.take(i + 1));
            }
            self.mmer = push_code(self.mmer, c, self.mmer_mask, Ghost(k as nat));
            i = i + 1;
        }
        while i < self.base_width
            invariant
                kk <= i <= self.base_width,
                self.seq == old(self).seq,
                self.encoding == old(self).encoding,
                self.width == old(self).width,
                self.width_t == old(self).width_t,
                self.base_width == old(self).base_width,
                self.min_pos == old(self).min_pos,
                self.end == old(self).end,
                self.mmer_mask == old(self).mmer_mask,
                self.tmer_mask == old(self).tmer_mask,
                self.queue.wf(),
                self.queue.width == old(self).queue.width,
                self.queue.order == ord,
                self.queue.key_seq().len() == i - kk,
                forall|p: int|
                    0 <= p < i - kk ==> #[trigger] self.queue.key_seq()[p] as nat == kmer_at(
                        enc,
                        s,
                        t,
                        p,
                    ),
                self.mmers@.len() == if i >= k { i - k + 1 } else { 0 },
                forall|d: int|
                    0 <= d < self.mmers@.len() ==> #[trigger] self.mmers@[d] as nat == kmer_at(
                        enc,
                        s,
                        k,
                        d,
                    ),
                self.mmer as nat == pack(
                    cds.subrange(if i >= k { i - k } else { 0 }, i as int),
                ),
            decreases self.base_width - i,
        {
            let ghost lo: int = if i >= k { i - k } else { 0 };
            let c = self.encoding[self.seq[i] as usize];
            proof {
                assert(c == cds[i as int]);
                assert(c < 4);
                let u = cds.subrange(lo, i as int);
                assert(codes_wf(u));
                lemma_pack_bound(u);
                if i < k {
                    assert(u.len() == i - lo);
                    lemma_pow4_mono((i - lo) as nat, (k - 1) as nat);
                    lemma_small_mod(self.mmer as nat, pow4((k - 1) as nat));
                    lemma_pack_push(u, cds[i as int]);
                    assert(cds.subrange(lo, i + 1) =~= u.push(cds[i as int]));
                } else {
                    lemma_pack_roll(cds, k, i - k);
                }
            }
            self.mmer = push_code(self.mmer, c, self.mmer_mask, Ghost(k as nat));
            proof {
                if i + 1 >= k {
                    assert(self.mmer as nat == kmer_at(enc, s, k, i + 1 - k));
                    lemma_tmer_low(enc, s, k, t, i + 1 - k);
                } else {
                    assert(self.mmer as nat == pack(cds.take(i + 1)));
                    crate::model::lemma_pack_low(cds.take(i + 1), t);
                    assert(cds.take(i + 1).skip(i + 1 - t) =~= cds.subrange(i + 1 - t, i + 1));
                }
                assert(self.mmer as nat % pow4(t as nat) == kmer_at(enc, s, t, i + 1 - t));
            }
            let tm = low_codes(self.mmer, self.tmer_mask, Ghost(t as nat));
            self.queue.insert(tm);
            if i + 1 >= self.base_width - w + 1 {
                self.mmers.push_back(self.mmer);
                proof {
                    assert(i + 1 >= k);
                    assert(self.mmers@.len() == i + 1 - k + 1);
                }
            }
            i = i + 1;
        }
        proof {
            assert(self.mmers@.len() == w);
        }
    }

    /// Produces the next mod-sampling minimizer and its position, or
    /// `None` when the sequence is exhausted.
    #[verifier::loop_isolation(false)]
    #[verifier::rlimit(100)]
    pub fn next(&mut self) -> (r: Option<(u64, usize)>)
        requires
            old(self).wf(),
        ensures
            final(self).wf(),
            old(self).same_cfg(*final(self)),
            ({
                let out = old(self).out();
                let e0 = old(self).emitted();
                match r {
                    Some(rec) => e0 < out.len() && rec.1 as int == out[e0] && rec.0 as nat
                        == kmer_at(
                        old(self).encoding@,
                        old(self).seq@,
                        old(self).k(),
                        rec.1 as int,
                    ) && final(self).emitted() == e0 + 1,
                    None => e0 == out.len() && final(self).emitted() == e0,
                }
            }),
    {
        let w = self.width;
        let wt = self.width_t;
        let ghost t = self.t();
        let ghost k = self.k();
        let ghost enc = self.encoding@;
        let ghost s = self.seq@;
        let ghost ord = self.queue.order;
        let ghost ranks = self.ranks();
        let ghost cds = codes_of(enc, s);
        proof {
            assert(codes_wf(cds));
            assert(cds.len() == s.len());
        }
        if self.queue.is_empty() {
            if self.base_width > self.seq.len() {
                proof {
                    assert(self.out() =~= Seq::<int>::empty());
                }
                return None;
            }
            self.prime();
            proof {
                assert(self.queue.key_seq().len() == wt);
                assert(self.queue.count == wt);
                assert(self.queue.win_start() == 0);
                assert(self.queue.window() =~= self.queue.key_seq().skip(0));
                lemma_rank_window(enc, s, t, ord, self.queue.key_seq(), 0, wt as int);
                assert(self.queue.wranks() =~= ranks.subrange(0, wt as int));
                lemma_leftmost_min_idx(self.queue.wranks());
                assert(self.mmers@.len() == w);
            }
            let rel = self.queue.get_min_pos().1;
            let pos = rel % w;
            let key = self.mmers[pos];
            self.min_pos = (key, pos);
            proof {
                assert(self.min_pos.1 as int == mod_sel_at(ranks, w as int, wt as int, 0));
                assert(self.min_pos.0 as nat == kmer_at(enc, s, k, pos as int));
                let ss = mod_sel_seq(ranks, w as int, wt as int);
                assert(ss.len() >= 1);
                assert(ss[0] == mod_sel_at(ranks, w as int, wt as int, 0));
                assert(ss.take(1) =~= seq![ss[0]]);
                assert(rle(ss.take(1)) == seq![ss[0]]) by {
                    assert(ss.take(1).len() == 1);
                }
                lemma_rle_prefix(ss, 1);
                assert(self.out() == rle(ss));
                assert(rle(ss).take(1) == rle(ss.take(1)));
                assert(rle(ss)[0] == ss[0]);
                assert(self.emitted() == 1);
                assert(self.end - self.base_width == 0);
            }
            Some(self.min_pos)
        } else {
            let mut min_pos = self.min_pos;
            let ghost j0: int = self.end - self.base_width;
            let ghost r0 = rle(mod_sel_seq(ranks, w as int, wt as int).take(j0 + 1));
            proof {
                assert(old(self).emitted() == r0.len());
            }
            while self.end < self.seq.len() && min_pos.1 == self.min_pos.1
                invariant
                    self.seq == old(self).seq,
                    self.encoding == old(self).encoding,
                    self.width == old(self).width,
                    self.width_t == old(self).width_t,
                    self.base_width == old(self).base_width,
                    self.min_pos == old(self).min_pos,
                    self.mmer_mask == old(self).mmer_mask,
                    self.tmer_mask == old(self).tmer_mask,
                    self.queue.width == old(self).queue.width,
                    self.queue.order == ord,
                    self.queue.wf(),
                    self.started(),
                    self.sync(),
                    j0 <= self.end - self.base_width,
                    min_pos.1 as int == mod_sel_at(
                        ranks,
                        w as int,
                        wt as int,
                        self.end - self.base_width,
                    ),
                    min_pos.0 as nat == kmer_at(enc, s, k, min_pos.1 as int),
                    if min_pos.1 == self.min_pos.1 {
                        rle(
                            mod_sel_seq(ranks, w as int, wt as int).take(
                                self.end - self.base_width + 1,
                            ),
                        ) == r0
                    } else {
                        rle(
                            mod_sel_seq(ranks, w as int, wt as int).take(
                                self.end - self.base_width + 1,
                            ),
                        ) == r0.push(min_pos.1 as int)
                    },
                decreases self.seq@.len() - self.end,
            {
                let ghost jprev: int = self.end - self.base_width;
                self.advance_window();
                proof {
                    let j = self.end - self.base_width;
                    assert(self.queue.key_seq().len() == j + wt);
                    assert(self.queue.win_start() == j);
                    assert(self.queue.window() =~= self.queue.key_seq().skip(j));
                    lemma_rank_window(enc, s, t, ord, self.queue.key_seq(), j, wt as int);
                    assert(self.queue.wranks() =~= ranks.subrange(j, j + wt));
                    lemma_leftmost_min_idx(self.queue.wranks());
                }
                let rel = self.queue.get_min_pos().1;
                let pos = rel % w;
                let key = self.mmers[pos];
                min_pos = (key, self.end - self.base_width + pos);
                proof {
                    let j = self.end - self.base_width;
                    assert(min_pos.1 as int == mod_sel_at(ranks, w as int, wt as int, j));
                    assert(min_pos.0 as nat == kmer_at(enc, s, k, min_pos.1 as int));
                    let ss = mod_sel_seq(ranks, w as int, wt as int);
                    assert(ss.take(j + 1) =~= ss.take(j).push(ss[j]));
                    assert(ss[j] == mod_sel_at(ranks, w as int, wt as int, j));
                    assert(ss[j - 1] == mod_sel_at(ranks, w as int, wt as int, jprev));
                    lemma_rle_last(ss.take(j));
                    assert(ss.take(j).last() == ss[j - 1]);
                    lemma_rle_step(ss.take(j), ss[j]);
                }
            }
            if min_pos.1 == self.min_pos.1 {
                proof {
                    let j = self.end - self.base_width;
                    let ss = mod_sel_seq(ranks, w as int, wt as int);
                    assert(self.end == s.len());
                    assert(ss.len() == j + 1);
                    assert(ss.take(j + 1) =~= ss);
                    assert(old(self).emitted() == self.out().len());
                    assert(self.emitted() == old(self).emitted());
                }
                return None;
            }
            self.min_pos = min_pos;
            proof {
                let j = self.end - self.base_width;
                let ss = mod_sel_seq(ranks, w as int, wt as int);
                lemma_rle_prefix(ss, j + 1);
                assert(rle(ss.take(j + 1)) == r0.push(min_pos.1 as int));
                assert(rle(ss).take(r0.len() as int + 1) == r0.push(min_pos.1 as int));
                assert(r0.len() + 1 <= rle(ss).len());
                assert(rle(ss).take(r0.len() as int + 1)[r0.len() as int] == rle(
                    ss,
                )[r0.len() as int]);
                assert(r0.push(min_pos.1 as int)[r0.len() as int] == min_pos.1 as int);
                assert(rle(ss)[r0.len() as int] == min_pos.1 as int);
                assert(self.emitted() == r0.len() + 1);
            }
            Some(min_pos)
        }
    }
}

/// An iterator over the positions of the canonical mod-sampling
/// minimizers of a sequence, with a flag marking positions whose canonical
/// form is the reverse complement.  Requires an odd width, and an expanded
/// window that is a multiple of the width, so ties break symmetrically.
pub struct CanonicalModSamplingPosIterator<'a> {
    pub seq: &'a [u8],
    pub queue: MinimizerQueue,
    pub width: usize,
    pub width_t: usize,
    pub mmer: u64,
    pub rc_mmer: u64,
    pub mmer_mask: u64,
    pub tmer_mask: u64,
    pub rc_mmer_shift: usize,
    pub rc_tmer_shift: usize,
    pub is_rc_m: VecDeque<bool>,
    pub encoding: Vec<u8>,
    pub rc_encoding: Vec<u8>,
    pub base_width: usize,
    pub min_pos: (usize, bool),
    pub end: usize,
}

impl<'a> CanonicalModSamplingPosIterator<'a> {
    /// The reduced key length.
    pub open spec fn t(self) -> int {
        self.base_width - self.width_t + 1
    }

    /// The k-mer length whose positions are sampled.
    pub open spec fn k(self) -> int {
        self.base_width - self.width + 1
    }

    /// The model rank of every canonical t-mer position.
    pub open spec fn ranks(self) -> Seq<u64> {
        canonical_kmer_rank_seq(self.encoding@, self.seq@, self.t(), self.queue.order)
    }

    /// The reverse-strand flag of every k-mer position.
    pub open spec fn flags(self) -> Seq<bool> {
        is_rc_seq(self.encoding@, self.seq@, self.k())
    }

    /// The full emitted-position sequence of this traversal.
    pub open spec fn out(self) -> Seq<int> {
        canonical_mod_minimizer_positions(
            self.seq@,
            self.encoding@,
            self.k(),
            self.t(),
            self.width as int,
            self.queue.order,
        )
    }

    pub open spec fn started(self) -> bool {
        self.queue.key_seq().len() > 0
    }

    pub open spec fn cfg_wf(self) -> bool {
        &&& enc_wf(self.encoding@)
        &&& enc_wf(self.rc_encoding@)
        &&& forall|b: int|
            0 <= b < 256 ==> #[trigger] self.rc_encoding@[b] == self.encoding@[comp_byte(
                b as u8,
            ) as int]
        &&& 1 <= self.t() <= 31
        &&& self.t() <= self.k() <= 32
        &&& 1 <= self.width <= u16::MAX
        &&& self.width % 2 == 1
        &&& self.width <= self.width_t <= u16::MAX
        &&& self.width_t % self.width == 0
        &&& self.queue.width as int == self.width_t as int
        &&& self.base_width == self.width_t + self.t() - 1
        &&& self.mmer_mask == pow4((self.k() - 1) as nat) - 1
        &&& self.tmer_mask == pow4(self.t() as nat) - 1
        &&& self.rc_mmer_shift == 2 * (self.k() - 1)
        &&& self.rc_tmer_shift == 2 * (self.k() - self.t())
        &&& self.queue.wf()
    }

    /// Registers, flag window and queue agree with the model after
    /// consuming `self.end` bases.
    pub open spec fn sync(self) -> bool {
        &&& self.base_width <= self.end <= self.seq@.len()
        &&& self.queue.key_seq().len() == self.end - self.t() + 1
        &&& forall|p: int|
            0 <= p < self.queue.key_seq().len() ==> #[trigger] self.queue.key_seq()[p] as nat
                == canonical_kmer_at(self.encoding@, self.seq@, self.t(), p)
        &&& self.mmer as nat == kmer_at(self.encoding@, self.seq@, self.k(), self.end - self.k())
        &&& self.rc_mmer as nat == rc_kmer_at(
            self.encoding@,
            self.seq@,
            self.k(),
            self.end - self.k(),
        )
        &&& self.rc_mmer < pow4(self.k() as nat)
        &&& self.is_rc_m@.len() == self.width
        &&& forall|d: int|
            0 <= d < self.width ==> #[trigger] self.is_rc_m@[d] == is_rc_at(
                self.encoding@,
                self.seq@,
                self.k(),
                self.end - self.base_width + d,
            )
    }

    pub open spec fn wf(self) -> bool {
        &&& self.cfg_wf()
        &&& if !self.started() {
            self.end == self.base_width && self.mmer == 0 && self.rc_mmer == 0
                && self.is_rc_m@.len() == 0
        } else {
            &&& self.sync()
            &&& self.min_pos.0 as int == canonical_mod_sel_at(
                self.ranks(),
                self.flags(),
                self.width as int,
                self.width_t as int,
                self.end - self.base_width,
            )
            &&& self.min_pos.1 == is_rc_at(
                self.encoding@,
                self.seq@,
                self.k(),
                self.min_pos.0 as int,
            )
        }
    }

    /// Number of records returned so far.
    pub open spec fn emitted(self) -> int {
        if !self.started() {
            0
        } else {
            rle(
                canonical_mod_sel_seq(
                    self.ranks(),
                    self.flags(),
                    self.width as int,
                    self.width_t as int,
                ).take(self.end - self.base_width + 1),
            ).len() as int
        }
    }

    pub open spec fn same_cfg(self, other: Self) -> bool {
        &&& self.seq == other.seq
        &&& self.encoding@ == other.encoding@
        &&& self.width == other.width
        &&& self.width_t == other.width_t
        &&& self.base_width == other.base_width
        &&& self.queue.order == other.queue.order
    }

    /// Sets up a canonical mod-sampling traversal of `seq`; the width must
    /// be odd and must divide the expanded window.
    pub fn new(
        seq: &'a [u8],
        minimizer_size: usize,
        width: u16,
        t: usize,
        order: KeyOrder,
        encoding: Vec<u8>,
    ) -> (it: Self)
        requires
            1 <= t <= 31,
            t <= minimizer_size <= 32,
            width >= 1,
            width % 2 == 1,
            width + minimizer_size - t <= u16::MAX,
            (width + minimizer_size - t) % (width as int) == 0,
            enc_wf(encoding@),
        ensures
            it.wf(),
            !it.started(),
            it.emitted() == 0,
            it.seq == seq,
            it.encoding@ == encoding@,
            it.k() == minimizer_size,
            it.t() == t,
            it.width == width as int,
            it.queue.order == order,
    {
        let width_t: u16 = width + ((minimizer_size - t) as u16);
        let queue = MinimizerQueue::new(width_t, order);
        let width = width as usize;
        let width_t = width_t as usize;
        let rc_encoding = complement_table(&encoding);
        CanonicalModSamplingPosIterator {
            seq,
            queue,
            width,
            width_t,
            mmer: 0,
            rc_mmer: 0,
            mmer_mask: code_mask(minimizer_size),
            tmer_mask: full_code_mask(t),
            rc_mmer_shift: 2 * (minimizer_size - 1),
            rc_tmer_shift: 2 * (minimizer_size - t),
            is_rc_m: VecDeque::new(),
            encoding,
            rc_encoding,
            base_width: width_t + t - 1,
            end: width_t + t - 1,
            min_pos: (0, false),
        }
    }

    /// Window-relative selected position and its strand flag, after the
    /// queue has admitted the expanded window ending at `self.end`.
    fn pick_rel(&self, Ghost(j): Ghost<int>) -> (r: (usize, bool))
        requires
            self.cfg_wf(),
            self.sync(),
            self.queue.key_seq().len() >= 1,
            j == self.end - self.base_width,
        ensures
            r.0 < self.width,
            j + r.0 == canonical_mod_sel_at(
                self.ranks(),
                self.flags(),
                self.width as int,
                self.width_t as int,
                j,
            ),
            r.1 == is_rc_at(self.encoding@, self.seq@, self.k(), j + r.0),
    {
        let w = self.width;
        let wt = self.width_t;
        let ghost enc = self.encoding@;
        let ghost s = self.seq@;
        let ghost t = self.t();
        let ghost k = self.k();
        let ghost ranks = self.ranks();
        let ghost flags = self.flags();
        proof {
            assert(self.queue.count == j + wt);
            assert(self.queue.win_start() == j);
            assert(self.queue.window() =~= self.queue.key_seq().skip(j));
            lemma_canonical_rank_window(enc, s, t, self.queue.order, self.queue.key_seq(), j,
                wt as int);
            assert(self.queue.wranks() =~= ranks.subrange(j, j + wt));
            lemma_pick_in_window(self.queue.wranks(), flags[j + w as int / 2]);
        }
        let not_canon = self.is_rc_m[w / 2];
        proof {
            assert(not_canon == flags[j + w as int / 2]);
        }
        let rel: usize = if self.queue.multiple_mins() {
            let im = self.queue.get_inner_min_pos();
            match im.2 {
                Some(alt) => if not_canon {
                    alt.1
                } else {
                    im.1
                },
                None => im.1,
            }
        } else {
            self.queue.get_min_pos().1
        };
        proof {
            assert(rel as int == pick_in_window(self.queue.wranks(), not_canon));
            assert(rel < wt);
        }
        let pos = rel % w;
        let flag = self.is_rc_m[pos];
        proof {
            assert(pos as int == pick_in_window(self.queue.wranks(), not_canon) % (w as int));
            assert(flag == is_rc_at(enc, s, k, j + pos));
        }
        (pos, flag)
    }

    /// Consumes the first full expanded window of bases, filling the
    /// registers, the strand flags and the queue.
    #[verifier::loop_isolation(false)]
    #[verifier::rlimit(100)]
    fn prime(&mut self)
        requires
            old(self).wf(),
            !old(self).started(),
            old(self).base_width <= old(self).seq@.len(),
        ensures
            final(self).cfg_wf(),
            final(self).sync(),
            final(self).started(),
            final(self).seq == old(self).seq,
            final(self).encoding == old(self).encoding,
            final(self).rc_encoding == old(self).rc_encoding,
            final(self).width == old(self).width,
            final(self).width_t == old(self).width_t,
            final(self).base_width == old(self).base_width,
            final(self).min_pos == old(self).min_pos,
            final(self).end == old(self).end,
            final(self).queue.order == old(self).queue.order,
    {
        let w = self.width;
        let wt = self.width_t;
        let ghost t = self.t();
        let ghost k = self.k();
        let ghost enc = self.encoding@;
        let ghost s = self.seq@;
        let ghost ord = self.queue.order;
        let ghost cds = codes_of(enc, s);
        let ghost rcc = rc_codes_of(enc, s);
        proof {
            assert(codes_wf(cds));
            assert(codes_wf(rcc));
            assert(rcc =~= codes_of(self.rc_encoding@, s));
            assert(cds.take(0) =~= Seq::<u8>::empty());
            assert(rcc.take(0).reverse() =~= Seq::<u8>::empty());
            assert(pack(Seq::<u8>::empty()) == 0);
            lemma_pow4_pos(0);
            lemma_pow4_pos(k as nat);
        }
        let kk = self.base_width - wt;  // t - 1 warm-up bases
        let mut i: usize = 0;
        while i < kk
            invariant
                i <= kk,
                self.seq == old(self).seq,
                self.encoding == old(self).encoding,
                self.rc_encoding == old(self).rc_encoding,
                self.width == old(self).width,
                self.width_t == old(self).width_t,
                self.base_width == old(self).base_width,
                self.queue == old(self).queue,
                self.is_rc_m == old(self).is_rc_m,
                self.min_pos == old(self).min_pos,
                self.end == old(self).end,
                self.mmer_mask == old(self).mmer_mask,
                self.tmer_mask == old(self).tmer_mask,
                self.rc_mmer_shift == old(self).rc_mmer_shift,
                self.rc_tmer_shift == old(self).rc_tmer_shift,
                self.mmer as nat == pack(cds.take(i as int)),
                self.mmer < pow4(i as nat),
                self.rc_mmer as nat == pack(rcc.take(i as int).reverse()) * pow4((k - i) as nat),
                self.rc_mmer < pow4(k as nat),
            decreases kk - i,
        {
            let c = self.encoding[self.seq[i] as usize];
            let rc_c = self.rc_encoding[self.seq[i] as usize];
            proof {
                assert(c == cds[i as int]);
                assert(c < 4);
                assert(rc_c == rcc[i as int]);
                assert(rc_c < 4);
                lemma_pack_bound(cds.take(i as int));
                lemma_pow4_mono(i as nat, (k - 1) as nat);
                lemma_small_mod(self.mmer as nat, pow4((k - 1) as nat));
                assert(cds.take(i + 1) =~= cds.take(i as int).push(cds[i as int]));
                lemma_pack_push(cds.take(i as int), cds[i as int]);
                lemma_pack_bound(cds.take(i + 1));
                lemma_rc_warm_step(rcc, k, i as int);
            }
            self.mmer = push_code(self.mmer, c, self.mmer_mask, Ghost(k as nat));
            self.rc_mmer = push_rc_code(self.rc_mmer, rc_c, self.rc_mmer_shift, Ghost(k as nat));
            i = i + 1;
        }
        while i < self.base_width
            invariant
                kk <= i <= self.base_width,
                self.seq == old(self).seq,
                self.encoding == old(self).encoding,
                self.rc_encoding == old(self).rc_encoding,
                self.width == old(self).width,
                self.width_t == old(self).width_t,
                self.base_width == old(self).base_width,
                self.min_pos == old(self).min_pos,
                self.end == old(self).end,
                self.mmer_mask == old(self).mmer_mask,
                self.tmer_mask == old(self).tmer_mask,
                self.rc_mmer_shift == old(self).rc_mmer_shift,
                self.rc_tmer_shift == old(self).rc_tmer_shift,
                self.queue.wf(),
                self.queue.width == old(self).queue.width,
                self.queue.order == ord,
                self.queue.key_seq().len() == i - kk,
                forall|p: int|
                    0 <= p < i - kk ==> #[trigger] self.queue.key_seq()[p] as nat
                        == canonical_kmer_at(enc, s, t, p),
                self.is_rc_m@.len() == if i >= k {
                    i - k + 1
                } else {
                    0
                },
                forall|d: int|
                    0 <= d < self.is_rc_m@.len() ==> #[trigger] self.is_rc_m@[d] == is_rc_at(
                        enc,
                        s,
                        k,
                        d,
                    ),
                self.mmer as nat == pack(cds.subrange(if i >= k { i - k } else { 0 }, i as int)),
                self.rc_mmer as nat == (if i >= k {
                    pack(rcc.subrange(i - k, i as int).reverse())
                } else {
                    pack(rcc.take(i as int).reverse()) * pow4((k - i) as nat)
                }),
                self.rc_mmer < pow4(k as nat),
            decreases self.base_width - i,
        {
            let ghost lo: int = if i >= k { i - k } else { 0 };
            let c = self.encoding[self.seq[i] as usize];
            let rc_c = self.rc_encoding[self.seq[i] as usize];
            proof {
                assert(c == cds[i as int]);
                assert(c < 4);
                assert(rc_c == rcc[i as int]);
                assert(rc_c < 4);
                let u = cds.subrange(lo, i as int);
                assert(codes_wf(u));
                lemma_pack_bound(u);
                if i < k {
                    assert(u.len() == i - lo);
                    lemma_pow4_mono((i - lo) as nat, (k - 1) as nat);
                    lemma_small_mod(self.mmer as nat, pow4((k - 1) as nat));
                    lemma_pack_push(u, cds[i as int]);
                    assert(cds.subrange(lo, i + 1) =~= u.push(cds[i as int]));
                    lemma_rc_warm_step(rcc, k, i as int);
                } else {
                    lemma_pack_roll(cds, k, i - k);
                    lemma_rc_roll(rcc, k, i - k);
                    assert(codes_wf(rcc.subrange(i + 1 - k, i + 1).reverse())) by {
                        assert(forall|j: int|
                            0 <= j < k ==> #[trigger] rcc.subrange(
                                i + 1 - k,
                                i + 1,
                            ).reverse()[j] == rcc[i - j]);
                    }
                    lemma_pack_bound(rcc.subrange(i + 1 - k, i + 1).reverse());
                }
            }
            self.mmer = push_code(self.mmer, c, self.mmer_mask, Ghost(k as nat));
            self.rc_mmer = push_rc_code(self.rc_mmer, rc_c, self.rc_mmer_shift, Ghost(k as nat));
            proof {
                if i + 1 >= k {
                    assert(i + 1 >= k);
                    if i < k {
                        assert(i + 1 == k);
                        assert(self.rc_mmer as nat == pack(rcc.take(i + 1).reverse()) * pow4(
                            (k - i - 1) as nat,
                        ));
                        lemma_rc_tmer_warm(enc, s, k, t, i as int);
                        assert((k - i - 1) as nat == 0);
                        assert(pow4(0) == 1) by {
                            vstd::arithmetic::power2::lemma2_to64();
                        }
                        let x = pack(rcc.take(i + 1).reverse());
                        assert(pow4((k - i - 1) as nat) == 1);
                        assert(x * pow4((k - i - 1) as nat) == x * 1) by (nonlinear_arith)
                            requires
                                pow4((k - i - 1) as nat) == 1,
                        ;
                        assert(x * 1 == x) by (nonlinear_arith);
                        assert(self.rc_mmer as nat == pack(rcc.take(i + 1).reverse()));
                        assert(rcc.take(i + 1) =~= rcc.subrange(i + 1 - k, i + 1));
                    }
                    assert(self.mmer as nat == kmer_at(enc, s, k, i + 1 - k));
                    assert(self.rc_mmer as nat == rc_kmer_at(enc, s, k, i + 1 - k));
                    lemma_tmer_low(enc, s, k, t, i + 1 - k);
                    lemma_rc_tmer_high(enc, s, k, t, i + 1 - k);
                    assert(codes_wf(rcc.subrange(i + 1 - k, i + 1).reverse())) by {
                        assert(forall|j: int|
                            0 <= j < k ==> #[trigger] rcc.subrange(
                                i + 1 - k,
                                i + 1,
                            ).reverse()[j] == rcc[i - j]);
                    }
                    lemma_pack_bound(rcc.subrange(i + 1 - k, i + 1).reverse());
                } else {
                    assert(self.mmer as nat == pack(cds.take(i + 1)));
                    crate::model::lemma_pack_low(cds.take(i + 1), t);
                    assert(cds.take(i + 1).skip(i + 1 - t) =~= cds.subrange(i + 1 - t, i + 1));
                    lemma_rc_tmer_warm(enc, s, k, t, i as int);
                }
                assert(self.mmer as nat % pow4(t as nat) == kmer_at(enc, s, t, i + 1 - t));
                assert(self.rc_mmer as nat / pow4((k - t) as nat) == rc_kmer_at(
                    enc,
                    s,
                    t,
                    i + 1 - t,
                ));
            }
            let tm = low_codes(self.mmer, self.tmer_mask, Ghost(t as nat));
            let rc_tm = high_codes(self.rc_mmer, self.rc_tmer_shift, Ghost((k - t) as nat));
            let ctm = if rc_tm <= tm {
                rc_tm
            } else {
                tm
            };
            proof {
                assert(ctm as nat == canonical_kmer_at(enc, s, t, i + 1 - t));
            }
            self.queue.insert(ctm);
            if i + 1 >= self.base_width - w + 1 {
                self.is_rc_m.push_back(self.rc_mmer <= self.mmer);
                proof {
                    assert(i + 1 >= k);
                    assert(self.is_rc_m@.len() == i + 1 - k + 1);
                }
            }
            i = i + 1;
        }
        proof {
            assert(self.is_rc_m@.len() == w);
        }
    }

    /// Admits one more base: rolls both registers, inserts the canonical
    /// reduced key and slides the strand-flag window.
    #[verifier::rlimit(100)]
    fn advance_window(&mut self)
        requires
            old(self).cfg_wf(),
            old(self).sync(),
            old(self).end < old(self).seq@.len(),
        ensures
            final(self).cfg_wf(),
            final(self).sync(),
            final(self).end == old(self).end + 1,
            final(self).seq == old(self).seq,
            final(self).encoding == old(self).encoding,
            final(self).rc_encoding == old(self).rc_encoding,
            final(self).width == old(self).width,
            final(self).width_t == old(self).width_t,
            final(self).base_width == old(self).base_width,
            final(self).min_pos == old(self).min_pos,
            final(self).queue.order == old(self).queue.order,
    {
        let ghost t = self.t();
        let ghost k = self.k();
        let ghost enc = self.encoding@;
        let ghost s = self.seq@;
        let ghost cds = codes_of(enc, s);
        let ghost rcc = rc_codes_of(enc, s);
        let ghost w = self.width as int;
        proof {
            assert(codes_wf(cds));
            assert(codes_wf(rcc));
            assert(rcc =~= codes_of(self.rc_encoding@, s));
        }
        let c = self.encoding[self.seq[self.end] as usize];
        let rc_c = self.rc_encoding[self.seq[self.end] as usize];
        proof {
            assert(c == cds[self.end as int]);
            assert(c < 4);
            assert(rc_c == rcc[self.end as int]);
            assert(rc_c < 4);
            lemma_pack_roll(cds, k, self.end - k);
            lemma_rc_roll(rcc, k, self.end - k);
            assert(codes_wf(rcc.subrange(self.end + 1 - k, self.end + 1).reverse())) by {
                assert(forall|j: int|
                    0 <= j < k ==> #[trigger] rcc.subrange(
                        self.end + 1 - k,
                        self.end + 1,
                    ).reverse()[j] == rcc[self.end - j]);
            }
            lemma_pack_bound(rcc.subrange(self.end + 1 - k, self.end + 1).reverse());
        }
        self.mmer = push_code(self.mmer, c, self.mmer_mask, Ghost(k as nat));
        self.rc_mmer = push_rc_code(self.rc_mmer, rc_c, self.rc_mmer_shift, Ghost(k as nat));
        proof {
            assert(self.mmer as nat == kmer_at(enc, s, k, self.end + 1 - k));
            assert(self.rc_mmer as nat == rc_kmer_at(enc, s, k, self.end + 1 - k));
            lemma_tmer_low(enc, s, k, t, self.end + 1 - k);
            lemma_rc_tmer_high(enc, s, k, t, self.end + 1 - k);
            assert(self.mmer as nat % pow4(t as nat) == kmer_at(enc, s, t, self.end + 1 - t));
            assert(self.rc_mmer as nat / pow4((k - t) as nat) == rc_kmer_at(
                enc,
                s,
                t,
                self.end + 1 - t,
            ));
        }
        let tm = low_codes(self.mmer, self.tmer_mask, Ghost(t as nat));
        let rc_tm = high_codes(self.rc_mmer, self.rc_tmer_shift, Ghost((k - t) as nat));
        let ctm = if rc_tm <= tm {
            rc_tm
        } else {
            tm
        };
        proof {
            assert(ctm as nat == canonical_kmer_at(enc, s, t, self.end + 1 - t));
        }
        self.queue.insert(ctm);
        self.is_rc_m.pop_front();
        self.is_rc_m.push_back(self.rc_mmer <= self.mmer);
        self.end = self.end + 1;
        proof {
            let j = self.end - self.base_width;
            assert forall|d: int| 0 <= d < w implies #[trigger] self.is_rc_m@[d] == is_rc_at(
                enc,
                s,
                k,
                j + d,
            ) by {
                if d < w - 1 {
                    assert(self.is_rc_m@[d] == old(self).is_rc_m@[d + 1]);
                    assert(old(self).is_rc_m@[d + 1] == is_rc_at(enc, s, k, j - 1 + d + 1));
                } else {
                    assert(self.is_rc_m@[d] == is_rc_at(enc, s, k, self.end - k));
                }
            }
        }
    }

    /// Produces the next canonical mod-sampling minimizer position and
    /// strand flag, or `None` when the sequence is exhausted.
    #[verifier::loop_isolation(false)]
    #[verifier::rlimit(100)]
    pub fn next(&mut self) -> (r: Option<(usize, bool)>)
        requires
            old(self).wf(),
        ensures
            final(self).wf(),
            old(self).same_cfg(*final(self)),
            ({
                let out = old(self).out();
                let e0 = old(self).emitted();
                match r {
                    Some(rec) => e0 < out.len() && rec.0 as int == out[e0] && rec.1 == is_rc_at(
                        old(self).encoding@,
                        old(self).seq@,
                        old(self).k(),
                        rec.0 as int,
                    ) && final(self).emitted() == e0 + 1,
                    None => e0 == out.len() && final(self).emitted() == e0,
                }
            }),
    {
        let w = self.width;
        let wt = self.width_t;
        let ghost k = self.k();
        let ghost t = self.t();
        let ghost enc = self.encoding@;
        let ghost s = self.seq@;
        let ghost ranks = self.ranks();
        let ghost flags = self.flags();
        if self.queue.is_empty() {
            if self.base_width > self.seq.len() {
                proof {
                    assert(self.out() =~= Seq::<int>::empty());
                }
                return None;
            }
            self.prime();
            let picked = self.pick_rel(Ghost(0));
            self.min_pos = (picked.0, picked.1);
            proof {
                assert(self.min_pos.0 as int == canonical_mod_sel_at(
                    ranks,
                    flags,
                    w as int,
                    wt as int,
                    0,
                ));
                let ss = canonical_mod_sel_seq(ranks, flags, w as int, wt as int);
                assert(ss.len() >= 1);
                assert(ss[0] == canonical_mod_sel_at(ranks, flags, w as int, wt as int, 0));
                assert(ss.take(1) =~= seq![ss[0]]);
                assert(rle(ss.take(1)) == seq![ss[0]]) by {
                    assert(ss.take(1).len() == 1);
                }
                lemma_rle_prefix(ss, 1);
                assert(self.out() == rle(ss));
                assert(rle(ss).take(1) == rle(ss.take(1)));
                assert(rle(ss)[0] == ss[0]);
                assert(self.emitted() == 1);
                assert(self.end - self.base_width == 0);
            }
            Some(self.min_pos)
        } else {
            let mut min_pos = self.min_pos;
            let ghost j0: int = self.end - self.base_width;
            let ghost r0 = rle(
                canonical_mod_sel_seq(ranks, flags, w as int, wt as int).take(j0 + 1),
            );
            proof {
                assert(old(self).emitted() == r0.len());
            }
            while self.end < self.seq.len() && min_pos.0 == self.min_pos.0
                invariant
                    self.seq == old(self).seq,
                    self.encoding == old(self).encoding,
                    self.rc_encoding == old(self).rc_encoding,
                    self.width == old(self).width,
                    self.width_t == old(self).width_t,
                    self.base_width == old(self).base_width,
                    self.min_pos == old(self).min_pos,
                    self.queue.order == old(self).queue.order,
                    self.cfg_wf(),
                    self.started(),
                    self.sync(),
                    j0 <= self.end - self.base_width,
                    min_pos.0 as int == canonical_mod_sel_at(
                        ranks,
                        flags,
                        w as int,
                        wt as int,
                        self.end - self.base_width,
                    ),
                    min_pos.1 == is_rc_at(enc, s, k, min_pos.0 as int),
                    if min_pos.0 == self.min_pos.0 {
                        rle(
                            canonical_mod_sel_seq(ranks, flags, w as int, wt as int).take(
                                self.end - self.base_width + 1,
                            ),
                        ) == r0
                    } else {
                        rle(
                            canonical_mod_sel_seq(ranks, flags, w as int, wt as int).take(
                                self.end - self.base_width + 1,
                            ),
                        ) == r0.push(min_pos.0 as int)
                    },
                decreases self.seq@.len() - self.end,
            {
                let ghost jprev: int = self.end - self.base_width;
                self.advance_window();
                let ghost jnew: int = self.end - self.base_width;
                let picked = self.pick_rel(Ghost(jnew));
                min_pos = (self.end - self.base_width + picked.0, picked.1);
                proof {
                    let j = self.end - self.base_width;
                    assert(min_pos.0 as int == canonical_mod_sel_at(
                        ranks,
                        flags,
                        w as int,
                        wt as int,
                        j,
                    ));
                    let ss = canonical_mod_sel_seq(ranks, flags, w as int, wt as int);
                    assert(ss.take(j + 1) =~= ss.take(j).push(ss[j]));
                    assert(ss[j] == canonical_mod_sel_at(ranks, flags, w as int, wt as int, j));
                    assert(ss[j - 1] == canonical_mod_sel_at(
                        ranks,
                        flags,
                        w as int,
                        wt as int,
                        jprev,
                    ));
                    lemma_rle_last(ss.take(j));
                    assert(ss.take(j).last() == ss[j - 1]);
                    lemma_rle_step(ss.take(j), ss[j]);
                }
            }
            if min_pos.0 == self.min_pos.0 {
                proof {
                    let j = self.end - self.base_width;
                    let ss = canonical_mod_sel_seq(ranks, flags, w as int, wt as int);
                    assert(self.end == s.len());
                    assert(ss.len() == j + 1);
                    assert(ss.take(j + 1) =~= ss);
                    assert(old(self).emitted() == self.out().len());
                    assert(self.emitted() == old(self).emitted());
                }
                return None;
            }
            self.min_pos = min_pos;
            proof {
                let j = self.end - self.base_width;
                let ss = canonical_mod_sel_seq(ranks, flags, w as int, wt as int);
                lemma_rle_prefix(ss, j + 1);
                assert(rle(ss.take(j + 1)) == r0.push(min_pos.0 as int));
                assert(rle(ss).take(r0.len() as int + 1) == r0.push(min_pos.0 as int));
                assert(r0.len() + 1 <= rle(ss).len());
                assert(rle(ss).take(r0.len() as int + 1)[r0.len() as int] == rle(
                    ss,
                )[r0.len() as int]);
                assert(r0.push(min_pos.0 as int)[r0.len() as int] == min_pos.0 as int);
                assert(rle(ss)[r0.len() as int] == min_pos.0 as int);
                assert(self.emitted() == r0.len() + 1);
            }
            Some(min_pos)
        }
    }
}

/// An iterator over the canonical mod-sampling minimizers of a sequence
/// and their positions, with a flag marking positions whose canonical form
/// is the reverse complement.  Requires an odd width, and an expanded
/// window that is a multiple of the width, so ties break symmetrically.
pub struct CanonicalModSamplingIterator<'a> {
    pub seq: &'a [u8],
    pub queue: MinimizerQueue,
    pub width: usize,
    pub width_t: usize,
    pub mmer: u64,
    pub rc_mmer: u64,
    pub mmer_mask: u64,
    pub tmer_mask: u64,
    pub rc_mmer_shift: usize,
    pub rc_tmer_shift: usize,
    pub canon_mmers: VecDeque<(u64, bool)>,
    pub encoding: Vec<u8>,
    pub rc_encoding: Vec<u8>,
    pub base_width: usize,
    pub min_pos: (u64, usize, bool),
    pub end: usize,
}

impl<'a> CanonicalModSamplingIterator<'a> {
    /// The reduced key length.
    pub open spec fn t(self) -> int {
        self.base_width - self.width_t + 1
    }

    /// The k-mer length whose positions are sampled.
    pub open spec fn k(self) -> int {
        self.base_width - self.width + 1
    }

    /// The model rank of every canonical t-mer position.
    pub open spec fn ranks(self) -> Seq<u64> {
        canonical_kmer_rank_seq(self.encoding@, self.seq@, self.t(), self.queue.order)
    }

    /// The reverse-strand flag of every k-mer position.
    pub open spec fn flags(self) -> Seq<bool> {
        is_rc_seq(self.encoding@, self.seq@, self.k())
    }

    /// The full emitted-position sequence of this traversal.
    pub open spec fn out(self) -> Seq<int> {
        canonical_mod_minimizer_positions(
            self.seq@,
            self.encoding@,
            self.k(),
            self.t(),
            self.width as int,
            self.queue.order,
        )
    }

    pub open spec fn started(self) -> bool {
        self.queue.key_seq().len() > 0
    }

    pub open spec fn cfg_wf(self) -> bool {
        &&& enc_wf(self.encoding@)
        &&& enc_wf(self.rc_encoding@)
        &&& forall|b: int|
            0 <= b < 256 ==> #[trigger] self.rc_encoding@[b] == self.encoding@[comp_byte(
                b as u8,
            ) as int]
        &&& 1 <= self.t() <= 31
        &&& self.t() <= self.k() <= 32
        &&& 1 <= self.width <= u16::MAX
        &&& self.width % 2 == 1
        &&& self.width <= self.width_t <= u16::MAX
        &&& self.width_t % self.width == 0
        &&& self.queue.width as int == self.width_t as int
        &&& self.base_width == self.width_t + self.t() - 1
        &&& self.mmer_mask == pow4((self.k() - 1) as nat) - 1
        &&& self.tmer_mask == pow4(self.t() as nat) - 1
        &&& self.rc_mmer_shift == 2 * (self.k() - 1)
        &&& self.rc_tmer_shift == 2 * (self.k() - self.t())
        &&& self.queue.wf()
    }

    /// Registers, flag window and queue agree with the model after
    /// consuming `self.end` bases.
    pub open spec fn sync(self) -> bool {
        &&& self.base_width <= self.end <= self.seq@.len()
        &&& self.queue.key_seq().len() == self.end - self.t() + 1
        &&& forall|p: int|
            0 <= p < self.queue.key_seq().len() ==> #[trigger] self.queue.key_seq()[p] as nat
                == canonical_kmer_at(self.encoding@, self.seq@, self.t(), p)
        &&& self.mmer as nat == kmer_at(self.encoding@, self.seq@, self.k(), self.end - self.k())
        &&& self.rc_mmer as nat == rc_kmer_at(
            self.encoding@,
            self.seq@,
            self.k(),
            self.end - self.k(),
        )
        &&& self.rc_mmer < pow4(self.k() as nat)
        &&& self.canon_mmers@.len() == self.width
        &&& forall|d: int|
            0 <= d < self.width ==> (#[trigger] self.canon_mmers@[d]).0 as nat
                == canonical_kmer_at(
                self.encoding@,
                self.seq@,
                self.k(),
                self.end - self.base_width + d,
            ) && self.canon_mmers@[d].1 == is_rc_at(
                self.encoding@,
                self.seq@,
                self.k(),
                self.end - self.base_width + d,
            )
    }

    pub open spec fn wf(self) -> bool {
        &&& self.cfg_wf()
        &&& if !self.started() {
            self.end == self.base_width && self.mmer == 0 && self.rc_mmer == 0
                && self.canon_mmers@.len() == 0
        } else {
            &&& self.sync()
            &&& self.min_pos.1 as int == canonical_mod_sel_at(
                self.ranks(),
                self.flags(),
                self.width as int,
                self.width_t as int,
                self.end - self.base_width,
            )
            &&& self.min_pos.0 as nat == canonical_kmer_at(
                self.encoding@,
                self.seq@,
                self.k(),
                self.min_pos.1 as int,
            )
            &&& self.min_pos.2 == is_rc_at(
                self.encoding@,
                self.seq@,
                self.k(),
                self.min_pos.1 as int,
            )
        }
    }

    /// Number of records returned so far.
    pub open spec fn emitted(self) -> int {
        if !self.started() {
            0
        } else {
            rle(
                canonical_mod_sel_seq(
                    self.ranks(),
                    self.flags(),
                    self.width as int,
                    self.width_t as int,
                ).take(self.end - self.base_width + 1),
            ).len() as int
        }
    }

    pub open spec fn same_cfg(self, other: Self) -> bool {
        &&& self.seq == other.seq
        &&& self.encoding@ == other.encoding@
        &&& self.width == other.width
        &&& self.width_t == other.width_t
        &&& self.base_width == other.base_width
        &&& self.queue.order == other.queue.order
    }

    /// Sets up a canonical mod-sampling traversal of `seq`; the width must
    /// be odd and must divide the expanded window.
    pub fn new(
        seq: &'a [u8],
        minimizer_size: usize,
        width: u16,
        t: usize,
        order: KeyOrder,
        encoding: Vec<u8>,
    ) -> (it: Self)
        requires
            1 <= t <= 31,
            t <= minimizer_size <= 32,
            width >= 1,
            width % 2 == 1,
            width + minimizer_size - t <= u16::MAX,
            (width + minimizer_size - t) % (width as int) == 0,
            enc_wf(encoding@),
        ensures
            it.wf(),
            !it.started(),
            it.emitted() == 0,
            it.seq == seq,
            it.encoding@ == encoding@,
            it.k() == minimizer_size,
            it.t() == t,
            it.width == width as int,
            it.queue.order == order,
    {
        let width_t: u16 = width + ((minimizer_size - t) as u16);
        let queue = MinimizerQueue::new(width_t, order);
        let width = width as usize;
        let width_t = width_t as usize;
        let rc_encoding = complement_table(&encoding);
        CanonicalModSamplingIterator {
            seq,
            queue,
            width,
            width_t,
            mmer: 0,
            rc_mmer: 0,
            mmer_mask: code_mask(minimizer_size),
            tmer_mask: full_code_mask(t),
            rc_mmer_shift: 2 * (minimizer_size - 1),
            rc_tmer_shift: 2 * (minimizer_size - t),
            canon_mmers: VecDeque::new(),
            encoding,
            rc_encoding,
            base_width: width_t + t - 1,
            end: width_t + t - 1,
            min_pos: (0, 0, false),
        }
    }

    /// Window-relative selected position and its strand flag, after the
    /// queue has admitted the expanded window ending at `self.end`.
    fn pick_rel(&self, Ghost(j): Ghost<int>) -> (r: (u64, usize, bool))
        requires
            self.cfg_wf(),
            self.sync(),
            self.queue.key_seq().len() >= 1,
            j == self.end - self.base_width,
        ensures
            r.1 < self.width,
            j + r.1 == canonical_mod_sel_at(
                self.ranks(),
                self.flags(),
                self.width as int,
                self.width_t as int,
                j,
            ),
            r.0 as nat == canonical_kmer_at(self.encoding@, self.seq@, self.k(), j + r.1),
            r.2 == is_rc_at(self.encoding@, self.seq@, self.k(), j + r.1),
    {
        let w = self.width;
        let wt = self.width_t;
        let ghost enc = self.encoding@;
        let ghost s = self.seq@;
        let ghost t = self.t();
        let ghost k = self.k();
        let ghost ranks = self.ranks();
        let ghost flags = self.flags();
        proof {
            assert(self.queue.count == j + wt);
            assert(self.queue.win_start() == j);
            assert(self.queue.window() =~= self.queue.key_seq().skip(j));
            lemma_canonical_rank_window(enc, s, t, self.queue.order, self.queue.key_seq(), j,
                wt as int);
            assert(self.queue.wranks() =~= ranks.subrange(j, j + wt));
            lemma_pick_in_window(self.queue.wranks(), flags[j + w as int / 2]);
        }
        let not_canon = self.canon_mmers[w / 2].1;
        proof {
            assert(not_canon == flags[j + w as int / 2]);
        }
        let rel: usize = if self.queue.multiple_mins() {
            let im = self.queue.get_inner_min_pos();
            match im.2 {
                Some(alt) => if not_canon {
                    alt.1
                } else {
                    im.1
                },
                None => im.1,
            }
        } else {
            self.queue.get_min_pos().1
        };
        proof {
            assert(rel as int == pick_in_window(self.queue.wranks(), not_canon));
            assert(rel < wt);
        }
        let pos = rel % w;
        let entry = self.canon_mmers[pos];
        proof {
            assert(pos as int == pick_in_window(self.queue.wranks(), not_canon) % (w as int));
            assert(entry.0 as nat == canonical_kmer_at(enc, s, k, j + pos));
            assert(entry.1 == is_rc_at(enc, s, k, j + pos));
        }
        (entry.0, pos, entry.1)
    }

    /// Consumes the first full expanded window of bases, filling the
    /// registers, the strand flags and the queue.
    #[verifier::loop_isolation(false)]
    #[verifier::rlimit(100)]
    fn prime(&mut self)
        requires
            old(self).wf(),
            !old(self).started(),
            old(self).base_width <= old(self).seq@.len(),
        ensures
            final(self).cfg_wf(),
            final(self).sync(),
            final(self).started(),
            final(self).seq == old(self).seq,
            final(self).encoding == old(self).encoding,
            final(self).rc_encoding == old(self).rc_encoding,
            final(self).width == old(self).width,
            final(self).width_t == old(self).width_t,
            final(self).base_width == old(self).base_width,
            final(self).min_pos == old(self).min_pos,
            final(self).end == old(self).end,
            final(self).queue.order == old(self).queue.order,
    {
        let w = self.width;
        let wt = self.width_t;
        let ghost t = self.t();
        let ghost k = self.k();
        let ghost enc = self.encoding@;
        let ghost s = self.seq@;
        let ghost ord = self.queue.order;
        let ghost cds = codes_of(enc, s);
        let ghost rcc = rc_codes_of(enc, s);
        proof {
            assert(codes_wf(cds));
            assert(codes_wf(rcc));
            assert(rcc =~= codes_of(self.rc_encoding@, s));
            assert(cds.take(0) =~= Seq::<u8>::empty());
            assert(rcc.take(0).reverse() =~= Seq::<u8>::empty());
            assert(pack(Seq::<u8>::empty()) == 0);
            lemma_pow4_pos(0);
            lemma_pow4_pos(k as nat);
        }
        let kk = self.base_width - wt;  // t - 1 warm-up bases
        let mut i: usize = 0;
        while i < kk
            invariant
                i <= kk,
                self.seq == old(self).seq,
                self.encoding == old(self).encoding,
                self.rc_encoding == old(self).rc_encoding,
                self.width == old(self).width,
                self.width_t == old(self).width_t,
                self.base_width == old(self).base_width,
                self.queue == old(self).queue,
                self.canon_mmers == old(self).canon_mmers,
                self.min_pos == old(self).min_pos,
                self.end == old(self).end,
                self.mmer_mask == old(self).mmer_mask,
                self.tmer_mask == old(self).tmer_mask,
                self.rc_mmer_shift == old(self).rc_mmer_shift,
                self.rc_tmer_shift == old(self).rc_tmer_shift,
                self.mmer as nat == pack(cds.take(i as int)),
                self.mmer < pow4(i as nat),
                self.rc_mmer as nat == pack(rcc.take(i as int).reverse()) * pow4((k - i) as nat),
                self.rc_mmer < pow4(k as nat),
            decreases kk - i,
        {
            let c = self.encoding[self.seq[i] as usize];
            let rc_c = self.rc_encoding[self.seq[i] as usize];
            proof {
                assert(c == cds[i as int]);
                assert(c < 4);
                assert(rc_c == rcc[i as int]);
                assert(rc_c < 4);
                lemma_pack_bound(cds.take(i as int));
                lemma_pow4_mono(i as nat, (k - 1) as nat);
                lemma_small_mod(self.mmer as nat, pow4((k - 1) as nat));
                assert(cds.take(i + 1) =~= cds.take(i as int).push(cds[i as int]));
                lemma_pack_push(cds.take(i as int), cds[i as int]);
                lemma_pack_bound(cds.take(i + 1));
                lemma_rc_warm_step(rcc, k, i as int);
            }
            self.mmer = push_code(self.mmer, c, self.mmer_mask, Ghost(k as nat));
            self.rc_mmer = push_rc_code(self.rc_mmer, rc_c, self.rc_mmer_shift, Ghost(k as nat));
            i = i + 1;
        }
        while i < self.base_width
            invariant
                kk <= i <= self.base_width,
                self.seq == old(self).seq,
                self.encoding == old(self).encoding,
                self.rc_encoding == old(self).rc_encoding,
                self.width == old(self).width,
                self.width_t == old(self).width_t,
                self.base_width == old(self).base_width,
                self.min_pos == old(self).min_pos,
                self.end == old(self).end,
                self.mmer_mask == old(self).mmer_mask,
                self.tmer_mask == old(self).tmer_mask,
                self.rc_mmer_shift == old(self).rc_mmer_shift,
                self.rc_tmer_shift == old(self).rc_tmer_shift,
                self.queue.wf(),
                self.queue.width == old(self).queue.width,
                self.queue.order == ord,
                self.queue.key_seq().len() == i - kk,
                forall|p: int|
                    0 <= p < i - kk ==> #[trigger] self.queue.key_seq()[p] as nat
                        == canonical_kmer_at(enc, s, t, p),
                self.canon_mmers@.len() == if i >= k {
                    i - k + 1
                } else {
                    0
                },
                forall|d: int|
                    0 <= d < self.canon_mmers@.len() ==> (#[trigger] self.canon_mmers@[d]).0 as nat
                        == canonical_kmer_at(enc, s, k, d) && self.canon_mmers@[d].1 == is_rc_at(
                        enc,
                        s,
                        k,
                        d,
                    ),
                self.mmer as nat == pack(cds.subrange(if i >= k { i - k } else { 0 }, i as int)),
                self.rc_mmer as nat == (if i >= k {
                    pack(rcc.subrange(i - k, i as int).reverse())
                } else {
                    pack(rcc.take(i as int).reverse()) * pow4((k - i) as nat)
                }),
                self.rc_mmer < pow4(k as nat),
            decreases self.base_width - i,
        {
            let ghost lo: int = if i >= k { i - k } else { 0 };
            let c = self.encoding[self.seq[i] as usize];
            let rc_c = self.rc_encoding[self.seq[i] as usize];
            proof {
                assert(c == cds[i as int]);
                assert(c < 4);
                assert(rc_c == rcc[i as int]);
                assert(rc_c < 4);
                let u = cds.subrange(lo, i as int);
                assert(codes_wf(u));
                lemma_pack_bound(u);
                if i < k {
                    assert(u.len() == i - lo);
                    lemma_pow4_mono((i - lo) as nat, (k - 1) as nat);
                    lemma_small_mod(self.mmer as nat, pow4((k - 1) as nat));
                    lemma_pack_push(u, cds[i as int]);
                    assert(cds.subrange(lo, i + 1) =~= u.push(cds[i as int]));
                    lemma_rc_warm_step(rcc, k, i as int);
                } else {
                    lemma_pack_roll(cds, k, i - k);
                    lemma_rc_roll(rcc, k, i - k);
                    assert(codes_wf(rcc.subrange(i + 1 - k, i + 1).reverse())) by {
                        assert(forall|j: int|
                            0 <= j < k ==> #[trigger] rcc.subrange(
                                i + 1 - k,
                                i + 1,
                            ).reverse()[j] == rcc[i - j]);
                    }
                    lemma_pack_bound(rcc.subrange(i + 1 - k, i + 1).reverse());
                }
            }
            self.mmer = push_code(self.mmer, c, self.mmer_mask, Ghost(k as nat));
            self.rc_mmer = push_rc_code(self.rc_mmer, rc_c, self.rc_mmer_shift, Ghost(k as nat));
            proof {
                if i + 1 >= k {
                    assert(i + 1 >= k);
                    if i < k {
                        assert(i + 1 == k);
                        assert(self.rc_mmer as nat == pack(rcc.take(i + 1).reverse()) * pow4(
                            (k - i - 1) as nat,
                        ));
                        lemma_rc_tmer_warm(enc, s, k, t, i as int);
                        assert((k - i - 1) as nat == 0);
                        assert(pow4(0) == 1) by {
                            vstd::arithmetic::power2::lemma2_to64();
                        }
                        let x = pack(rcc.take(i + 1).reverse());
                        assert(pow4((k - i - 1) as nat) == 1);
                        assert(x * pow4((k - i - 1) as nat) == x * 1) by (nonlinear_arith)
                            requires
                                pow4((k - i - 1) as nat) == 1,
                        ;
                        assert(x * 1 == x) by (nonlinear_arith);
                        assert(self.rc_mmer as nat == pack(rcc.take(i + 1).reverse()));
                        assert(rcc.take(i + 1) =~= rcc.subrange(i + 1 - k, i + 1));
                    }
                    assert(self.mmer as nat == kmer_at(enc, s, k, i + 1 - k));
                    assert(self.rc_mmer as nat == rc_kmer_at(enc, s, k, i + 1 - k));
                    lemma_tmer_low(enc, s, k, t, i + 1 - k);
                    lemma_rc_tmer_high(enc, s, k, t, i + 1 - k);
                    assert(codes_wf(rcc.subrange(i + 1 - k, i + 1).reverse())) by {
                        assert(forall|j: int|
                            0 <= j < k ==> #[trigger] rcc.subrange(
                                i + 1 - k,
                                i + 1,
                            ).reverse()[j] == rcc[i - j]);
                    }
                    lemma_pack_bound(rcc.subrange(i + 1 - k, i + 1).reverse());
                } else {
                    assert(self.mmer as nat == pack(cds.take(i + 1)));
                    crate::model::lemma_pack_low(cds.take(i + 1), t);
                    assert(cds.take(i + 1).skip(i + 1 - t) =~= cds.subrange(i + 1 - t, i + 1));
                    lemma_rc_tmer_warm(enc, s, k, t, i as int);
                }
                assert(self.mmer as nat % pow4(t as nat) == kmer_at(enc, s, t, i + 1 - t));
                assert(self.rc_mmer as nat / pow4((k - t) as nat) == rc_kmer_at(
                    enc,
                    s,
                    t,
                    i + 1 - t,
                ));
            }
            let tm = low_codes(self.mmer, self.tmer_mask, Ghost(t as nat));
            let rc_tm = high_codes(self.rc_mmer, self.rc_tmer_shift, Ghost((k - t) as nat));
            let ctm = if rc_tm <= tm {
                rc_tm
            } else {
                tm
            };
            proof {
                assert(ctm as nat == canonical_kmer_at(enc, s, t, i + 1 - t));
            }
            self.queue.insert(ctm);
            if i + 1 >= self.base_width - w + 1 {
                let cmk = if self.rc_mmer <= self.mmer {
                    self.rc_mmer
                } else {
                    self.mmer
                };
                proof {
                    assert(i + 1 >= k);
                    assert(cmk as nat == canonical_kmer_at(enc, s, k, i + 1 - k));
                }
                self.canon_mmers.push_back((cmk, self.rc_mmer <= self.mmer));
                proof {
                    assert(self.canon_mmers@.len() == i + 1 - k + 1);
                }
            }
            i = i + 1;
        }
        proof {
            assert(self.canon_mmers@.len() == w);
        }
    }

    /// Admits one more base: rolls both registers, inserts the canonical
    /// reduced key and slides the strand-flag window.
    #[verifier::rlimit(100)]
    fn advance_window(&mut self)
        requires
            old(self).cfg_wf(),
            old(self).sync(),
            old(self).end < old(self).seq@.len(),
        ensures
            final(self).cfg_wf(),
            final(self).sync(),
            final(self).end == old(self).end + 1,
            final(self).seq == old(self).seq,
            final(self).encoding == old(self).encoding,
            final(self).rc_encoding == old(self).rc_encoding,
            final(self).width == old(self).width,
            final(self).width_t == old(self).width_t,
            final(self).base_width == old(self).base_width,
            final(self).min_pos == old(self).min_pos,
            final(self).queue.order == old(self).queue.order,
    {
        let ghost t = self.t();
        let ghost k = self.k();
        let ghost enc = self.encoding@;
        let ghost s = self.seq@;
        let ghost cds = codes_of(enc, s);
        let ghost rcc = rc_codes_of(enc, s);
        let ghost w = self.width as int;
        proof {
            assert(codes_wf(cds));
            assert(codes_wf(rcc));
            assert(rcc =~= codes_of(self.rc_encoding@, s));
        }
        let c = self.encoding[self.seq[self.end] as usize];
        let rc_c = self.rc_encoding[self.seq[self.end] as usize];
        proof {
            assert(c == cds[self.end as int]);
            assert(c < 4);
            assert(rc_c == rcc[self.end as int]);
            assert(rc_c < 4);
            lemma_pack_roll(cds, k, self.end - k);
            lemma_rc_roll(rcc, k, self.end - k);
            assert(codes_wf(rcc.subrange(self.end + 1 - k, self.end + 1).reverse())) by {
                assert(forall|j: int|
                    0 <= j < k ==> #[trigger] rcc.subrange(
                        self.end + 1 - k,
                        self.end + 1,
                    ).reverse()[j] == rcc[self.end - j]);
            }
            lemma_pack_bound(rcc.subrange(self.end + 1 - k, self.end + 1).reverse());
        }
        self.mmer = push_code(self.mmer, c, self.mmer_mask, Ghost(k as nat));
        self.rc_mmer = push_rc_code(self.rc_mmer, rc_c, self.rc_mmer_shift, Ghost(k as nat));
        proof {
            assert(self.mmer as nat == kmer_at(enc, s, k, self.end + 1 - k));
            assert(self.rc_mmer as nat == rc_kmer_at(enc, s, k, self.end + 1 - k));
            lemma_tmer_low(enc, s, k, t, self.end + 1 - k);
            lemma_rc_tmer_high(enc, s, k, t, self.end + 1 - k);
            assert(self.mmer as nat % pow4(t as nat) == kmer_at(enc, s, t, self.end + 1 - t));
            assert(self.rc_mmer as nat / pow4((k - t) as nat) == rc_kmer_at(
                enc,
                s,
                t,
                self.end + 1 - t,
            ));
        }
        let tm = low_codes(self.mmer, self.tmer_mask, Ghost(t as nat));
        let rc_tm = high_codes(self.rc_mmer, self.rc_tmer_shift, Ghost((k - t) as nat));
        let ctm = if rc_tm <= tm {
            rc_tm
        } else {
            tm
        };
        proof {
            assert(ctm as nat == canonical_kmer_at(enc, s, t, self.end + 1 - t));
        }
        self.queue.insert(ctm);
        let cmk = if self.rc_mmer <= self.mmer {
            self.rc_mmer
        } else {
            self.mmer
        };
        proof {
            assert(cmk as nat == canonical_kmer_at(enc, s, k, self.end + 1 - k));
        }
        self.canon_mmers.pop_front();
        self.canon_mmers.push_back((cmk, self.rc_mmer <= self.mmer));
        self.end = self.end + 1;
        proof {
            let j = self.end - self.base_width;
            assert forall|d: int| 0 <= d < w implies (#[trigger] self.canon_mmers@[d]).0 as nat
                == canonical_kmer_at(enc, s, k, j + d) && self.canon_mmers@[d].1 == is_rc_at(
                enc,
                s,
                k,
                j + d,
            ) by {
                if d < w - 1 {
                    assert(self.canon_mmers@[d] == old(self).canon_mmers@[d + 1]);
                    assert(old(self).canon_mmers@[d + 1].0 as nat == canonical_kmer_at(
                        enc,
                        s,
                        k,
                        j - 1 + d + 1,
                    ));
                    assert(old(self).canon_mmers@[d + 1].1 == is_rc_at(enc, s, k, j - 1 + d + 1));
                } else {
                    assert(self.canon_mmers@[d].0 as nat == canonical_kmer_at(
                        enc,
                        s,
                        k,
                        self.end - k,
                    ));
                }
            }
        }
    }

    /// Produces the next canonical mod-sampling minimizer position and
    /// strand flag, or `None` when the sequence is exhausted.
    #[verifier::loop_isolation(false)]
    #[verifier::rlimit(100)]
    pub fn next(&mut self) -> (r: Option<(u64, usize, bool)>)
        requires
            old(self).wf(),
        ensures
            final(self).wf(),
            old(self).same_cfg(*final(self)),
            ({
                let out = old(self).out();
                let e0 = old(self).emitted();
                match r {
                    Some(rec) => e0 < out.len() && rec.1 as int == out[e0] && rec.0 as nat
                        == canonical_kmer_at(
                        old(self).encoding@,
                        old(self).seq@,
                        old(self).k(),
                        rec.1 as int,
                    ) && rec.2 == is_rc_at(
                        old(self).encoding@,
                        old(self).seq@,
                        old(self).k(),
                        rec.1 as int,
                    ) && final(self).emitted() == e0 + 1,
                    None => e0 == out.len() && final(self).emitted() == e0,
                }
            }),
    {
        let w = self.width;
        let wt = self.width_t;
        let ghost k = self.k();
        let ghost t = self.t();
        let ghost enc = self.encoding@;
        let ghost s = self.seq@;
        let ghost ranks = self.ranks();
        let ghost flags = self.flags();
        if self.queue.is_empty() {
            if self.base_width > self.seq.len() {
                proof {
                    assert(self.out() =~= Seq::<int>::empty());
                }
                return None;
            }
            self.prime();
            let picked = self.pick_rel(Ghost(0));
            self.min_pos = (picked.0, picked.1, picked.2);
            proof {
                assert(self.min_pos.1 as int == canonical_mod_sel_at(
                    ranks,
                    flags,
                    w as int,
                    wt as int,
                    0,
                ));
                let ss = canonical_mod_sel_seq(ranks, flags, w as int, wt as int);
                assert(ss.len() >= 1);
                assert(ss[0] == canonical_mod_sel_at(ranks, flags, w as int, wt as int, 0));
                assert(ss.take(1) =~= seq![ss[0]]);
                assert(rle(ss.take(1)) == seq![ss[0]]) by {
                    assert(ss.take(1).len() == 1);
                }
                lemma_rle_prefix(ss, 1);
                assert(self.out() == rle(ss));
                assert(rle(ss).take(1) == rle(ss.take(1)));
                assert(rle(ss)[0] == ss[0]);
                assert(self.emitted() == 1);
                assert(self.end - self.base_width == 0);
            }
            Some(self.min_pos)
        } else {
            let mut min_pos = self.min_pos;
            let ghost j0: int = self.end - self.base_width;
            let ghost r0 = rle(
                canonical_mod_sel_seq(ranks, flags, w as int, wt as int).take(j0 + 1),
            );
            proof {
                assert(old(self).emitted() == r0.len());
            }
            while self.end < self.seq.len() && min_pos.1 == self.min_pos.1
                invariant
                    self.seq == old(self).seq,
                    self.encoding == old(self).encoding,
                    self.rc_encoding == old(self).rc_encoding,
                    self.width == old(self).width,
                    self.width_t == old(self).width_t,
                    self.base_width == old(self).base_width,
                    self.min_pos == old(self).min_pos,
                    self.queue.order == old(self).queue.order,
                    self.cfg_wf(),
                    self.started(),
                    self.sync(),
                    j0 <= self.end - self.base_width,
                    min_pos.1 as int == canonical_mod_sel_at(
                        ranks,
                        flags,
                        w as int,
                        wt as int,
                        self.end - self.base_width,
                    ),
                    min_pos.0 as nat == canonical_kmer_at(enc, s, k, min_pos.1 as int),
                    min_pos.2 == is_rc_at(enc, s, k, min_pos.1 as int),
                    if min_pos.1 == self.min_pos.1 {
                        rle(
                            canonical_mod_sel_seq(ranks, flags, w as int, wt as int).take(
                                self.end - self.base_width + 1,
                            ),
                        ) == r0
                    } else {
                        rle(
                            canonical_mod_sel_seq(ranks, flags, w as int, wt as int).take(
                                self.end - self.base_width + 1,
                            ),
                        ) == r0.push(min_pos.1 as int)
                    },
                decreases self.seq@.len() - self.end,
            {
                let ghost jprev: int = self.end - self.base_width;
                self.advance_window();
                let ghost jnew: int = self.end - self.base_width;
                let picked = self.pick_rel(Ghost(jnew));
                min_pos = (picked.0, self.end - self.base_width + picked.1, picked.2);
                proof {
                    let j = self.end - self.base_width;
                    assert(min_pos.1 as int == canonical_mod_sel_at(
                        ranks,
                        flags,
                        w as int,
                        wt as int,
                        j,
                    ));
                    let ss = canonical_mod_sel_seq(ranks, flags, w as int, wt as int);
                    assert(ss.take(j + 1) =~= ss.take(j).push(ss[j]));
                    assert(ss[j] == canonical_mod_sel_at(ranks, flags, w as int, wt as int, j));
                    assert(ss[j - 1] == canonical_mod_sel_at(
                        ranks,
                        flags,
                        w as int,
                        wt as int,
                        jprev,
                    ));
                    lemma_rle_last(ss.take(j));
                    assert(ss.take(j).last() == ss[j - 1]);
                    lemma_rle_step(ss.take(j), ss[j]);
                }
            }
            if min_pos.1 == self.min_pos.1 {
                proof {
                    let j = self.end - self.base_width;
                    let ss = canonical_mod_sel_seq(ranks, flags, w as int, wt as int);
                    assert(self.end == s.len());
                    assert(ss.len() == j + 1);
                    assert(ss.take(j + 1) =~= ss);
                    assert(old(self).emitted() == self.out().len());
                    assert(self.emitted() == old(self).emitted());
                }
                return None;
            }
            self.min_pos = min_pos;
            proof {
                let j = self.end - self.base_width;
                let ss = canonical_mod_sel_seq(ranks, flags, w as int, wt as int);
                lemma_rle_prefix(ss, j + 1);
                assert(rle(ss.take(j + 1)) == r0.push(min_pos.1 as int));
                assert(rle(ss).take(r0.len() as int + 1) == r0.push(min_pos.1 as int));
                assert(r0.len() + 1 <= rle(ss).len());
                assert(rle(ss).take(r0.len() as int + 1)[r0.len() as int] == rle(
                    ss,
                )[r0.len() as int]);
                assert(r0.push(min_pos.1 as int)[r0.len() as int] == min_pos.1 as int);
                assert(rle(ss)[r0.len() as int] == min_pos.1 as int);
                assert(self.emitted() == r0.len() + 1);
            }
            Some(min_pos)
        }
    }
}

} // verus!
