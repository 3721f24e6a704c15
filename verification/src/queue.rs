//! Monotone sliding-window-minimum queue: after each insertion it reports
//! the leftmost minimum-rank position of the trailing window, whether that
//! minimum is tied, and the tie-break walk used by the canonical adapter.

use crate::order::{rank, rank_of, KeyOrder};
use crate::select::{
    is_min_at, leftmost_min_idx, lemma_leftmost_min_idx, lemma_positions_of, lemma_tied_mins,
    tie_walk, tied_mins,
};
use std::collections::VecDeque;
use vstd::prelude::*;

verus! {

/// Ranks of a key sequence under `order`.
pub open spec fn ranks_of(order: KeyOrder, keys: Seq<u64>) -> Seq<u64> {
    keys.map_values(|k: u64| rank_of(order, k))
}

/// The key inserted at `i` can still become a window minimum: no later key
/// ranks strictly below it.
pub open spec fn survives(order: KeyOrder, keys: Seq<u64>, i: int) -> bool {
    forall|j: int|
        i < j < keys.len() ==> rank_of(order, #[trigger] keys[j]) >= rank_of(order, keys[i])
}

/// A monotone queue over `(key, rank, position)` entries.  Entries are kept
/// in insertion order with non-decreasing ranks; the front is always the
/// leftmost minimum of the trailing window of `width` keys.
pub struct MinimizerQueue {
    pub deq: VecDeque<(u64, u64, usize)>,
    pub width: u16,
    pub order: KeyOrder,
    pub count: usize,
    pub hist: Ghost<Seq<u64>>,
}

impl MinimizerQueue {
    /// Every key ever inserted, oldest first.
    pub open spec fn key_seq(self) -> Seq<u64> {
        self.hist@
    }

    /// Start of the trailing window.
    pub open spec fn win_start(self) -> int {
        if self.count >= self.width {
            self.count - self.width
        } else {
            0
        }
    }

    /// The keys of the trailing window.
    pub open spec fn window(self) -> Seq<u64> {
        self.hist@.skip(self.win_start())
    }

    /// The ranks of the trailing window.
    pub open spec fn wranks(self) -> Seq<u64> {
        ranks_of(self.order, self.window())
    }

    pub open spec fn in_deq(self, i: int) -> bool {
        exists|d: int| 0 <= d < self.deq@.len() && self.deq@[d].2 == i
    }

    pub open spec fn wf(self) -> bool {
        &&& self.width >= 1
        &&& self.hist@.len() == self.count
        &&& forall|d: int|
            0 <= d < self.deq@.len() ==> {
                let e = #[trigger] self.deq@[d];
                &&& self.win_start() <= e.2 < self.count
                &&& e.0 == self.hist@[e.2 as int]
                &&& e.1 == rank_of(self.order, self.hist@[e.2 as int])
                &&& survives(self.order, self.hist@, e.2 as int)
            }
        &&& forall|d1: int, d2: int|
            0 <= d1 < d2 < self.deq@.len() ==> self.deq@[d1].2 < self.deq@[d2].2
        &&& forall|d1: int, d2: int|
            0 <= d1 < d2 < self.deq@.len() ==> self.deq@[d1].1 <= self.deq@[d2].1
        &&& forall|i: int|
            self.win_start() <= i < self.count && #[trigger] survives(self.order, self.hist@, i)
                ==> self.in_deq(i)
    }

    /// Creates an empty queue for a window of `width` keys ranked by
    /// `order`.
    pub fn new(width: u16, order: KeyOrder) -> (q: Self)
        requires
            width >= 1,
        ensures
            q.wf(),
            q.key_seq() == Seq::<u64>::empty(),
            q.width == width,
            q.order == order,
            q.count == 0,
    {
        let q = MinimizerQueue {
            deq: VecDeque::new(),
            width,
            order,
            count: 0,
            hist: Ghost(Seq::empty()),
        };
        proof {
            assert(q.hist@ =~= Seq::<u64>::empty());
        }
        q
    }

    /// True until the first key is inserted.
    pub fn is_empty(&self) -> (r: bool)
        requires
            self.wf(),
        ensures
            r <==> self.key_seq().len() == 0,
    {
        self.count == 0
    }

    /// Inserts `key` as the next position of the stream.
    #[verifier::rlimit(100)]
    pub fn insert(&mut self, key: u64)
        requires
            old(self).wf(),
            old(self).count < usize::MAX,
        ensures
            final(self).wf(),
            final(self).hist@ == old(self).hist@.push(key),
            final(self).count == old(self).count + 1,
            final(self).width == old(self).width,
            final(self).order == old(self).order,
    {
        let r = rank(&self.order, key);
        let w = self.width as usize;
        let ghost n = self.count as int;
        let ghost h = self.hist@;
        let ghost ord = self.order;
        if self.count >= w && self.deq.len() > 0 && self.deq[0].2 == self.count - w {
            self.deq.pop_front();
        }
        let ghost deq1 = self.deq@;
        let ghost popped_front = deq1.len() != old(self).deq@.len();
        proof {
            if popped_front {
                assert(deq1 =~= old(self).deq@.subrange(1, old(self).deq@.len() as int));
            } else {
                assert(deq1 =~= old(self).deq@);
            }
            // every remaining entry was in the old deque, one place up at most
            assert forall|d: int| 0 <= d < deq1.len() implies exists|d0: int|
                0 <= d0 < old(self).deq@.len() && old(self).deq@[d0] == #[trigger] deq1[d] by {
                if popped_front {
                    assert(old(self).deq@[d + 1] == deq1[d]);
                } else {
                    assert(old(self).deq@[d] == deq1[d]);
                }
            }
            assert(forall|d1: int, d2: int| 0 <= d1 < d2 < deq1.len() ==> deq1[d1].2 < deq1[d2].2);
            assert(forall|d1: int, d2: int| 0 <= d1 < d2 < deq1.len() ==> deq1[d1].1 <= deq1[d2].1);
        }
        while self.deq.len() > 0 && self.deq[self.deq.len() - 1].1 > r
            invariant
                self.width == old(self).width,
                self.order == old(self).order,
                self.count == old(self).count,
                self.hist == old(self).hist,
                self.deq@.len() <= deq1.len(),
                self.deq@ == deq1.take(self.deq@.len() as int),
                forall|d: int| self.deq@.len() <= d < deq1.len() ==> deq1[d].1 > r,
            decreases self.deq@.len(),
        {
            proof {
                assert(self.deq@[self.deq@.len() - 1] == deq1[self.deq@.len() - 1]);
            }
            self.deq.pop_back();
            proof {
                assert(self.deq@ =~= deq1.take(self.deq@.len() as int));
            }
        }
        let ghost kept = self.deq@;
        self.deq.push_back((key, r, self.count));
        self.count = self.count + 1;
        self.hist = Ghost(self.hist@.push(key));
        proof {
            Self::lemma_insert_wf(*old(self), deq1, kept, *self, key, r);
        }
    }

    /// The queue invariant survives one insertion: `deq1` is the deque
    /// after dropping an expired front, `kept` the part of it whose ranks
    /// do not exceed the new rank `r`.
    #[verifier::rlimit(100)]
    proof fn lemma_insert_wf(
        pre: Self,
        deq1: Seq<(u64, u64, usize)>,
        kept: Seq<(u64, u64, usize)>,
        post: Self,
        key: u64,
        r: u64,
    )
        requires
            pre.wf(),
            pre.count < usize::MAX,
            r == rank_of(pre.order, key),
            if pre.count >= pre.width && pre.deq@.len() > 0 && pre.deq@[0].2 == pre.count
                - pre.width {
                deq1 == pre.deq@.subrange(1, pre.deq@.len() as int)
            } else {
                deq1 == pre.deq@
            },
            kept.len() <= deq1.len(),
            kept == deq1.take(kept.len() as int),
            forall|d: int| kept.len() <= d < deq1.len() ==> deq1[d].1 > r,
            kept.len() == 0 || kept[kept.len() - 1].1 <= r,
            post.deq@ == kept.push((key, r, pre.count)),
            post.count == pre.count + 1,
            post.hist@ == pre.hist@.push(key),
            post.width == pre.width,
            post.order == pre.order,
        ensures
            post.wf(),
    {
        let n = pre.count as int;
        let h = pre.hist@;
        let ord = pre.order;
        let w = pre.width as usize;
        let popped_front = deq1.len() != pre.deq@.len();
        if popped_front {
            assert(deq1 =~= pre.deq@.subrange(1, pre.deq@.len() as int));
        } else {
            assert(deq1 =~= pre.deq@);
        }
        assert forall|d: int| 0 <= d < deq1.len() implies exists|d0: int|
            0 <= d0 < pre.deq@.len() && pre.deq@[d0] == #[trigger] deq1[d] by {
            if popped_front {
                assert(pre.deq@[d + 1] == deq1[d]);
            } else {
                assert(pre.deq@[d] == deq1[d]);
            }
        }
        assert(forall|d1: int, d2: int| 0 <= d1 < d2 < deq1.len() ==> deq1[d1].2 < deq1[d2].2);
        assert(forall|d1: int, d2: int| 0 <= d1 < d2 < deq1.len() ==> deq1[d1].1 <= deq1[d2].1);
        {
            let h2 = post.hist@;
            let ws2 = post.win_start();
            assert(h2.len() == n + 1);
            assert(forall|j: int| 0 <= j < n ==> h2[j] == h[j]);
            assert(h2[n] == key);
            // ranks of kept entries do not exceed the new rank
            assert forall|d: int| 0 <= d < kept.len() implies kept[d].1 <= r by {
                assert(kept[d] == deq1[d]);
                if deq1[kept.len() - 1].1 > r {
                    assert(false);
                } else {
                    if d < kept.len() - 1 {
                        assert(deq1[d].1 <= deq1[kept.len() - 1].1);
                    }
                }
            }
            // per-entry facts
            assert forall|d: int| 0 <= d < post.deq@.len() implies {
                let e = #[trigger] post.deq@[d];
                &&& ws2 <= e.2 < post.count
                &&& e.0 == h2[e.2 as int]
                &&& e.1 == rank_of(ord, h2[e.2 as int])
                &&& survives(ord, h2, e.2 as int)
            } by {
                let e = post.deq@[d];
                if d < kept.len() {
                    assert(e == deq1[d]);
                    let d0 = choose|d0: int|
                        0 <= d0 < pre.deq@.len() && pre.deq@[d0] == deq1[d];
                    assert(pre.deq@[d0] == e);
                    assert(survives(ord, h, e.2 as int));
                    assert(e.1 <= r);
                    assert forall|j: int|
                        e.2 < j < h2.len() implies rank_of(ord, #[trigger] h2[j]) >= rank_of(
                        ord,
                        h2[e.2 as int],
                    ) by {
                        if j < n {
                            assert(rank_of(ord, h[j]) >= rank_of(ord, h[e.2 as int]));
                        } else {
                            assert(h2[j] == key);
                        }
                    }
                    // the expired front (if any) was the only entry this old
                    if pre.count >= w {
                        if e.2 == pre.count - w {
                            // entry with the oldest admissible position: it must
                            // have been the popped front
                            if deq1.len() < pre.deq@.len() {
                                // front was popped; remaining abs are larger
                                assert(pre.deq@[0].2 == pre.count - w);
                                assert(deq1 =~= pre.deq@.subrange(
                                    1,
                                    pre.deq@.len() as int,
                                ));
                                assert(deq1[d] == pre.deq@[d + 1]);
                                assert(pre.deq@[0].2 < pre.deq@[d + 1].2);
                                assert(false);
                            } else {
                                assert(!(pre.deq@.len() > 0 && pre.deq@[0].2
                                    == pre.count - w));
                                if d0 > 0 {
                                    assert(pre.deq@[0].2 < pre.deq@[d0].2);
                                    assert(pre.deq@[0].2 < pre.win_start());
                                    assert(false);
                                } else {
                                    assert(false);
                                }
                            }
                        }
                    }
                    assert(ws2 <= e.2);
                } else {
                    assert(e == (key, r, n as usize));
                }
            }
            // sortedness and monotone ranks
            assert forall|d1: int, d2: int|
                0 <= d1 < d2 < post.deq@.len() implies post.deq@[d1].2 < post.deq@[d2].2
                && post.deq@[d1].1 <= post.deq@[d2].1 by {
                if d2 < kept.len() {
                    assert(post.deq@[d1] == deq1[d1] && post.deq@[d2] == deq1[d2]);
                } else {
                    assert(post.deq@[d2] == (key, r, n as usize));
                    assert(post.deq@[d1] == deq1[d1]);
                    let d0 = choose|d0: int|
                        0 <= d0 < pre.deq@.len() && pre.deq@[d0] == deq1[d1];
                    assert(deq1[d1].2 < pre.count);
                    assert(deq1[d1].1 <= r);
                }
            }
            // completeness
            assert forall|i: int|
                ws2 <= i < post.count && #[trigger] survives(ord, h2, i) implies post.in_deq(
                i,
            ) by {
                if i == n {
                    assert(post.deq@[post.deq@.len() - 1].2 == i);
                } else {
                    assert forall|j: int|
                        i < j < h.len() implies rank_of(ord, #[trigger] h[j]) >= rank_of(
                        ord,
                        h[i],
                    ) by {
                        assert(h2[j] == h[j]);
                        assert(rank_of(ord, h2[j]) >= rank_of(ord, h2[i]));
                    }
                    assert(survives(ord, h, i));
                    assert(rank_of(ord, h2[n]) >= rank_of(ord, h2[i]));
                    assert(rank_of(ord, h[i]) <= r);
                    assert(pre.win_start() <= i < pre.count);
                    assert(pre.in_deq(i));
                    let d0 = choose|d0: int|
                        0 <= d0 < pre.deq@.len() && pre.deq@[d0].2 == i;
                    let e = pre.deq@[d0];
                    assert(e.1 == rank_of(ord, h[i]));
                    // locate e in deq1
                    if deq1.len() < pre.deq@.len() {
                        assert(deq1 =~= pre.deq@.subrange(1, pre.deq@.len() as int));
                        assert(pre.deq@[0].2 == pre.count - w);
                        if d0 == 0 {
                            assert(i < ws2);
                            assert(false);
                        }
                        assert(deq1[d0 - 1] == e);
                        if d0 - 1 >= kept.len() {
                            assert(deq1[d0 - 1].1 > r);
                            assert(false);
                        }
                        assert(post.deq@[d0 - 1] == e);
                    } else {
                        assert(deq1 =~= pre.deq@);
                        if d0 >= kept.len() {
                            assert(deq1[d0].1 > r);
                            assert(false);
                        }
                        assert(post.deq@[d0] == e);
                    }
                }
            }
        }
    }

    /// Indexing facts about the trailing window and its ranks.
    pub proof fn lemma_window_index(self)
        requires
            self.wf(),
            self.count >= self.width,
        ensures
            self.window().len() == self.width,
            self.wranks().len() == self.width,
            forall|i: int|
                0 <= i < self.width ==> #[trigger] self.window()[i] == self.hist@[self.win_start()
                    + i],
            forall|i: int|
                0 <= i < self.width ==> #[trigger] self.wranks()[i] == rank_of(
                    self.order,
                    self.hist@[self.win_start() + i],
                ),
    {
        assert(self.window().len() == self.width);
        assert forall|i: int| 0 <= i < self.width implies #[trigger] self.wranks()[i] == rank_of(
            self.order,
            self.hist@[self.win_start() + i],
        ) by {
            assert(self.window()[i] == self.hist@[self.win_start() + i]);
        }
    }

    /// The front of the deque is the leftmost minimum of the window.
    pub proof fn lemma_front(self)
        requires
            self.wf(),
            self.count >= self.width,
        ensures
            self.deq@.len() >= 1,
            self.deq@[0].2 == self.win_start() + leftmost_min_idx(self.wranks()),
            self.deq@[0].1 == self.wranks()[leftmost_min_idx(self.wranks())],
            self.deq@[0].0 == self.window()[leftmost_min_idx(self.wranks())],
    {
        self.lemma_window_index();
        let wr = self.wranks();
        let ws = self.win_start();
        let ord = self.order;
        let h = self.hist@;
        lemma_leftmost_min_idx(wr);
        let m = leftmost_min_idx(wr);
        assert forall|j: int| ws + m < j < h.len() implies rank_of(ord, #[trigger] h[j])
            >= rank_of(ord, h[ws + m]) by {
            assert(wr[j - ws] == rank_of(ord, h[j]));
            assert(wr[j - ws] >= wr[m]);
        }
        assert(survives(ord, h, ws + m));
        assert(self.in_deq(ws + m));
        let d = choose|d: int| 0 <= d < self.deq@.len() && self.deq@[d].2 == ws + m;
        assert(self.deq@.len() >= 1);
        let f = self.deq@[0].2 as int;
        if d > 0 {
            assert(self.deq@[0].2 < self.deq@[d].2);
        }
        assert(f <= ws + m);
        if f < ws + m {
            assert(wr[f - ws] > wr[m]);
            assert(survives(ord, h, f));
            assert(rank_of(ord, h[ws + m]) >= rank_of(ord, h[f]));
            assert(wr[m] >= wr[f - ws]);
            assert(false);
        }
        assert(self.deq@[0].1 == rank_of(ord, h[ws + m]));
        assert(wr[m] == rank_of(ord, h[ws + m]));
    }

    /// The deque front is tied exactly when the window minimum is attained
    /// at two or more positions.
    proof fn lemma_tie_equiv(self)
        requires
            self.wf(),
            self.count >= self.width,
        ensures
            (self.deq@.len() >= 2 && self.deq@[0].1 == self.deq@[1].1) <==> tied_mins(
                self.wranks(),
            ).len() >= 2,
    {
        self.lemma_window_index();
        self.lemma_front();
        let wr = self.wranks();
        let ws = self.win_start();
        let ord = self.order;
        let h = self.hist@;
        lemma_leftmost_min_idx(wr);
        lemma_tied_mins(wr);
        let m = leftmost_min_idx(wr);
        let t = tied_mins(wr);
        if self.deq@.len() >= 2 && self.deq@[0].1 == self.deq@[1].1 {
            let e1 = self.deq@[1];
            let rel1 = e1.2 - ws;
            assert(wr[rel1] == rank_of(ord, h[e1.2 as int]));
            assert(e1.1 == wr[m]);
            assert(is_min_at(wr, rel1));
            assert(t.contains(rel1));
            assert(t.contains(m));
            assert(self.deq@[0].2 < e1.2);
            assert(rel1 != m);
            let a1 = choose|a: int| 0 <= a < t.len() && t[a] == m;
            let a2 = choose|a: int| 0 <= a < t.len() && t[a] == rel1;
            assert(a1 != a2);
            assert(t.len() >= 2);
        }
        if t.len() >= 2 {
            let m2 = t[1];
            assert(is_min_at(wr, m2));
            assert(t[0] == m);
            assert(t[0] < t[1]);
            assert forall|j: int| ws + m2 < j < h.len() implies rank_of(ord, #[trigger] h[j])
                >= rank_of(ord, h[ws + m2]) by {
                assert(wr[j - ws] == rank_of(ord, h[j]));
                assert(wr[j - ws] >= wr[m2]);
            }
            assert(survives(ord, h, ws + m2));
            assert(self.in_deq(ws + m2));
            let d2 = choose|d: int| 0 <= d < self.deq@.len() && self.deq@[d].2 == ws + m2;
            assert(self.deq@[0].2 == ws + m);
            assert(d2 != 0);
            assert(self.deq@.len() >= 2);
            assert(self.deq@[0].1 <= self.deq@[1].1);
            if d2 > 1 {
                assert(self.deq@[1].1 <= self.deq@[d2].1);
            }
            assert(self.deq@[d2].1 == rank_of(ord, h[ws + m2]));
            assert(wr[m2] == rank_of(ord, h[ws + m2]));
            assert(wr[m2] >= wr[m] && wr[m] >= wr[m2]);
            assert(self.deq@[1].1 == self.deq@[0].1);
        }
    }

    /// The `a`-th deque entry realises the `a`-th tied minimum.
    proof fn lemma_tied_at(self, a: int)
        requires
            self.wf(),
            self.count >= self.width,
            0 <= a < tied_mins(self.wranks()).len(),
        ensures
            a < self.deq@.len(),
            self.deq@[a].2 == self.win_start() + tied_mins(self.wranks())[a],
            self.deq@[a].1 == self.wranks()[leftmost_min_idx(self.wranks())],
            self.deq@[a].0 == self.window()[tied_mins(self.wranks())[a]],
        decreases a,
    {
        self.lemma_window_index();
        self.lemma_front();
        lemma_leftmost_min_idx(self.wranks());
        lemma_tied_mins(self.wranks());
        let wr = self.wranks();
        let ws = self.win_start();
        let t = tied_mins(wr);
        let ord = self.order;
        let h = self.hist@;
        let m = leftmost_min_idx(wr);
        if a == 0 {
            assert(t[0] == m);
        } else {
            self.lemma_tied_at(a - 1);
            let pa = t[a];
            assert(is_min_at(wr, pa));
            assert forall|j: int| ws + pa < j < h.len() implies rank_of(ord, #[trigger] h[j])
                >= rank_of(ord, h[ws + pa]) by {
                assert(wr[j - ws] == rank_of(ord, h[j]));
                assert(wr[j - ws] >= wr[pa]);
            }
            assert(survives(ord, h, ws + pa));
            assert(self.in_deq(ws + pa));
            let da = choose|d: int| 0 <= d < self.deq@.len() && self.deq@[d].2 == ws + pa;
            assert(t[a - 1] < pa);
            if da <= a - 1 {
                if da < a - 1 {
                    assert(self.deq@[da].2 < self.deq@[a - 1].2);
                }
                assert(false);
            }
            if da > a {
                let e = self.deq@[a];
                assert(self.deq@[a - 1].2 < e.2 && e.2 < self.deq@[da].2);
                let rel = e.2 - ws;
                assert(t[a - 1] < rel && rel < pa);
                assert(self.deq@[a - 1].1 <= e.1 && e.1 <= self.deq@[da].1);
                assert(self.deq@[da].1 == rank_of(ord, h[ws + pa]));
                assert(wr[pa] == rank_of(ord, h[ws + pa]));
                assert(wr[pa] >= wr[m] && wr[m] >= wr[pa]);
                assert(e.1 == wr[m]);
                assert(wr[rel] == rank_of(ord, h[e.2 as int]));
                assert(is_min_at(wr, rel));
                assert(t.contains(rel));
                let b = choose|b: int| 0 <= b < t.len() && t[b] == rel;
                if b < a - 1 {
                    assert(t[b] < t[a - 1]);
                } else if b == a - 1 {
                } else if b == a {
                } else {
                    assert(t[a] < t[b]);
                }
                assert(false);
            }
            assert(da == a);
        }
        assert(self.deq@[a].1 == rank_of(ord, h[ws + t[a]]));
        assert(wr[t[a]] == rank_of(ord, h[ws + t[a]]));
        assert(wr[t[a]] >= wr[m] && wr[m] >= wr[t[a]]);
        assert(self.deq@[a].0 == h[ws + t[a]]);
        assert(self.window()[t[a]] == h[ws + t[a]]);
    }

    /// Deque entries beyond the tied prefix rank strictly above the
    /// minimum.
    proof fn lemma_tied_end(self)
        requires
            self.wf(),
            self.count >= self.width,
        ensures
            tied_mins(self.wranks()).len() <= self.deq@.len(),
            forall|d: int|
                tied_mins(self.wranks()).len() <= d < self.deq@.len() ==> #[trigger] self.deq@[d].1
                    != self.wranks()[leftmost_min_idx(self.wranks())],
    {
        self.lemma_window_index();
        self.lemma_front();
        lemma_leftmost_min_idx(self.wranks());
        lemma_tied_mins(self.wranks());
        let wr = self.wranks();
        let ws = self.win_start();
        let t = tied_mins(wr);
        let ord = self.order;
        let h = self.hist@;
        let m = leftmost_min_idx(wr);
        self.lemma_tied_at(t.len() - 1);
        assert forall|d: int|
            t.len() <= d < self.deq@.len() implies #[trigger] self.deq@[d].1 != wr[m] by {
            let e = self.deq@[d];
            let rel = e.2 - ws;
            assert(wr[rel] == rank_of(ord, h[e.2 as int]));
            if e.1 == wr[m] {
                assert(is_min_at(wr, rel));
                assert(t.contains(rel));
                let b = choose|b: int| 0 <= b < t.len() && t[b] == rel;
                self.lemma_tied_at(b);
                assert(self.deq@[b].2 == e.2);
                if b < d {
                    assert(self.deq@[b].2 < self.deq@[d].2);
                }
                assert(false);
            }
        }
    }

    /// Reports whether the current window minimum is tied across several
    /// positions.
    pub fn multiple_mins(&self) -> (r: bool)
        requires
            self.wf(),
            self.count >= self.width,
        ensures
            r <==> tied_mins(self.wranks()).len() >= 2,
    {
        proof {
            self.lemma_front();
            self.lemma_tie_equiv();
        }
        self.deq.len() >= 2 && self.deq[0].1 == self.deq[1].1
    }

    /// The leftmost minimum of the trailing window: its key and its
    /// window-relative position.
    pub fn get_min_pos(&self) -> (r: (u64, usize))
        requires
            self.wf(),
            self.count >= self.width,
        ensures
            r.1 as int == leftmost_min_idx(self.wranks()),
            r.0 == self.window()[r.1 as int],
    {
        proof {
            self.lemma_front();
            lemma_leftmost_min_idx(self.wranks());
            self.lemma_window_index();
        }
        let e = self.deq[0];
        (e.0, e.2 - (self.count - self.width as usize))
    }

    /// The tie-break walk over the tied minima of the window, as used by
    /// the canonical adapter: the stopping position and, when it exactly
    /// mirrors its successor, that successor.
    #[verifier::loop_isolation(false)]
    pub fn get_inner_min_pos(&self) -> (r: (u64, usize, Option<(u64, usize)>))
        requires
            self.wf(),
            self.count >= self.width,
            tied_mins(self.wranks()).len() >= 2,
        ensures
            ({
                let t = tied_mins(self.wranks());
                let tw = tie_walk(t, self.width as int);
                &&& r.1 as int == tw.0
                &&& r.0 == self.window()[tw.0]
                &&& match r.2 {
                    Some(alt) => tw.1 == Some(alt.1 as int) && alt.0 == self.window()[alt.1 as int],
                    None => tw.1 is None,
                }
            }),
    {
        let ghost t = tied_mins(self.wranks());
        let ghost wr = self.wranks();
        let ghost m = leftmost_min_idx(wr);
        proof {
            self.lemma_window_index();
            self.lemma_front();
            lemma_leftmost_min_idx(wr);
            lemma_tied_mins(wr);
            self.lemma_tied_end();
            assert forall|a: int| 0 <= a < t.len() implies a < self.deq@.len()
                && #[trigger] self.deq@[a].2 == self.win_start() + t[a] && self.deq@[a].1 == wr[m]
                && self.deq@[a].0 == self.window()[t[a]] by {
                self.lemma_tied_at(a);
            }
        }
        let w = self.width as usize;
        let start = self.count - w;
        let front = self.deq[0];
        let mut x_key = front.0;
        let mut x_pos = front.2 - start;
        let mut d: usize = 1;
        proof {
            assert(t.skip(0) =~= t);
        }
        loop
            invariant
                1 <= d <= t.len(),
                x_pos as int == t[d - 1],
                x_key == self.window()[t[d - 1]],
                tie_walk(t, w as int) == tie_walk(t.skip(d - 1), w as int),
            decreases t.len() - d,
        {
            proof {
                if d < t.len() {
                    assert(self.deq@[d as int].1 == wr[m]);
                }
            }
            if !(d < self.deq.len() && self.deq[d].1 == front.1) {
                proof {
                    assert(front.1 == wr[m]);
                    if d < t.len() {
                        assert(self.deq@[d as int].1 == front.1);
                        assert(false);
                    }
                    assert(d == t.len());
                    assert(t.skip(d - 1).len() == 1);
                    assert(t.skip(d - 1)[0] == t[d - 1]);
                }
                return (x_key, x_pos, None);
            }
            proof {
                assert(front.1 == wr[m]);
                if d >= t.len() {
                    assert(self.deq@[d as int].1 != wr[m]);
                    assert(false);
                }
            }
            let y_key = self.deq[d].0;
            let y_pos = self.deq[d].2 - start;
            proof {
                assert(y_pos as int == t[d as int]);
                assert(0 <= t[d as int] < w);
                assert(t.skip(d - 1)[0] == t[d - 1]);
                assert(t.skip(d - 1)[1] == t[d as int]);
                assert(t.skip(d - 1).len() >= 2);
            }
            if x_pos < w - 1 - y_pos {
                proof {
                    assert(t.skip(d - 1).drop_first() =~= t.skip(d as int));
                }
                x_key = y_key;
                x_pos = y_pos;
                d = d + 1;
            } else if x_pos == w - 1 - y_pos {
                return (x_key, x_pos, Some((y_key, y_pos)));
            } else {
                return (x_key, x_pos, None);
            }
        }
    }
}

} // verus!
