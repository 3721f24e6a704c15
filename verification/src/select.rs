//! Mathematical model of window selection: leftmost minima of rank
//! windows, the tie-break walk toward the window's centre, and the
//! run-length coalescing of consecutive equal selections.

use vstd::prelude::*;

verus! {

/// `s[i]` is a minimal rank of `s`.
pub open spec fn is_min_at(s: Seq<u64>, i: int) -> bool {
    &&& 0 <= i < s.len()
    &&& forall|j: int| 0 <= j < s.len() ==> s[j] >= s[i]
}

/// Index of the leftmost minimal rank.
pub open spec fn leftmost_min_idx(s: Seq<u64>) -> int
    decreases s.len(),
{
    if s.len() <= 1 {
        0
    } else {
        let r = leftmost_min_idx(s.drop_last());
        if s.last() < s[r] {
            s.len() - 1
        } else {
            r
        }
    }
}

pub proof fn lemma_leftmost_min_idx(s: Seq<u64>)
    requires
        s.len() >= 1,
    ensures
        is_min_at(s, leftmost_min_idx(s)),
        forall|j: int| 0 <= j < leftmost_min_idx(s) ==> #[trigger] s[j] > s[leftmost_min_idx(s)],
    decreases s.len(),
{
    if s.len() > 1 {
        lemma_leftmost_min_idx(s.drop_last());
        let r = leftmost_min_idx(s.drop_last());
        assert(forall|j: int| 0 <= j < s.len() - 1 ==> s[j] == s.drop_last()[j]);
        if s.last() < s[r] {
            assert(forall|j: int| 0 <= j < s.len() - 1 ==> s[j] >= s.drop_last()[r]);
        }
    }
}

/// The leftmost minimum is the unique index that is minimal and strictly
/// below everything to its left.
pub proof fn lemma_leftmost_min_unique(s: Seq<u64>, i: int)
    requires
        is_min_at(s, i),
        forall|j: int| 0 <= j < i ==> s[j] > s[i],
    ensures
        i == leftmost_min_idx(s),
{
    lemma_leftmost_min_idx(s);
    let m = leftmost_min_idx(s);
    if i < m {
        assert(s[i] > s[m]);
        assert(s[m] >= s[i]);
    } else if m < i {
        assert(s[m] > s[i]);
        assert(s[i] >= s[m]);
    }
}

/// Two strictly ascending sequences with the same members are equal.
proof fn lemma_sorted_unique_eq(a: Seq<int>, b: Seq<int>)
    requires
        forall|x: int, y: int| 0 <= x < y < a.len() ==> a[x] < a[y],
        forall|x: int, y: int| 0 <= x < y < b.len() ==> b[x] < b[y],
        forall|v: int| a.contains(v) <==> b.contains(v),
    ensures
        a =~= b,
    decreases a.len(),
{
    if a.len() == 0 {
        if b.len() > 0 {
            assert(b.contains(b[0]));
            assert(a.contains(b[0]));
        }
    } else {
        assert(a.contains(a[0]));
        assert(b.contains(a[0]));
        let jb = choose|j: int| 0 <= j < b.len() && b[j] == a[0];
        assert(b.contains(b[0]));
        assert(a.contains(b[0]));
        let ja = choose|j: int| 0 <= j < a.len() && a[j] == b[0];
        assert(a[0] <= a[ja]);
        assert(b[0] <= b[jb]);
        assert(a[0] == b[0]);
        let at = a.drop_first();
        let bt = b.drop_first();
        assert(forall|x: int| 0 <= x < at.len() ==> at[x] == a[x + 1]);
        assert(forall|x: int| 0 <= x < bt.len() ==> bt[x] == b[x + 1]);
        assert forall|v: int| at.contains(v) <==> bt.contains(v) by {
            if at.contains(v) {
                let x = choose|x: int| 0 <= x < at.len() && at[x] == v;
                assert(a[x + 1] == v);
                assert(a.contains(v));
                assert(b.contains(v));
                let y = choose|y: int| 0 <= y < b.len() && b[y] == v;
                assert(v > a[0]);
                if y == 0 {
                    assert(false);
                }
                assert(bt[y - 1] == v);
            }
            if bt.contains(v) {
                let x = choose|x: int| 0 <= x < bt.len() && bt[x] == v;
                assert(b[x + 1] == v);
                assert(b.contains(v));
                assert(a.contains(v));
                let y = choose|y: int| 0 <= y < a.len() && a[y] == v;
                assert(v > b[0]);
                if y == 0 {
                    assert(false);
                }
                assert(at[y - 1] == v);
            }
        }
        lemma_sorted_unique_eq(at, bt);
        assert(a =~= seq![a[0]] + at);
        assert(b =~= seq![b[0]] + bt);
    }
}

/// Ascending list of the indices holding value `v`.
pub open spec fn positions_of(s: Seq<u64>, v: u64) -> Seq<int>
    decreases s.len(),
{
    if s.len() == 0 {
        Seq::empty()
    } else {
        let p = positions_of(s.drop_last(), v);
        if s.last() == v {
            p.push(s.len() - 1)
        } else {
            p
        }
    }
}

pub proof fn lemma_positions_of(s: Seq<u64>, v: u64)
    ensures
        forall|a: int|
            0 <= a < positions_of(s, v).len() ==> 0 <= #[trigger] positions_of(s, v)[a] < s.len()
                && s[positions_of(s, v)[a]] == v,
        forall|i: int| 0 <= i < s.len() && s[i] == v ==> positions_of(s, v).contains(i),
        forall|a: int, b: int|
            0 <= a < b < positions_of(s, v).len() ==> positions_of(s, v)[a] < positions_of(
                s,
                v,
            )[b],
    decreases s.len(),
{
    if s.len() > 0 {
        lemma_positions_of(s.drop_last(), v);
        let p = positions_of(s.drop_last(), v);
        assert(forall|j: int| 0 <= j < s.len() - 1 ==> s[j] == s.drop_last()[j]);
        assert forall|i: int| 0 <= i < s.len() && s[i] == v implies positions_of(
            s,
            v,
        ).contains(i) by {
            if i < s.len() - 1 {
                assert(p.contains(i));
                let a = choose|a: int| 0 <= a < p.len() && p[a] == i;
                assert(positions_of(s, v)[a] == i);
            } else {
                assert(s.last() == v);
                assert(positions_of(s, v).last() == i);
            }
        }
    }
}

/// Number of indices at which the window attains its minimum.
pub open spec fn tied_mins(s: Seq<u64>) -> Seq<int> {
    positions_of(s, s[leftmost_min_idx(s)])
}

pub proof fn lemma_tied_mins(s: Seq<u64>)
    requires
        s.len() >= 1,
    ensures
        tied_mins(s).len() >= 1,
        tied_mins(s)[0] == leftmost_min_idx(s),
        forall|a: int|
            0 <= a < tied_mins(s).len() ==> is_min_at(s, #[trigger] tied_mins(s)[a]),
        forall|a: int, b: int|
            0 <= a < b < tied_mins(s).len() ==> tied_mins(s)[a] < tied_mins(s)[b],
        forall|i: int| is_min_at(s, i) ==> tied_mins(s).contains(i),
{
    let m = leftmost_min_idx(s);
    let v = s[m];
    lemma_leftmost_min_idx(s);
    lemma_positions_of(s, v);
    let t = tied_mins(s);
    assert(t.contains(m));
    assert(t.len() >= 1);
    assert forall|i: int| is_min_at(s, i) implies t.contains(i) by {
        assert(s[i] >= v && v >= s[i]);
    }
    // the first listed position is the leftmost minimum
    let f = t[0];
    assert(is_min_at(s, f));
    if f != m {
        let a = choose|a: int| 0 <= a < t.len() && t[a] == m;
        if a > 0 {
            assert(t[0] < t[a]);
            assert(f < m);
            assert(s[f] > s[m]);
        }
    }
}

/// The tie-break walk of the queue: advance through tied positions until
/// one reaches the mirror of its successor.  Returns the stopping position
/// and, when it mirrors its successor exactly, that successor.
pub open spec fn tie_walk(ps: Seq<int>, w: int) -> (int, Option<int>)
    decreases ps.len(),
{
    if ps.len() <= 1 {
        (ps[0], None)
    } else if ps[0] < w - 1 - ps[1] {
        tie_walk(ps.drop_first(), w)
    } else if ps[0] == w - 1 - ps[1] {
        (ps[0], Some(ps[1]))
    } else {
        (ps[0], None)
    }
}

pub proof fn lemma_tie_walk_in(ps: Seq<int>, w: int)
    requires
        ps.len() >= 1,
        forall|a: int| 0 <= a < ps.len() ==> 0 <= #[trigger] ps[a] < w,
    ensures
        ps.contains(tie_walk(ps, w).0),
        tie_walk(ps, w).1 is Some ==> ps.contains(tie_walk(ps, w).1->0),
    decreases ps.len(),
{
    if ps.len() <= 1 {
        assert(ps[0] == ps.first());
        assert(ps.contains(ps[0]));
    } else if ps[0] < w - 1 - ps[1] {
        lemma_tie_walk_in(ps.drop_first(), w);
        assert(forall|a: int|
            0 <= a < ps.drop_first().len() ==> ps.drop_first()[a] == ps[a + 1]);
        let r = tie_walk(ps.drop_first(), w);
        let a = choose|a: int| 0 <= a < ps.drop_first().len() && ps.drop_first()[a] == r.0;
        assert(ps[a + 1] == r.0);
        if r.1 is Some {
            let b = choose|b: int|
                0 <= b < ps.drop_first().len() && ps.drop_first()[b] == r.1->0;
            assert(ps[b + 1] == r.1->0);
        }
    } else {
        assert(ps.contains(ps[0]));
        assert(ps.contains(ps[1]));
    }
}

/// The positions of a window read from the other strand: each position
/// reflected about the window's centre, in reversed order.
pub open spec fn mirror_positions(ps: Seq<int>, w: int) -> Seq<int> {
    Seq::new(ps.len(), |a: int| w - 1 - ps[ps.len() - 1 - a])
}

/// A walk that never stops runs to the last tied position.
proof fn lemma_tie_walk_all_less(ps: Seq<int>, w: int)
    requires
        ps.len() >= 1,
        forall|a: int| 0 <= a < ps.len() - 1 ==> #[trigger] ps[a] < w - 1 - ps[a + 1],
    ensures
        tie_walk(ps, w) == (ps.last(), None::<int>),
    decreases ps.len(),
{
    if ps.len() > 1 {
        assert(ps[0] < w - 1 - ps[1]);
        lemma_tie_walk_all_less(ps.drop_first(), w);
        assert(forall|a: int| 0 <= a < ps.drop_first().len() ==> ps.drop_first()[a] == ps[a + 1]);
        assert(ps.drop_first().last() == ps.last());
    }
}

/// A walk ignores a final position that its predecessor already reaches
/// past the centre.
proof fn lemma_tie_walk_drop_big_last(ps: Seq<int>, w: int)
    requires
        ps.len() >= 2,
        ps[ps.len() - 2] > w - 1 - ps[ps.len() - 1],
    ensures
        tie_walk(ps, w) == tie_walk(ps.take(ps.len() - 1), w),
    decreases ps.len(),
{
    let q = ps.take(ps.len() - 1);
    if ps.len() == 2 {
        assert(ps[0] > w - 1 - ps[1]);
        assert(q.len() == 1);
        assert(q[0] == ps[0]);
    } else {
        if ps[0] < w - 1 - ps[1] {
            lemma_tie_walk_drop_big_last(ps.drop_first(), w);
            assert(ps.drop_first().take(ps.drop_first().len() - 1) =~= q.drop_first());
            assert(q[0] == ps[0] && q[1] == ps[1]);
        } else {
            assert(q[0] == ps[0] && q[1] == ps[1]);
        }
    }
}

/// The tie-break walk is symmetric under reflection of the window: on the
/// mirrored positions it stops at the reflection of the original stop,
/// and an exactly mirrored pair is reported from both sides.
pub proof fn lemma_tie_walk_mirror(ps: Seq<int>, w: int)
    requires
        ps.len() >= 1,
        forall|a: int| 0 <= a < ps.len() ==> 0 <= #[trigger] ps[a] < w,
        forall|a: int, b: int| 0 <= a < b < ps.len() ==> ps[a] < ps[b],
    ensures
        ({
            let qs = mirror_positions(ps, w);
            match tie_walk(ps, w).1 {
                Some(x) => tie_walk(qs, w) == (w - 1 - x, Some(w - 1 - tie_walk(ps, w).0)),
                None => tie_walk(qs, w) == (w - 1 - tie_walk(ps, w).0, None::<int>),
            }
        }),
    decreases ps.len(),
{
    let n = ps.len() as int;
    let qs = mirror_positions(ps, w);
    assert(qs.len() == n);
    assert(forall|a: int| 0 <= a < n ==> #[trigger] qs[a] == w - 1 - ps[n - 1 - a]);
    if n == 1 {
        assert(tie_walk(ps, w) == (ps[0], None::<int>));
        assert(tie_walk(qs, w) == (qs[0], None::<int>));
    } else if ps[0] == w - 1 - ps[1] {
        // the first pair straddles the centre exactly; every later pair
        // overshoots, so the mirrored walk runs to its last two entries
        assert(tie_walk(ps, w) == (ps[0], Some(ps[1])));
        assert forall|a: int| 0 <= a < n - 2 implies #[trigger] qs[a] < w - 1 - qs[a + 1] by {
            assert(qs[a] == w - 1 - ps[n - 1 - a]);
            assert(qs[a + 1] == w - 1 - ps[n - 2 - a]);
            assert(ps[0] + ps[1] == w - 1);
            if n - 2 - a >= 1 {
                assert(ps[0] <= ps[n - 2 - a] && ps[1] <= ps[n - 1 - a]);
                assert(ps[1] < ps[n - 1 - a] || ps[0] < ps[n - 2 - a]);
            }
        }
        lemma_tie_walk_skip_to_pair(qs, w);
        assert(qs[n - 2] == w - 1 - ps[1]);
        assert(qs[n - 1] == w - 1 - ps[0]);
        assert(qs[n - 2] == w - 1 - qs[n - 1]);
    } else if ps[0] > w - 1 - ps[1] {
        // the first pair already overshoots; so does every pair of the
        // mirrored walk's undershoots, which therefore never stops
        assert(tie_walk(ps, w) == (ps[0], None::<int>));
        assert forall|a: int| 0 <= a < n - 1 implies #[trigger] qs[a] < w - 1 - qs[a + 1] by {
            assert(qs[a] == w - 1 - ps[n - 1 - a]);
            assert(qs[a + 1] == w - 1 - ps[n - 2 - a]);
            assert(ps[0] + ps[1] > w - 1);
            assert(ps[0] <= ps[n - 2 - a] && ps[1] <= ps[n - 1 - a]);
        }
        lemma_tie_walk_all_less(qs, w);
        assert(qs.last() == w - 1 - ps[0]);
    } else {
        // the walk drops its first position; the mirrored walk never
        // reaches its own last entry, the reflection of that position
        assert(tie_walk(ps, w) == tie_walk(ps.drop_first(), w));
        lemma_tie_walk_mirror(ps.drop_first(), w);
        assert(forall|a: int| 0 <= a < n - 1 ==> ps.drop_first()[a] == ps[a + 1]);
        assert(mirror_positions(ps.drop_first(), w) =~= qs.take(n - 1));
        assert(qs[n - 2] == w - 1 - ps[1]);
        assert(qs[n - 1] == w - 1 - ps[0]);
        assert(qs[n - 2] > w - 1 - qs[n - 1]);
        lemma_tie_walk_drop_big_last(qs, w);
    }
}

/// A walk whose early pairs all undershoot ends on its last two entries.
proof fn lemma_tie_walk_skip_to_pair(ps: Seq<int>, w: int)
    requires
        ps.len() >= 2,
        forall|a: int| 0 <= a < ps.len() - 2 ==> #[trigger] ps[a] < w - 1 - ps[a + 1],
        ps[ps.len() - 2] == w - 1 - ps[ps.len() - 1],
    ensures
        tie_walk(ps, w) == (ps[ps.len() - 2], Some(ps[ps.len() - 1])),
    decreases ps.len(),
{
    if ps.len() == 2 {
        assert(ps[0] == w - 1 - ps[1]);
    } else {
        assert(ps[0] < w - 1 - ps[1]);
        lemma_tie_walk_skip_to_pair(ps.drop_first(), w);
        assert(forall|a: int| 0 <= a < ps.drop_first().len() ==> ps.drop_first()[a] == ps[a + 1]);
    }
}

/// Position selected inside a window of canonical ranks: the leftmost
/// minimum when it is unique, otherwise the tie-break walk, switched to its
/// alternate when the window's middle element came from the reverse strand.
pub open spec fn pick_in_window(rwin: Seq<u64>, mid_rc: bool) -> int {
    if tied_mins(rwin).len() >= 2 {
        let (p, alt) = tie_walk(tied_mins(rwin), rwin.len() as int);
        match alt {
            Some(a) => if mid_rc {
                a
            } else {
                p
            },
            None => p,
        }
    } else {
        leftmost_min_idx(rwin)
    }
}

/// The tied minima of a reversed window are the mirrored tied minima.
pub proof fn lemma_tied_mins_mirror(rwin: Seq<u64>)
    requires
        rwin.len() >= 1,
    ensures
        tied_mins(rwin.reverse()) =~= mirror_positions(tied_mins(rwin), rwin.len() as int),
{
    let n = rwin.len() as int;
    let rv = rwin.reverse();
    assert(rv.len() == n);
    assert(forall|j: int| 0 <= j < n ==> #[trigger] rv[j] == rwin[n - 1 - j]);
    lemma_leftmost_min_idx(rwin);
    lemma_leftmost_min_idx(rv);
    let lm = leftmost_min_idx(rwin);
    let lm2 = leftmost_min_idx(rv);
    let v = rwin[lm];
    let v2 = rv[lm2];
    assert(rv[n - 1 - lm] == v);
    assert(v2 <= v) by {
        assert(rv[n - 1 - lm] >= rv[lm2]);
    }
    assert(rwin[n - 1 - lm2] == v2);
    assert(v <= v2) by {
        assert(rwin[n - 1 - lm2] >= rwin[lm]);
    }
    assert(v == v2);
    lemma_positions_of(rwin, v);
    lemma_positions_of(rv, v);
    let t = tied_mins(rwin);
    let t2 = tied_mins(rv);
    let q = mirror_positions(t, n);
    assert(q.len() == t.len());
    assert(forall|a: int| 0 <= a < q.len() ==> #[trigger] q[a] == n - 1 - t[q.len() - 1 - a]);
    assert forall|x: int, y: int| 0 <= x < y < q.len() implies q[x] < q[y] by {
        assert(t[q.len() - 1 - y] < t[q.len() - 1 - x]);
    }
    assert forall|x: int, y: int| 0 <= x < y < t2.len() implies t2[x] < t2[y] by {}
    assert forall|x: int| q.contains(x) <==> t2.contains(x) by {
        if q.contains(x) {
            let a = choose|a: int| 0 <= a < q.len() && q[a] == x;
            assert(t[q.len() - 1 - a] == n - 1 - x);
            assert(rwin[n - 1 - x] == v);
            assert(0 <= x < n);
            assert(rv[x] == v);
            assert(t2.contains(x));
        }
        if t2.contains(x) {
            let a = choose|a: int| 0 <= a < t2.len() && t2[a] == x;
            assert(rv[x] == v);
            assert(0 <= x < n);
            assert(rwin[n - 1 - x] == v);
            assert(t.contains(n - 1 - x));
            let b = choose|b: int| 0 <= b < t.len() && t[b] == n - 1 - x;
            assert(q[q.len() - 1 - b] == n - 1 - t[b]);
            assert(q.contains(x));
        }
    }
    lemma_sorted_unique_eq(t2, q);
}

/// Law: the tie-broken pick is symmetric under reversal of the window and
/// inversion of the centre strand flag: the reversed window picks the
/// reflection of the original position.
pub proof fn lemma_pick_in_window_mirror(rwin: Seq<u64>, mid_rc: bool)
    requires
        rwin.len() >= 1,
    ensures
        pick_in_window(rwin.reverse(), !mid_rc) == rwin.len() - 1 - pick_in_window(rwin, mid_rc),
{
    let n = rwin.len() as int;
    let rv = rwin.reverse();
    assert(rv.len() == n);
    assert(forall|j: int| 0 <= j < n ==> #[trigger] rv[j] == rwin[n - 1 - j]);
    lemma_tied_mins_mirror(rwin);
    lemma_tied_mins(rwin);
    lemma_tied_mins(rv);
    let t = tied_mins(rwin);
    let t2 = tied_mins(rv);
    assert(t2 =~= mirror_positions(t, n));
    assert(t2.len() == t.len());
    if t.len() >= 2 {
        lemma_tie_walk_mirror(t, n);
        let tw = tie_walk(t, n);
        let tw2 = tie_walk(t2, n);
        match tw.1 {
            Some(x) => {
                assert(tw2 == (n - 1 - x, Some(n - 1 - tw.0)));
            },
            None => {
                assert(tw2 == (n - 1 - tw.0, None::<int>));
            },
        }
    } else {
        assert(t.len() == 1 && t2.len() == 1);
        assert(t2[0] == mirror_positions(t, n)[0]);
        assert(t2[0] == n - 1 - t[0]);
        assert(t[0] == leftmost_min_idx(rwin));
        assert(is_min_at(rv, t2[0]));
        assert forall|j: int| 0 <= j < t2[0] implies #[trigger] rv[j] > rv[t2[0]] by {
            if rv[j] == rv[t2[0]] {
                assert(is_min_at(rv, j));
                assert(t2.contains(j));
                let a = choose|a: int| 0 <= a < t2.len() && t2[a] == j;
                assert(a == 0);
                assert(false);
            }
            assert(rv[j] >= rv[t2[0]]);
        }
        lemma_leftmost_min_unique(rv, t2[0]);
        assert(leftmost_min_idx(rv) == n - 1 - leftmost_min_idx(rwin));
    }
}

pub proof fn lemma_pick_in_window(rwin: Seq<u64>, mid_rc: bool)
    requires
        rwin.len() >= 1,
    ensures
        0 <= pick_in_window(rwin, mid_rc) < rwin.len(),
        is_min_at(rwin, pick_in_window(rwin, mid_rc)),
{
    lemma_tied_mins(rwin);
    lemma_leftmost_min_idx(rwin);
    if tied_mins(rwin).len() >= 2 {
        lemma_tie_walk_in(tied_mins(rwin), rwin.len() as int);
        let t = tied_mins(rwin);
        let (p, alt) = tie_walk(t, rwin.len() as int);
        let a = choose|a: int| 0 <= a < t.len() && t[a] == p;
        assert(is_min_at(rwin, t[a]));
        match alt {
            Some(q) => {
                let b = choose|b: int| 0 <= b < t.len() && t[b] == q;
                assert(is_min_at(rwin, t[b]));
            },
            None => {},
        }
    }
}

/// Run-length coalescing: keep the first element of each maximal run of
/// equal consecutive values.
pub open spec fn rle(s: Seq<int>) -> Seq<int>
    decreases s.len(),
{
    if s.len() == 0 {
        Seq::empty()
    } else if s.len() == 1 {
        seq![s[0]]
    } else if s.last() == s[s.len() - 2] {
        rle(s.drop_last())
    } else {
        rle(s.drop_last()).push(s.last())
    }
}

pub proof fn lemma_rle_last(s: Seq<int>)
    requires
        s.len() >= 1,
    ensures
        rle(s).len() >= 1,
        rle(s).last() == s.last(),
    decreases s.len(),
{
    if s.len() > 1 && s.last() == s[s.len() - 2] {
        lemma_rle_last(s.drop_last());
        assert(s.drop_last().last() == s[s.len() - 2]);
    }
}

/// Appending an element extends the coalesced sequence exactly when it
/// differs from the previous element.
pub proof fn lemma_rle_step(s: Seq<int>, e: int)
    requires
        s.len() >= 1,
    ensures
        rle(s.push(e)) == if e == s.last() {
            rle(s)
        } else {
            rle(s).push(e)
        },
{
    let t = s.push(e);
    assert(t.drop_last() =~= s);
    assert(t.last() == e);
    assert(t[t.len() - 2] == s.last());
    if t.len() == 1 {
    } else if e == s.last() {
        assert(rle(t) == rle(s));
    } else {
        assert(rle(t) == rle(s).push(e));
    }
}

/// Prepending an element extends the coalesced sequence exactly when it
/// differs from the first element.
proof fn lemma_rle_cons(x: int, u: Seq<int>)
    requires
        u.len() >= 1,
    ensures
        rle(seq![x] + u) == if x == u[0] {
            rle(u)
        } else {
            seq![x] + rle(u)
        },
    decreases u.len(),
{
    let t = seq![x] + u;
    assert(t.len() == u.len() + 1);
    assert(t[0] == x);
    assert(forall|i: int| 0 <= i < u.len() ==> t[i + 1] == u[i]);
    if u.len() == 1 {
        assert(t.len() == 2);
        assert(t.drop_last() =~= seq![x]);
        assert(rle(t.drop_last()) == seq![x]);
        assert(t.last() == u[0]);
        assert(t[t.len() - 2] == x);
        assert(rle(u) == seq![u[0]]);
        if x == u[0] {
            assert(rle(t) == rle(t.drop_last()));
            assert(rle(t) =~= rle(u));
        } else {
            assert(rle(t) == rle(t.drop_last()).push(t.last()));
            assert(rle(t) =~= seq![x] + rle(u));
        }
    } else {
        lemma_rle_cons(x, u.drop_last());
        assert(t.drop_last() =~= seq![x] + u.drop_last());
        assert(t.last() == u.last());
        assert(t[t.len() - 2] == u[u.len() - 2]);
        assert(u.drop_last()[0] == u[0]);
        if u.last() == u[u.len() - 2] {
            assert(rle(t) == rle(t.drop_last()));
            assert(rle(u) == rle(u.drop_last()));
        } else {
            assert(rle(t) == rle(t.drop_last()).push(u.last()));
            assert(rle(u) == rle(u.drop_last()).push(u.last()));
            if x != u[0] {
                assert(rle(t.drop_last()) == seq![x] + rle(u.drop_last()));
                assert((seq![x] + rle(u.drop_last())).push(u.last()) =~= seq![x] + rle(
                    u.drop_last(),
                ).push(u.last()));
            }
        }
    }
}

/// Coalescing commutes with reversal: the runs of the reversed sequence
/// are the reversed runs.
pub proof fn lemma_rle_reverse(u: Seq<int>)
    ensures
        rle(u.reverse()) =~= rle(u).reverse(),
    decreases u.len(),
{
    if u.len() == 0 {
        assert(u.reverse() =~= u);
    } else if u.len() == 1 {
        assert(u.reverse() =~= u);
    } else {
        lemma_rle_reverse(u.drop_last());
        assert(u.reverse() =~= seq![u.last()] + u.drop_last().reverse());
        assert(u.drop_last().reverse().len() >= 1);
        assert(u.drop_last().reverse()[0] == u[u.len() - 2]);
        lemma_rle_cons(u.last(), u.drop_last().reverse());
        lemma_rle_last(u.drop_last());
        if u.last() == u[u.len() - 2] {
            assert(rle(u) == rle(u.drop_last()));
            assert(rle(u.reverse()) == rle(u.drop_last().reverse()));
        } else {
            assert(rle(u) == rle(u.drop_last()).push(u.last()));
            assert(rle(u.reverse()) == seq![u.last()] + rle(u.drop_last().reverse()));
            assert(rle(u.drop_last()).push(u.last()).reverse() =~= seq![u.last()] + rle(
                u.drop_last(),
            ).reverse());
        }
    }
}

/// Positions reflected about a fixed point `c`.
pub open spec fn reflect_positions(u: Seq<int>, c: int) -> Seq<int> {
    u.map_values(|x: int| c - x)
}

/// Coalescing commutes with reflection.
pub proof fn lemma_rle_reflect(u: Seq<int>, c: int)
    ensures
        rle(reflect_positions(u, c)) =~= reflect_positions(rle(u), c),
    decreases u.len(),
{
    let m = reflect_positions(u, c);
    assert(m.len() == u.len());
    assert(forall|i: int| 0 <= i < u.len() ==> m[i] == c - u[i]);
    if u.len() <= 1 {
    } else {
        lemma_rle_reflect(u.drop_last(), c);
        assert(m.drop_last() =~= reflect_positions(u.drop_last(), c));
        assert(m.last() == c - u.last());
        assert(m[m.len() - 2] == c - u[u.len() - 2]);
        if u.last() == u[u.len() - 2] {
            assert(rle(u) == rle(u.drop_last()));
            assert(rle(m) == rle(m.drop_last()));
        } else {
            assert(rle(u) == rle(u.drop_last()).push(u.last()));
            assert(rle(m) == rle(m.drop_last()).push(m.last()));
            assert(reflect_positions(rle(u.drop_last()).push(u.last()), c) =~= reflect_positions(
                rle(u.drop_last()),
                c,
            ).push(c - u.last()));
        }
    }
}

/// Every coalesced element appears in the uncoalesced sequence, and no two
/// consecutive coalesced elements are equal.
pub proof fn lemma_rle_elements(s: Seq<int>)
    ensures
        forall|a: int| 0 <= a < rle(s).len() ==> s.contains(#[trigger] rle(s)[a]),
        forall|a: int| 0 <= a < rle(s).len() - 1 ==> #[trigger] rle(s)[a] != rle(s)[a + 1],
    decreases s.len(),
{
    if s.len() == 0 {
    } else if s.len() == 1 {
        assert(rle(s) == seq![s[0]]);
        assert(s[0] == s[0] && 0 <= 0 < s.len());
        assert(s.contains(s[0]));
    } else {
        let d = s.drop_last();
        lemma_rle_elements(d);
        lemma_rle_last(d);
        assert forall|a: int| 0 <= a < rle(s).len() implies s.contains(#[trigger] rle(s)[a]) by {
            if a < rle(d).len() {
                assert(rle(s)[a] == rle(d)[a]);
                assert(d.contains(rle(d)[a]));
                let i = choose|i: int| 0 <= i < d.len() && d[i] == rle(d)[a];
                assert(s[i] == rle(d)[a]);
            } else {
                assert(rle(s)[a] == s.last());
                assert(s[s.len() - 1] == s.last());
            }
        }
        if s.last() != s[s.len() - 2] {
            assert(rle(s) == rle(d).push(s.last()));
            assert forall|a: int| 0 <= a < rle(s).len() - 1 implies #[trigger] rle(s)[a] != rle(
                s,
            )[a + 1] by {
                if a + 1 < rle(d).len() {
                    assert(rle(s)[a] == rle(d)[a] && rle(s)[a + 1] == rle(d)[a + 1]);
                } else {
                    assert(rle(s)[a] == rle(d).last());
                    assert(rle(d).last() == d.last());
                    assert(rle(s)[a + 1] == s.last());
                }
            }
        }
    }
}

/// The coalesced form of a prefix is a prefix of the coalesced form.
pub proof fn lemma_rle_prefix(s: Seq<int>, i: int)
    requires
        1 <= i <= s.len(),
    ensures
        rle(s.take(i)).len() <= rle(s).len(),
        rle(s.take(i)) == rle(s).take(rle(s.take(i)).len() as int),
    decreases s.len() - i,
{
    if i == s.len() {
        assert(s.take(i) =~= s);
        assert(rle(s).take(rle(s).len() as int) =~= rle(s));
    } else {
        lemma_rle_prefix(s, i + 1);
        assert(s.take(i + 1) =~= s.take(i).push(s[i]));
        lemma_rle_last(s.take(i));
        lemma_rle_step(s.take(i), s[i]);
        let a = rle(s.take(i));
        let b = rle(s.take(i + 1));
        if s[i] == s.take(i).last() {
            assert(a == b);
        } else {
            assert(b == a.push(s[i]));
            assert(b.take(a.len() as int) =~= a);
            assert(rle(s).take(b.len() as int).take(a.len() as int) =~= rle(s).take(
                a.len() as int,
            ));
            assert(a =~= rle(s).take(a.len() as int));
        }
    }
}

} // verus!
