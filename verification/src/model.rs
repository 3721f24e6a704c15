//! Stream-level model: packed k-mers of a byte sequence under an encoding
//! table, their reverse complements, per-position ranks, and the emitted
//! position sequence of each selection scheme.

use crate::encoding::{comp_byte, enc_wf};
use crate::kmer::{codes_wf, lemma_pack_bound, lemma_pow4_unfold, pack, pow4};
use crate::order::{rank_of, KeyOrder};
use crate::select::{leftmost_min_idx, pick_in_window, rle};
use vstd::arithmetic::div_mod::lemma_fundamental_div_mod_converse;
use vstd::arithmetic::power2::{lemma_pow2_adds, lemma_pow2_strictly_increases};
use vstd::prelude::*;

verus! {

/// The code of each byte of `s` under `enc`.
pub open spec fn codes_of(enc: Seq<u8>, s: Seq<u8>) -> Seq<u8> {
    s.map_values(|b: u8| enc[b as int])
}

/// The code of each byte's complement under `enc`.
pub open spec fn rc_codes_of(enc: Seq<u8>, s: Seq<u8>) -> Seq<u8> {
    s.map_values(|b: u8| enc[comp_byte(b) as int])
}

/// Packed value of the `k` bases starting at `i`.
pub open spec fn kmer_at(enc: Seq<u8>, s: Seq<u8>, k: int, i: int) -> nat {
    pack(codes_of(enc, s).subrange(i, i + k))
}

/// Packed value of the reverse complement of the `k` bases starting at
/// `i`: complement codes in reversed order.
pub open spec fn rc_kmer_at(enc: Seq<u8>, s: Seq<u8>, k: int, i: int) -> nat {
    pack(rc_codes_of(enc, s).subrange(i, i + k).reverse())
}

/// The smaller of a k-mer's packed value and its reverse complement's.
pub open spec fn canonical_kmer_at(enc: Seq<u8>, s: Seq<u8>, k: int, i: int) -> nat {
    if rc_kmer_at(enc, s, k, i) <= kmer_at(enc, s, k, i) {
        rc_kmer_at(enc, s, k, i)
    } else {
        kmer_at(enc, s, k, i)
    }
}

/// Whether the canonical form of the k-mer at `i` is the reverse strand's.
pub open spec fn is_rc_at(enc: Seq<u8>, s: Seq<u8>, k: int, i: int) -> bool {
    rc_kmer_at(enc, s, k, i) <= kmer_at(enc, s, k, i)
}

/// Per-position ranks of the forward k-mers.
pub open spec fn kmer_rank_seq(enc: Seq<u8>, s: Seq<u8>, k: int, order: KeyOrder) -> Seq<u64> {
    Seq::new((s.len() - k + 1) as nat, |i: int| rank_of(order, kmer_at(enc, s, k, i) as u64))
}

/// Per-position ranks of the canonical k-mers.
pub open spec fn canonical_kmer_rank_seq(enc: Seq<u8>, s: Seq<u8>, k: int, order: KeyOrder) -> Seq<
    u64,
> {
    Seq::new(
        (s.len() - k + 1) as nat,
        |i: int| rank_of(order, canonical_kmer_at(enc, s, k, i) as u64),
    )
}

/// Reverse-strand flags of all k-mer positions.
pub open spec fn is_rc_seq(enc: Seq<u8>, s: Seq<u8>, k: int) -> Seq<bool> {
    Seq::new((s.len() - k + 1) as nat, |i: int| is_rc_at(enc, s, k, i))
}

/// Position selected by window `j`: `j` plus the window-relative leftmost
/// minimum.
pub open spec fn sel_at(ranks: Seq<u64>, w: int, j: int) -> int {
    j + leftmost_min_idx(ranks.subrange(j, j + w))
}

/// The selected position of every window, in order.
pub open spec fn sel_seq(ranks: Seq<u64>, w: int) -> Seq<int> {
    Seq::new((ranks.len() - w + 1) as nat, |j: int| sel_at(ranks, w, j))
}

/// Mod-sampling: the minimum over a window of `wt` reduced keys, folded
/// back to the `w` k-mer positions of the window.
pub open spec fn mod_sel_at(ranks: Seq<u64>, w: int, wt: int, j: int) -> int {
    j + leftmost_min_idx(ranks.subrange(j, j + wt)) % w
}

pub open spec fn mod_sel_seq(ranks: Seq<u64>, w: int, wt: int) -> Seq<int> {
    Seq::new((ranks.len() - wt + 1) as nat, |j: int| mod_sel_at(ranks, w, wt, j))
}

/// Canonical selection: tie-broken pick inside the window, switched by the
/// strand flag of the window's middle position.
pub open spec fn canonical_sel_at(ranks: Seq<u64>, flags: Seq<bool>, w: int, j: int) -> int {
    j + pick_in_window(ranks.subrange(j, j + w), flags[j + w / 2])
}

pub open spec fn canonical_sel_seq(ranks: Seq<u64>, flags: Seq<bool>, w: int) -> Seq<int> {
    Seq::new((ranks.len() - w + 1) as nat, |j: int| canonical_sel_at(ranks, flags, w, j))
}

/// Canonical mod-sampling: tie-broken pick over the reduced-key window,
/// folded back to the `w` k-mer positions.
pub open spec fn canonical_mod_sel_at(
    tranks: Seq<u64>,
    flags: Seq<bool>,
    w: int,
    wt: int,
    j: int,
) -> int {
    j + pick_in_window(tranks.subrange(j, j + wt), flags[j + w / 2]) % w
}

pub open spec fn canonical_mod_sel_seq(tranks: Seq<u64>, flags: Seq<bool>, w: int, wt: int) -> Seq<
    int,
> {
    Seq::new((tranks.len() - wt + 1) as nat, |j: int| canonical_mod_sel_at(tranks, flags, w, wt, j))
}

/// Positions emitted by the classic scheme: one record per run of windows
/// sharing a selected position.
pub open spec fn minimizer_positions(
    s: Seq<u8>,
    enc: Seq<u8>,
    k: int,
    w: int,
    order: KeyOrder,
) -> Seq<int> {
    if s.len() < w + k - 1 {
        Seq::empty()
    } else {
        rle(sel_seq(kmer_rank_seq(enc, s, k, order), w))
    }
}

/// Positions emitted by the mod-sampling scheme with reduced length `t`.
pub open spec fn mod_minimizer_positions(
    s: Seq<u8>,
    enc: Seq<u8>,
    k: int,
    t: int,
    w: int,
    order: KeyOrder,
) -> Seq<int> {
    if s.len() < w + k - 1 {
        Seq::empty()
    } else {
        rle(mod_sel_seq(kmer_rank_seq(enc, s, t, order), w, w + k - t))
    }
}

/// Positions emitted by the canonical classic scheme.
pub open spec fn canonical_minimizer_positions(
    s: Seq<u8>,
    enc: Seq<u8>,
    k: int,
    w: int,
    order: KeyOrder,
) -> Seq<int> {
    if s.len() < w + k - 1 {
        Seq::empty()
    } else {
        rle(canonical_sel_seq(canonical_kmer_rank_seq(enc, s, k, order), is_rc_seq(enc, s, k), w))
    }
}

/// Positions emitted by the canonical mod-sampling scheme.
pub open spec fn canonical_mod_minimizer_positions(
    s: Seq<u8>,
    enc: Seq<u8>,
    k: int,
    t: int,
    w: int,
    order: KeyOrder,
) -> Seq<int> {
    if s.len() < w + k - 1 {
        Seq::empty()
    } else {
        rle(
            canonical_mod_sel_seq(
                canonical_kmer_rank_seq(enc, s, t, order),
                is_rc_seq(enc, s, k),
                w,
                w + k - t,
            ),
        )
    }
}

/// The reverse complement of a whole sequence: complement every base and
/// reverse the order.
pub open spec fn revcomp(s: Seq<u8>) -> Seq<u8> {
    s.map_values(|b: u8| comp_byte(b)).reverse()
}

/// Complementing a base twice gives the base back.
pub proof fn lemma_comp_byte_involution(b: u8)
    ensures
        comp_byte(comp_byte(b)) == b,
{
}

/// The k-mer at `i` of the reverse complement of `s` is the reverse
/// complement of the k-mer at the mirrored position of `s`, and
/// conversely; hence both strands see the same canonical k-mer at
/// mirrored positions, on opposite strands wherever the two strands
/// differ.
pub proof fn lemma_revcomp_mirror(enc: Seq<u8>, s: Seq<u8>, k: int, i: int)
    requires
        k >= 1,
        0 <= i,
        i + k <= s.len(),
    ensures
        kmer_at(enc, revcomp(s), k, i) == rc_kmer_at(enc, s, k, s.len() - k - i),
        rc_kmer_at(enc, revcomp(s), k, i) == kmer_at(enc, s, k, s.len() - k - i),
        canonical_kmer_at(enc, revcomp(s), k, i) == canonical_kmer_at(enc, s, k, s.len() - k - i),
        kmer_at(enc, s, k, s.len() - k - i) != rc_kmer_at(enc, s, k, s.len() - k - i) ==> (
        is_rc_at(enc, revcomp(s), k, i) == !is_rc_at(enc, s, k, s.len() - k - i)),
{
    let l = s.len() as int;
    let p = l - k - i;
    let rc = revcomp(s);
    assert(rc.len() == l);
    assert(forall|j: int| 0 <= j < l ==> #[trigger] rc[j] == comp_byte(s[l - 1 - j]));
    // forward k-mer of the reverse complement
    let a = codes_of(enc, rc).subrange(i, i + k);
    let b = rc_codes_of(enc, s).subrange(p, p + k).reverse();
    assert(a.len() == k && b.len() == k);
    assert forall|j: int| 0 <= j < k implies a[j] == b[j] by {
        assert(a[j] == enc[rc[i + j] as int]);
        assert(rc[i + j] == comp_byte(s[l - 1 - i - j]));
        assert(b[j] == rc_codes_of(enc, s)[p + k - 1 - j]);
        assert(rc_codes_of(enc, s)[p + k - 1 - j] == enc[comp_byte(s[p + k - 1 - j]) as int]);
        assert(p + k - 1 - j == l - 1 - i - j);
    }
    assert(a =~= b);
    // reverse-complement k-mer of the reverse complement
    let c = rc_codes_of(enc, rc).subrange(i, i + k).reverse();
    let d = codes_of(enc, s).subrange(p, p + k);
    assert(c.len() == k && d.len() == k);
    assert forall|j: int| 0 <= j < k implies c[j] == d[j] by {
        assert(c[j] == rc_codes_of(enc, rc)[i + k - 1 - j]);
        assert(rc_codes_of(enc, rc)[i + k - 1 - j] == enc[comp_byte(rc[i + k - 1 - j]) as int]);
        assert(rc[i + k - 1 - j] == comp_byte(s[l - 1 - (i + k - 1 - j)]));
        lemma_comp_byte_involution(s[l - 1 - (i + k - 1 - j)]);
        assert(comp_byte(rc[i + k - 1 - j]) == s[l - k - i + j]);
        assert(d[j] == enc[s[p + j] as int]);
    }
    assert(c =~= d);
}

/// The encoding tells the two strands apart on every base of `s`.
pub open spec fn strands_distinct(enc: Seq<u8>, s: Seq<u8>) -> bool {
    forall|i: int|
        0 <= i < s.len() ==> enc[(#[trigger] s[i]) as int] != enc[comp_byte(s[i]) as int]
}

/// A k-mer of odd length never equals its own reverse complement when the
/// encoding tells the strands apart.
pub proof fn lemma_odd_kmer_not_palindromic(enc: Seq<u8>, s: Seq<u8>, k: int, i: int)
    requires
        enc_wf(enc),
        k >= 1,
        k % 2 == 1,
        0 <= i,
        i + k <= s.len(),
        strands_distinct(enc, s),
    ensures
        kmer_at(enc, s, k, i) != rc_kmer_at(enc, s, k, i),
{
    let u = codes_of(enc, s).subrange(i, i + k);
    let v = rc_codes_of(enc, s).subrange(i, i + k).reverse();
    assert(codes_wf(codes_of(enc, s)));
    assert(codes_wf(rc_codes_of(enc, s)));
    assert(codes_wf(u)) by {
        assert(forall|j: int| 0 <= j < u.len() ==> u[j] == codes_of(enc, s)[i + j]);
    }
    assert(codes_wf(v)) by {
        assert(forall|j: int| 0 <= j < v.len() ==> v[j] == rc_codes_of(enc, s)[i + k - 1 - j]);
    }
    if pack(u) == pack(v) {
        crate::kmer::lemma_pack_injective(u, v);
        let c = (k - 1) / 2;
        assert(k - 1 - c == c);
        assert(u[c] == enc[s[i + c] as int]);
        assert(v[c] == rc_codes_of(enc, s)[i + k - 1 - c]);
        assert(v[c] == enc[comp_byte(s[i + c]) as int]);
        assert(enc[s[i + c] as int] != enc[comp_byte(s[i + c]) as int]);
        assert(false);
    }
}

/// Law (reverse-complement symmetry): with a strand-distinguishing
/// encoding and odd k-mer length and width, running the canonical scheme
/// on the reverse complement of a sequence emits exactly the mirrored
/// positions, in reverse record order, with every strand flag inverted.
pub proof fn lemma_canonical_symmetry(s: Seq<u8>, enc: Seq<u8>, k: int, w: int, order: KeyOrder)
    requires
        enc_wf(enc),
        k >= 1,
        k % 2 == 1,
        w >= 1,
        w % 2 == 1,
        w + k - 1 <= s.len(),
        strands_distinct(enc, s),
    ensures
        ({
            let l = s.len() as int;
            let out = canonical_minimizer_positions(s, enc, k, w, order);
            let out2 = canonical_minimizer_positions(revcomp(s), enc, k, w, order);
            &&& out2.len() == out.len()
            &&& forall|r: int|
                0 <= r < out.len() ==> #[trigger] out2[r] == l - k - out[out.len() - 1 - r]
            &&& forall|r: int|
                0 <= r < out.len() ==> is_rc_at(enc, revcomp(s), k, #[trigger] out2[r])
                    == !is_rc_at(enc, s, k, out[out.len() - 1 - r])
        }),
{
    let l = s.len() as int;
    let rc = revcomp(s);
    assert(rc.len() == l);
    let cr = canonical_kmer_rank_seq(enc, s, k, order);
    let cr2 = canonical_kmer_rank_seq(enc, rc, k, order);
    let fl = is_rc_seq(enc, s, k);
    let fl2 = is_rc_seq(enc, rc, k);
    let nk = l - k + 1;
    let nw = nk - w + 1;
    assert(cr.len() == nk && cr2.len() == nk && fl.len() == nk && fl2.len() == nk);
    assert forall|i: int| 0 <= i < nk implies #[trigger] cr2[i] == cr[nk - 1 - i] by {
        lemma_revcomp_mirror(enc, s, k, i);
    }
    assert forall|i: int| 0 <= i < nk implies #[trigger] fl2[i] == !fl[nk - 1 - i] by {
        lemma_revcomp_mirror(enc, s, k, i);
        lemma_odd_kmer_not_palindromic(enc, s, k, l - k - i);
    }
    assert(w == 2 * (w / 2) + 1);
    let css = canonical_sel_seq(cr, fl, w);
    let css2 = canonical_sel_seq(cr2, fl2, w);
    assert(css.len() == nw && css2.len() == nw);
    assert forall|j: int| 0 <= j < nw implies #[trigger] css2[j] == (nk - 1) - css[nw - 1 - j] by {
        let jj = nw - 1 - j;
        let win = cr.subrange(jj, jj + w);
        let win2 = cr2.subrange(j, j + w);
        assert(win2 =~= win.reverse()) by {
            assert(forall|x: int|
                0 <= x < w ==> #[trigger] win2[x] == cr[nk - 1 - j - x]);
            assert(forall|x: int|
                0 <= x < w ==> #[trigger] win.reverse()[x] == cr[jj + w - 1 - x]);
        }
        assert(fl2[j + w / 2] == !fl[nk - 1 - j - w / 2]);
        assert(nk - 1 - j - w / 2 == jj + w / 2);
        crate::select::lemma_pick_in_window_mirror(win, fl[jj + w / 2]);
        assert(pick_in_window(win2, fl2[j + w / 2]) == w - 1 - pick_in_window(
            win,
            fl[jj + w / 2],
        ));
        assert(css2[j] == j + pick_in_window(win2, fl2[j + w / 2]));
        assert(css[jj] == jj + pick_in_window(win, fl[jj + w / 2]));
    }
    let refl = crate::select::reflect_positions(css, nk - 1);
    assert(css2 =~= refl.reverse()) by {
        assert(forall|j: int| 0 <= j < nw ==> #[trigger] refl[j] == nk - 1 - css[j]);
        assert(forall|j: int|
            0 <= j < nw ==> #[trigger] refl.reverse()[j] == nk - 1 - css[nw - 1 - j]);
    }
    crate::select::lemma_rle_reverse(refl);
    crate::select::lemma_rle_reflect(css, nk - 1);
    let out = canonical_minimizer_positions(s, enc, k, w, order);
    let out2 = canonical_minimizer_positions(rc, enc, k, w, order);
    assert(out == rle(css));
    assert(out2 == rle(css2));
    assert(rle(css2) == rle(refl.reverse()));
    assert(rle(refl.reverse()) =~= rle(refl).reverse());
    assert(rle(refl) =~= crate::select::reflect_positions(rle(css), nk - 1));
    assert(out2.len() == out.len());
    assert forall|r: int| 0 <= r < out.len() implies #[trigger] out2[r] == l - k - out[out.len()
        - 1 - r] by {
        assert(out2[r] == rle(refl).reverse()[r]);
        assert(rle(refl).reverse()[r] == rle(refl)[out.len() - 1 - r]);
        assert(rle(refl)[out.len() - 1 - r] == nk - 1 - out[out.len() - 1 - r]);
    }
    // every emitted position indexes a window, so the flag clause follows
    crate::select::lemma_rle_elements(css);
    assert forall|r: int| 0 <= r < out.len() implies is_rc_at(
        enc,
        rc,
        k,
        #[trigger] out2[r],
    ) == !is_rc_at(enc, s, k, out[out.len() - 1 - r]) by {
        let p = out[out.len() - 1 - r];
        assert(css.contains(p));
        let j = choose|j: int| 0 <= j < css.len() && css[j] == p;
        crate::select::lemma_pick_in_window(cr.subrange(j, j + w), fl[j + w / 2]);
        assert(0 <= p < nk);
        assert(out2[r] == nk - 1 - p);
        assert(fl2[nk - 1 - p] == !fl[p]);
        assert(fl2[nk - 1 - p] == is_rc_at(enc, rc, k, nk - 1 - p));
        assert(fl[p] == is_rc_at(enc, s, k, p));
    }
}

/// Folding a reflected position inside an expanded window that is a
/// multiple of the width reflects the folded position.
proof fn lemma_fold_mirror(pt: int, w: int, wt: int)
    requires
        w >= 1,
        w <= wt,
        wt % w == 0,
        0 <= pt < wt,
    ensures
        (wt - 1 - pt) % w == w - 1 - pt % w,
{
    let q = pt / w;
    let r = pt % w;
    vstd::arithmetic::div_mod::lemma_fundamental_div_mod(pt, w);
    let m = wt / w;
    vstd::arithmetic::div_mod::lemma_fundamental_div_mod(wt, w);
    assert(wt == m * w);
    assert(wt - 1 - pt == (m - q - 1) * w + (w - 1 - r)) by (nonlinear_arith)
        requires
            wt == m * w,
            pt == q * w + r,
    ;
    vstd::arithmetic::div_mod::lemma_fundamental_div_mod_converse(
        wt - 1 - pt,
        w,
        m - q - 1,
        w - 1 - r,
    );
}

/// Law (reverse-complement symmetry, mod-sampling): the canonical
/// mod-sampling scheme is symmetric under reverse complementation in the
/// same way, provided the expanded window is a multiple of the width.
pub proof fn lemma_canonical_mod_symmetry(
    s: Seq<u8>,
    enc: Seq<u8>,
    k: int,
    t: int,
    w: int,
    order: KeyOrder,
)
    requires
        enc_wf(enc),
        k >= 1,
        k % 2 == 1,
        1 <= t <= k,
        w >= 1,
        w % 2 == 1,
        (w + k - t) % w == 0,
        w + k - 1 <= s.len(),
        strands_distinct(enc, s),
    ensures
        ({
            let l = s.len() as int;
            let out = canonical_mod_minimizer_positions(s, enc, k, t, w, order);
            let out2 = canonical_mod_minimizer_positions(revcomp(s), enc, k, t, w, order);
            &&& out2.len() == out.len()
            &&& forall|r: int|
                0 <= r < out.len() ==> #[trigger] out2[r] == l - k - out[out.len() - 1 - r]
            &&& forall|r: int|
                0 <= r < out.len() ==> is_rc_at(enc, revcomp(s), k, #[trigger] out2[r])
                    == !is_rc_at(enc, s, k, out[out.len() - 1 - r])
        }),
{
    let l = s.len() as int;
    let rc = revcomp(s);
    assert(rc.len() == l);
    let wt = w + k - t;
    let cr = canonical_kmer_rank_seq(enc, s, t, order);
    let cr2 = canonical_kmer_rank_seq(enc, rc, t, order);
    let fl = is_rc_seq(enc, s, k);
    let fl2 = is_rc_seq(enc, rc, k);
    let nt = l - t + 1;
    let nk = l - k + 1;
    let nw = nt - wt + 1;
    assert(nw == nk - w + 1);
    assert(cr.len() == nt && cr2.len() == nt && fl.len() == nk && fl2.len() == nk);
    assert forall|i: int| 0 <= i < nt implies #[trigger] cr2[i] == cr[nt - 1 - i] by {
        lemma_revcomp_mirror(enc, s, t, i);
    }
    assert forall|i: int| 0 <= i < nk implies #[trigger] fl2[i] == !fl[nk - 1 - i] by {
        lemma_revcomp_mirror(enc, s, k, i);
        lemma_odd_kmer_not_palindromic(enc, s, k, l - k - i);
    }
    assert(w == 2 * (w / 2) + 1);
    let css = canonical_mod_sel_seq(cr, fl, w, wt);
    let css2 = canonical_mod_sel_seq(cr2, fl2, w, wt);
    assert(css.len() == nw && css2.len() == nw);
    assert forall|j: int| 0 <= j < nw implies #[trigger] css2[j] == (nk - 1) - css[nw - 1 - j] by {
        let jj = nw - 1 - j;
        let win = cr.subrange(jj, jj + wt);
        let win2 = cr2.subrange(j, j + wt);
        assert(win2 =~= win.reverse()) by {
            assert(forall|x: int| 0 <= x < wt ==> #[trigger] win2[x] == cr[nt - 1 - j - x]);
            assert(forall|x: int|
                0 <= x < wt ==> #[trigger] win.reverse()[x] == cr[jj + wt - 1 - x]);
        }
        assert(fl2[j + w / 2] == !fl[nk - 1 - j - w / 2]);
        assert(nk - 1 - j - w / 2 == jj + w / 2);
        crate::select::lemma_pick_in_window_mirror(win, fl[jj + w / 2]);
        let pt = pick_in_window(win, fl[jj + w / 2]);
        crate::select::lemma_pick_in_window(win, fl[jj + w / 2]);
        assert(pick_in_window(win2, fl2[j + w / 2]) == wt - 1 - pt);
        lemma_fold_mirror(pt, w, wt);
        assert(css2[j] == j + (wt - 1 - pt) % w);
        assert(css[jj] == jj + pt % w);
    }
    let refl = crate::select::reflect_positions(css, nk - 1);
    assert(css2 =~= refl.reverse()) by {
        assert(forall|j: int| 0 <= j < nw ==> #[trigger] refl[j] == nk - 1 - css[j]);
        assert(forall|j: int|
            0 <= j < nw ==> #[trigger] refl.reverse()[j] == nk - 1 - css[nw - 1 - j]);
    }
    crate::select::lemma_rle_reverse(refl);
    crate::select::lemma_rle_reflect(css, nk - 1);
    let out = canonical_mod_minimizer_positions(s, enc, k, t, w, order);
    let out2 = canonical_mod_minimizer_positions(rc, enc, k, t, w, order);
    assert(out == rle(css));
    assert(out2 == rle(css2));
    assert(rle(css2) == rle(refl.reverse()));
    assert(rle(refl.reverse()) =~= rle(refl).reverse());
    assert(rle(refl) =~= crate::select::reflect_positions(rle(css), nk - 1));
    assert(out2.len() == out.len());
    assert forall|r: int| 0 <= r < out.len() implies #[trigger] out2[r] == l - k - out[out.len()
        - 1 - r] by {
        assert(out2[r] == rle(refl).reverse()[r]);
        assert(rle(refl).reverse()[r] == rle(refl)[out.len() - 1 - r]);
        assert(rle(refl)[out.len() - 1 - r] == nk - 1 - out[out.len() - 1 - r]);
    }
    crate::select::lemma_rle_elements(css);
    assert forall|r: int| 0 <= r < out.len() implies is_rc_at(
        enc,
        rc,
        k,
        #[trigger] out2[r],
    ) == !is_rc_at(enc, s, k, out[out.len() - 1 - r]) by {
        let p = out[out.len() - 1 - r];
        assert(css.contains(p));
        let j = choose|j: int| 0 <= j < css.len() && css[j] == p;
        crate::select::lemma_pick_in_window(cr.subrange(j, j + wt), fl[j + w / 2]);
        let pt = pick_in_window(cr.subrange(j, j + wt), fl[j + w / 2]);
        assert(0 <= pt % w < w) by {
            assert(pt >= 0 && w >= 1);
        }
        assert(css[j] == j + pt % w);
        assert(0 <= p < nk);
        assert(out2[r] == nk - 1 - p);
        assert(fl2[nk - 1 - p] == !fl[p]);
        assert(fl2[nk - 1 - p] == is_rc_at(enc, rc, k, nk - 1 - p));
        assert(fl[p] == is_rc_at(enc, s, k, p));
    }
}

/// Law: every emitted classic record is the leftmost minimum-rank
/// position of some window of `w` consecutive k-mer ranks, and
/// consecutive windows selecting the same position are coalesced: no two
/// consecutive records agree.
pub proof fn lemma_window_invariant(s: Seq<u8>, enc: Seq<u8>, k: int, w: int, order: KeyOrder)
    requires
        w >= 1,
        k >= 1,
        w + k - 1 <= s.len(),
    ensures
        ({
            let ranks = kmer_rank_seq(enc, s, k, order);
            let out = minimizer_positions(s, enc, k, w, order);
            &&& forall|m: int|
                0 <= m < out.len() ==> exists|j: int|
                    0 <= j <= ranks.len() - w && #[trigger] out[m] == j + leftmost_min_idx(
                        #[trigger] ranks.subrange(j, j + w),
                    )
            &&& forall|m: int| 0 <= m < out.len() - 1 ==> #[trigger] out[m] != out[m + 1]
        }),
{
    let ranks = kmer_rank_seq(enc, s, k, order);
    let ss = sel_seq(ranks, w);
    let out = minimizer_positions(s, enc, k, w, order);
    assert(out == crate::select::rle(ss));
    crate::select::lemma_rle_elements(ss);
    assert forall|m: int| 0 <= m < out.len() implies exists|j: int|
        0 <= j <= ranks.len() - w && #[trigger] out[m] == j + leftmost_min_idx(
            #[trigger] ranks.subrange(j, j + w),
        ) by {
        assert(ss.contains(out[m]));
        let j = choose|j: int| 0 <= j < ss.len() && ss[j] == out[m];
        assert(ss[j] == sel_at(ranks, w, j));
        assert(out[m] == j + leftmost_min_idx(ranks.subrange(j, j + w)));
    }
}

/// Law: every emitted canonical record lies in some window of `w`
/// consecutive positions and attains the window's minimum canonical rank;
/// consecutive records never agree.
pub proof fn lemma_canonical_window_invariant(
    s: Seq<u8>,
    enc: Seq<u8>,
    k: int,
    w: int,
    order: KeyOrder,
)
    requires
        w >= 1,
        k >= 1,
        w + k - 1 <= s.len(),
    ensures
        ({
            let ranks = canonical_kmer_rank_seq(enc, s, k, order);
            let out = canonical_minimizer_positions(s, enc, k, w, order);
            &&& forall|m: int|
                0 <= m < out.len() ==> exists|j: int|
                    0 <= j <= ranks.len() - w && j <= #[trigger] out[m] < j + w
                        && crate::select::is_min_at(#[trigger] ranks.subrange(j, j + w), out[m] - j)
            &&& forall|m: int| 0 <= m < out.len() - 1 ==> #[trigger] out[m] != out[m + 1]
        }),
{
    let ranks = canonical_kmer_rank_seq(enc, s, k, order);
    let flags = is_rc_seq(enc, s, k);
    let ss = canonical_sel_seq(ranks, flags, w);
    let out = canonical_minimizer_positions(s, enc, k, w, order);
    assert(out == crate::select::rle(ss));
    crate::select::lemma_rle_elements(ss);
    assert forall|m: int| 0 <= m < out.len() implies exists|j: int|
        0 <= j <= ranks.len() - w && j <= #[trigger] out[m] < j + w && crate::select::is_min_at(
            #[trigger] ranks.subrange(j, j + w),
            out[m] - j,
        ) by {
        assert(ss.contains(out[m]));
        let j = choose|j: int| 0 <= j < ss.len() && ss[j] == out[m];
        assert(ss[j] == canonical_sel_at(ranks, flags, w, j));
        crate::select::lemma_pick_in_window(ranks.subrange(j, j + w), flags[j + w / 2]);
        assert(out[m] == j + pick_in_window(ranks.subrange(j, j + w), flags[j + w / 2]));
    }
}

/// Law: selection is a function of the sequence, the encoding, the
/// parameters and the order alone, so repeated runs over the same input
/// emit the same records, ties included.
pub proof fn lemma_deterministic(
    s1: Seq<u8>,
    enc1: Seq<u8>,
    s2: Seq<u8>,
    enc2: Seq<u8>,
    k: int,
    t: int,
    w: int,
    order: KeyOrder,
)
    requires
        s1 == s2,
        enc1 == enc2,
    ensures
        minimizer_positions(s1, enc1, k, w, order) == minimizer_positions(s2, enc2, k, w, order),
        mod_minimizer_positions(s1, enc1, k, t, w, order) == mod_minimizer_positions(
            s2,
            enc2,
            k,
            t,
            w,
            order,
        ),
        canonical_minimizer_positions(s1, enc1, k, w, order) == canonical_minimizer_positions(
            s2,
            enc2,
            k,
            w,
            order,
        ),
        canonical_mod_minimizer_positions(s1, enc1, k, t, w, order)
            == canonical_mod_minimizer_positions(s2, enc2, k, t, w, order),
{
}

/// Law: a sequence shorter than one full window of k-mers produces no
/// records under any scheme.
pub proof fn lemma_short_input(s: Seq<u8>, enc: Seq<u8>, k: int, t: int, w: int, order: KeyOrder)
    requires
        s.len() < w + k - 1,
    ensures
        minimizer_positions(s, enc, k, w, order) == Seq::<int>::empty(),
        mod_minimizer_positions(s, enc, k, t, w, order) == Seq::<int>::empty(),
        canonical_minimizer_positions(s, enc, k, w, order) == Seq::<int>::empty(),
        canonical_mod_minimizer_positions(s, enc, k, t, w, order) == Seq::<int>::empty(),
{
}

/// A queue fed the forward k-mer keys in order has the model's rank
/// window as its trailing window ranks.
pub proof fn lemma_rank_window(
    enc: Seq<u8>,
    s: Seq<u8>,
    k: int,
    order: KeyOrder,
    keys: Seq<u64>,
    j: int,
    w: int,
)
    requires
        keys.len() == j + w,
        j >= 0,
        w >= 1,
        j + w <= s.len() - k + 1,
        forall|p: int|
            0 <= p < keys.len() ==> #[trigger] keys[p] as nat == kmer_at(enc, s, k, p),
    ensures
        crate::queue::ranks_of(order, keys.skip(j)) =~= kmer_rank_seq(enc, s, k, order).subrange(
            j,
            j + w,
        ),
{
    let lhs = crate::queue::ranks_of(order, keys.skip(j));
    let rhs = kmer_rank_seq(enc, s, k, order).subrange(j, j + w);
    assert(lhs.len() == w);
    assert(rhs.len() == w);
    assert forall|i: int| 0 <= i < w implies lhs[i] == rhs[i] by {
        assert(keys.skip(j)[i] == keys[j + i]);
        assert(keys[j + i] as nat == kmer_at(enc, s, k, j + i));
        assert(rhs[i] == rank_of(order, kmer_at(enc, s, k, j + i) as u64));
    }
}

/// The same, for canonical k-mer keys.
pub proof fn lemma_canonical_rank_window(
    enc: Seq<u8>,
    s: Seq<u8>,
    k: int,
    order: KeyOrder,
    keys: Seq<u64>,
    j: int,
    w: int,
)
    requires
        keys.len() == j + w,
        j >= 0,
        w >= 1,
        j + w <= s.len() - k + 1,
        forall|p: int|
            0 <= p < keys.len() ==> #[trigger] keys[p] as nat == canonical_kmer_at(enc, s, k, p),
    ensures
        crate::queue::ranks_of(order, keys.skip(j)) =~= canonical_kmer_rank_seq(
            enc,
            s,
            k,
            order,
        ).subrange(j, j + w),
{
    let lhs = crate::queue::ranks_of(order, keys.skip(j));
    let rhs = canonical_kmer_rank_seq(enc, s, k, order).subrange(j, j + w);
    assert(lhs.len() == w);
    assert(rhs.len() == w);
    assert forall|i: int| 0 <= i < w implies lhs[i] == rhs[i] by {
        assert(keys.skip(j)[i] == keys[j + i]);
        assert(keys[j + i] as nat == canonical_kmer_at(enc, s, k, j + i));
        assert(rhs[i] == rank_of(order, canonical_kmer_at(enc, s, k, j + i) as u64));
    }
}

/// The low `t` codes of a k-mer window are the t-mer ending at the same
/// base.
pub proof fn lemma_tmer_low(enc: Seq<u8>, s: Seq<u8>, k: int, t: int, p: int)
    requires
        enc_wf(enc),
        1 <= t <= k,
        0 <= p,
        p + k <= s.len(),
    ensures
        kmer_at(enc, s, k, p) % pow4(t as nat) == kmer_at(enc, s, t, p + k - t),
{
    let cds = codes_of(enc, s);
    assert(codes_wf(cds));
    let u = cds.subrange(p, p + k);
    assert(codes_wf(u)) by {
        assert(forall|j: int| 0 <= j < u.len() ==> u[j] == cds[p + j]);
    }
    lemma_pack_low(u, t);
    assert(u.skip(k - t) =~= cds.subrange(p + k - t, p + k));
}

/// The high `t` codes of a reverse-complement k-mer window are the
/// reverse-complement t-mer ending at the same base.
pub proof fn lemma_rc_tmer_high(enc: Seq<u8>, s: Seq<u8>, k: int, t: int, p: int)
    requires
        enc_wf(enc),
        1 <= t <= k,
        0 <= p,
        p + k <= s.len(),
    ensures
        rc_kmer_at(enc, s, k, p) / pow4((k - t) as nat) == rc_kmer_at(enc, s, t, p + k - t),
{
    let rcc = rc_codes_of(enc, s);
    assert(codes_wf(rcc));
    let u = rcc.subrange(p, p + k).reverse();
    assert(codes_wf(u)) by {
        assert(forall|j: int| 0 <= j < u.len() ==> u[j] == rcc[p + k - 1 - j]);
    }
    lemma_pack_high(u, t);
    assert(u.take(t) =~= rcc.subrange(p + k - t, p + k).reverse());
}

/// During warm-up the reverse-complement register still yields the
/// reverse-complement t-mer of the last `t` bases by dropping its low
/// `k - t` codes.
pub proof fn lemma_rc_tmer_warm(enc: Seq<u8>, s: Seq<u8>, k: int, t: int, i: int)
    requires
        enc_wf(enc),
        1 <= t <= k,
        t - 1 <= i < k,
        i < s.len(),
    ensures
        (pack(rc_codes_of(enc, s).take(i + 1).reverse()) * pow4((k - i - 1) as nat)) as int / (
        pow4((k - t) as nat) as int) == rc_kmer_at(enc, s, t, i + 1 - t),
{
    let rcc = rc_codes_of(enc, s);
    assert(codes_wf(rcc));
    let rv = rcc.take(i + 1).reverse();
    assert(codes_wf(rv)) by {
        assert(forall|j: int| 0 <= j < rv.len() ==> rv[j] == rcc[i - j]);
    }
    assert(rv.len() == i + 1);
    let a = pack(rv.take(t)) as int;
    let b = pack(rv.skip(t)) as int;
    assert(rv =~= rv.take(t) + rv.skip(t));
    lemma_pack_concat(rv.take(t), rv.skip(t));
    assert(pack(rv) == a * pow4((i + 1 - t) as nat) + b);
    assert(codes_wf(rv.skip(t))) by {
        assert(forall|j: int| 0 <= j < rv.skip(t).len() ==> rv.skip(t)[j] == rv[t + j]);
    }
    lemma_pack_bound(rv.skip(t));
    assert(b < pow4((i + 1 - t) as nat));
    let p1 = pow4((i + 1 - t) as nat) as int;
    let p2 = pow4((k - i - 1) as nat) as int;
    let pq = pow4((k - t) as nat) as int;
    lemma_pow4_adds((i + 1 - t) as nat, (k - i - 1) as nat);
    assert(pq == p1 * p2);
    crate::kmer::lemma_pow4_pos((k - i - 1) as nat);
    crate::kmer::lemma_pow4_pos((k - t) as nat);
    assert((a * p1 + b) * p2 == a * pq + b * p2) by (nonlinear_arith)
        requires
            pq == p1 * p2,
    ;
    assert(0 <= b * p2 < pq) by (nonlinear_arith)
        requires
            0 <= b < p1,
            p2 >= 1,
            pq == p1 * p2,
    ;
    lemma_fundamental_div_mod_converse((a * p1 + b) * p2, pq, a, b * p2);
    assert(rv.take(t) =~= rcc.subrange(i + 1 - t, i + 1).reverse());
}

pub proof fn lemma_pow4_adds(a: nat, b: nat)
    ensures
        pow4(a + b) == pow4(a) * pow4(b),
{
    lemma_pow2_adds(2 * a, 2 * b);
}

pub proof fn lemma_pow4_mono(a: nat, b: nat)
    requires
        a <= b,
    ensures
        pow4(a) <= pow4(b),
{
    if a < b {
        lemma_pow2_strictly_increases(2 * a, 2 * b);
    }
}

/// Appending a code multiplies by four and adds the code.
pub proof fn lemma_pack_push(u: Seq<u8>, c: u8)
    ensures
        pack(u.push(c)) == pack(u) * 4 + c,
{
    assert(u.push(c).drop_last() =~= u);
    assert(u.push(c).last() == c);
}

/// Packing a concatenation: the left part carries the weight of the right.
pub proof fn lemma_pack_concat(a: Seq<u8>, b: Seq<u8>)
    ensures
        pack(a + b) == pack(a) * pow4(b.len()) + pack(b),
    decreases b.len(),
{
    if b.len() == 0 {
        assert(a + b =~= a);
        vstd::arithmetic::power2::lemma2_to64();
        assert(pow4(0) == 1);
        assert(pack(b) == 0);
        assert(pack(a) * 1 + 0 == pack(a));
    } else {
        lemma_pack_concat(a, b.drop_last());
        assert((a + b).drop_last() =~= a + b.drop_last());
        assert((a + b).last() == b.last());
        assert(pack(a + b) == pack(a + b.drop_last()) * 4 + b.last());
        assert(pack(b) == pack(b.drop_last()) * 4 + b.last());
        lemma_pow4_unfold(b.len());
        let x = pack(a) as int;
        let p = pow4((b.len() - 1) as nat) as int;
        let q = pack(b.drop_last()) as int;
        let c = b.last() as int;
        assert((x * p + q) * 4 + c == x * (4 * p) + (q * 4 + c)) by (nonlinear_arith);
        assert(pack(a + b) == (x * p + q) * 4 + c);
        assert(pack(a) * pow4(b.len()) + pack(b) == x * (4 * p) + (q * 4 + c));
    }
}

/// The low `t` codes of a packed register are the register modulo 4^t.
pub proof fn lemma_pack_low(u: Seq<u8>, t: int)
    requires
        codes_wf(u),
        0 <= t <= u.len(),
    ensures
        pack(u.skip(u.len() - t)) == pack(u) as int % (pow4(t as nat) as int),
{
    let hi = u.take(u.len() - t);
    let lo = u.skip(u.len() - t);
    assert(u =~= hi + lo);
    lemma_pack_concat(hi, lo);
    assert(codes_wf(lo)) by {
        assert(forall|i: int| 0 <= i < lo.len() ==> lo[i] == u[u.len() - t + i]);
    }
    lemma_pack_bound(lo);
    crate::kmer::lemma_pow4_pos(t as nat);
    lemma_fundamental_div_mod_converse(
        pack(u) as int,
        pow4(t as nat) as int,
        pack(hi) as int,
        pack(lo) as int,
    );
}

/// The high `t` codes of a packed register are the register divided by the
/// weight of the rest.
pub proof fn lemma_pack_high(u: Seq<u8>, t: int)
    requires
        codes_wf(u),
        0 <= t <= u.len(),
    ensures
        pack(u.take(t)) == pack(u) as int / (pow4((u.len() - t) as nat) as int),
{
    let hi = u.take(t);
    let lo = u.skip(t);
    assert(u =~= hi + lo);
    lemma_pack_concat(hi, lo);
    assert(codes_wf(lo)) by {
        assert(forall|i: int| 0 <= i < lo.len() ==> lo[i] == u[t + i]);
    }
    lemma_pack_bound(lo);
    crate::kmer::lemma_pow4_pos((u.len() - t) as nat);
    lemma_fundamental_div_mod_converse(
        pack(u) as int,
        pow4((u.len() - t) as nat) as int,
        pack(hi) as int,
        pack(lo) as int,
    );
}

/// Rolling one base forward: the next window's value from the previous
/// window's value.
pub proof fn lemma_pack_roll(codes: Seq<u8>, k: int, i: int)
    requires
        codes_wf(codes),
        1 <= k,
        0 <= i,
        i + k + 1 <= codes.len(),
    ensures
        pack(codes.subrange(i + 1, i + 1 + k)) == (pack(codes.subrange(i, i + k)) as int % (
        pow4((k - 1) as nat) as int)) * 4 + codes[i + k],
{
    let u = codes.subrange(i, i + k);
    assert(codes_wf(u)) by {
        assert(forall|j: int| 0 <= j < u.len() ==> u[j] == codes[i + j]);
    }
    lemma_pack_low(u, k - 1);
    assert(u.skip(1) =~= codes.subrange(i + 1, i + k));
    assert(codes.subrange(i + 1, i + 1 + k) =~= codes.subrange(i + 1, i + k).push(codes[i + k]));
    lemma_pack_push(codes.subrange(i + 1, i + k), codes[i + k]);
}

/// Warming the reverse-complement register: after `i` bases it holds the
/// reversed complement codes, shifted to the top of a `k`-code register.
pub proof fn lemma_rc_warm_step(rcc: Seq<u8>, k: int, i: int)
    requires
        codes_wf(rcc),
        1 <= k,
        0 <= i < k,
        i < rcc.len(),
    ensures
        pack(rcc.take(i).reverse()) * pow4((k - i) as nat) < pow4(k as nat),
        pack(rcc.take(i + 1).reverse()) * pow4((k - i - 1) as nat) == (pack(rcc.take(i).reverse())
            * pow4((k - i) as nat)) as int / 4 + rcc[i] * pow4((k - 1) as nat),
{
    let rv = rcc.take(i).reverse();
    let p = pack(rv) as int;
    assert(codes_wf(rv)) by {
        assert(forall|j: int| 0 <= j < rv.len() ==> rv[j] == rcc[i - 1 - j]);
    }
    lemma_pack_bound(rv);
    assert(rv.len() == i);
    lemma_pow4_adds(i as nat, (k - i) as nat);
    let q = pow4((k - i) as nat) as int;
    let q1 = pow4((k - i - 1) as nat) as int;
    let pi = pow4(i as nat) as int;
    crate::kmer::lemma_pow4_pos((k - i) as nat);
    crate::kmer::lemma_pow4_pos((k - i - 1) as nat);
    crate::kmer::lemma_pow4_pos(i as nat);
    assert(p * q < pi * q) by (nonlinear_arith)
        requires
            p < pi,
            q >= 1,
    ;
    // the next register value
    assert(rcc.take(i + 1).reverse() =~= seq![rcc[i]] + rv);
    lemma_pack_concat(seq![rcc[i]], rv);
    let sgl = seq![rcc[i]];
    assert(sgl.len() == 1);
    assert(sgl.drop_last() =~= Seq::<u8>::empty());
    assert(pack(sgl.drop_last()) == 0);
    assert(sgl.last() == rcc[i]);
    assert(pack(sgl) == rcc[i]);
    assert(pack(rcc.take(i + 1).reverse()) == rcc[i] * pi + p);
    lemma_pow4_unfold((k - i) as nat);
    assert(q == 4 * q1);
    assert(p * q == (p * q1) * 4 + 0) by (nonlinear_arith)
        requires
            q == 4 * q1,
    ;
    lemma_fundamental_div_mod_converse(p * q, 4, p * q1, 0);
    assert((p * q) / 4 == p * q1);
    lemma_pow4_adds(i as nat, (k - i - 1) as nat);
    let pk1 = pow4((k - 1) as nat) as int;
    assert(pi * q1 == pk1);
    assert((rcc[i] * pi + p) * q1 == rcc[i] * (pi * q1) + p * q1) by (nonlinear_arith);
}

/// Rolling one base forward on the reverse-complement register.
pub proof fn lemma_rc_roll(rcc: Seq<u8>, k: int, i: int)
    requires
        codes_wf(rcc),
        1 <= k,
        0 <= i,
        i + k + 1 <= rcc.len(),
    ensures
        pack(rcc.subrange(i + 1, i + 1 + k).reverse()) == pack(
            rcc.subrange(i, i + k).reverse(),
        ) as int / 4 + rcc[i + k] * pow4((k - 1) as nat),
{
    let u = rcc.subrange(i, i + k).reverse();
    let v = rcc.subrange(i + 1, i + 1 + k).reverse();
    let m = rcc.subrange(i + 1, i + k).reverse();
    assert(u.drop_last() =~= m);
    assert(u.last() == rcc[i]);
    assert(pack(u) == pack(m) * 4 + rcc[i]);
    lemma_fundamental_div_mod_converse(pack(u) as int, 4, pack(m) as int, rcc[i] as int);
    assert(v =~= seq![rcc[i + k]] + m);
    lemma_pack_concat(seq![rcc[i + k]], m);
    let sgl = seq![rcc[i + k]];
    assert(sgl.len() == 1);
    assert(sgl.drop_last() =~= Seq::<u8>::empty());
    assert(pack(sgl.drop_last()) == 0);
    assert(sgl.last() == rcc[i + k]);
    assert(pack(sgl) == rcc[i + k]);
}

} // verus!
