use vstd::prelude::*;

use crate::grid::{dims_ok, idx, lemma_idx_in_bounds, lemma_idx_next_row};

verus! {

pub open spec fn min2(a: int, b: int) -> int {
    if a <= b {
        a
    } else {
        b
    }
}

/// Leftmost column among a pixel's predecessors in the row above.
pub open spec fn pred_lo(c: int) -> int {
    if c > 0 {
        c - 1
    } else {
        c
    }
}

/// Rightmost column among a pixel's predecessors in the row above.
pub open spec fn pred_hi(w: int, c: int) -> int {
    if c < w - 1 {
        c + 1
    } else {
        c
    }
}

/// Least total energy of a connected path from the top row down to row `r`,
/// column `c`, over the energies `e` of a grid `w` columns wide.
pub open spec fn min_cost(e: Seq<u32>, w: int, r: int, c: int) -> int
    decreases r,
{
    if r <= 0 {
        e[idx(w, 0, c)] as int
    } else {
        let up = min_cost(e, w, r - 1, c);
        let with_left = if c > 0 {
            min2(min_cost(e, w, r - 1, c - 1), up)
        } else {
            up
        };
        let best = if c < w - 1 {
            min2(with_left, min_cost(e, w, r - 1, c + 1))
        } else {
            with_left
        };
        e[idx(w, r, c)] as int + best
    }
}

/// The leftmost column in `lo..=hi` of row `r` with the least `min_cost`.
pub open spec fn best_in(e: Seq<u32>, w: int, r: int, lo: int, hi: int) -> int
    decreases hi - lo,
{
    if hi <= lo {
        lo
    } else {
        let b = best_in(e, w, r, lo, hi - 1);
        if min_cost(e, w, r, hi) < min_cost(e, w, r, b) {
            hi
        } else {
            b
        }
    }
}

/// The column that the chosen seam takes in row `r`: the leftmost cheapest
/// column of the last row, then, going up, the leftmost cheapest predecessor.
pub open spec fn seam_col(e: Seq<u32>, w: int, h: int, r: int) -> int
    decreases h - r,
{
    if r >= h - 1 {
        best_in(e, w, h - 1, 0, w - 1)
    } else {
        let c = seam_col(e, w, h, r + 1);
        best_in(e, w, r, pred_lo(c), pred_hi(w, c))
    }
}

/// The chosen seam as flat offsets, top row first.
pub open spec fn seam_path(e: Seq<u32>, w: int, h: int) -> Seq<u32> {
    Seq::new(h as nat, |r: int| idx(w, r, seam_col(e, w, h, r)) as u32)
}

/// The column of a seam's offset in row `r`.
pub open spec fn col_of(s: Seq<u32>, w: int, r: int) -> int {
    s[r] as int - idx(w, r, 0)
}

/// One offset per row, each inside its row, and neighbouring rows' columns at
/// most one apart.
pub open spec fn valid_seam(s: Seq<u32>, w: int, h: int) -> bool {
    &&& s.len() == h
    &&& forall|r: int| 0 <= r < h ==> 0 <= #[trigger] col_of(s, w, r) < w
    &&& forall|r: int|
        0 <= r < h - 1 ==> -1 <= #[trigger] col_of(s, w, r + 1) - col_of(s, w, r) <= 1
}

/// Total energy of the first `n` offsets of `s`.
pub open spec fn path_cost(e: Seq<u32>, s: Seq<u32>, n: int) -> int
    decreases n,
{
    if n <= 0 {
        0
    } else {
        path_cost(e, s, n - 1) + e[s[n - 1] as int] as int
    }
}

/// Total energy of a seam.
pub open spec fn seam_cost(e: Seq<u32>, s: Seq<u32>) -> int {
    path_cost(e, s, s.len() as int)
}

proof fn lemma_best_in(e: Seq<u32>, w: int, r: int, lo: int, hi: int)
    requires
        lo <= hi,
    ensures
        lo <= best_in(e, w, r, lo, hi) <= hi,
        forall|k: int|
            lo <= k <= hi ==> min_cost(e, w, r, best_in(e, w, r, lo, hi)) <= #[trigger] min_cost(
                e,
                w,
                r,
                k,
            ),
        forall|k: int|
            lo <= k < best_in(e, w, r, lo, hi) ==> min_cost(e, w, r, best_in(e, w, r, lo, hi))
                < #[trigger] min_cost(e, w, r, k),
    decreases hi - lo,
{
    if hi > lo {
        lemma_best_in(e, w, r, lo, hi - 1);
    }
}

/// The cheapest predecessor of row `r`, column `c` carries exactly the
/// minimum that `min_cost` adds, and no predecessor is cheaper.
proof fn lemma_pred(e: Seq<u32>, w: int, r: int, c: int)
    requires
        r >= 1,
        0 <= c < w,
    ensures
        min_cost(e, w, r, c) == e[idx(w, r, c)] as int + min_cost(
            e,
            w,
            r - 1,
            best_in(e, w, r - 1, pred_lo(c), pred_hi(w, c)),
        ),
        forall|k: int|
            pred_lo(c) <= k <= pred_hi(w, c) ==> min_cost(e, w, r, c) <= e[idx(w, r, c)] as int
                + #[trigger] min_cost(e, w, r - 1, k),
{
    let b = best_in(e, w, r - 1, pred_lo(c), pred_hi(w, c));
    lemma_best_in(e, w, r - 1, pred_lo(c), pred_hi(w, c));
    let up = min_cost(e, w, r - 1, c);
    assert(min_cost(e, w, r - 1, b) <= up);
    if c > 0 {
        assert(min_cost(e, w, r - 1, b) <= min_cost(e, w, r - 1, c - 1));
    }
    if c < w - 1 {
        assert(min_cost(e, w, r - 1, b) <= min_cost(e, w, r - 1, c + 1));
    }
    assert(b == pred_lo(c) || b == c || b == pred_hi(w, c));
}

proof fn lemma_min_cost_bound(e: Seq<u32>, w: int, r: int, c: int)
    requires
        r >= 0,
    ensures
        0 <= min_cost(e, w, r, c) <= (r + 1) * 0xffff_ffff,
    decreases r,
{
    if r > 0 {
        lemma_min_cost_bound(e, w, r - 1, c);
        lemma_min_cost_bound(e, w, r - 1, c - 1);
        lemma_min_cost_bound(e, w, r - 1, c + 1);
        assert((r + 1) * 0xffff_ffff == r * 0xffff_ffff + 0xffff_ffff) by (nonlinear_arith);
    }
}

/// The chosen seam's columns stay inside the grid and move by at most one
/// from a row to the next.
proof fn lemma_seam_col(e: Seq<u32>, w: int, h: int, r: int)
    requires
        w >= 1,
        0 <= r < h,
    ensures
        0 <= seam_col(e, w, h, r) < w,
        r < h - 1 ==> -1 <= seam_col(e, w, h, r) - seam_col(e, w, h, r + 1) <= 1,
    decreases h - r,
{
    if r >= h - 1 {
        lemma_best_in(e, w, h - 1, 0, w - 1);
    } else {
        lemma_seam_col(e, w, h, r + 1);
        let c = seam_col(e, w, h, r + 1);
        lemma_best_in(e, w, r, pred_lo(c), pred_hi(w, c));
    }
}

proof fn lemma_seam_path_cols(e: Seq<u32>, w: int, h: int)
    requires
        w >= 1,
        h >= 1,
        w * h <= u32::MAX,
    ensures
        forall|r: int|
            0 <= r < h ==> #[trigger] col_of(seam_path(e, w, h), w, r) == seam_col(e, w, h, r),
        valid_seam(seam_path(e, w, h), w, h),
{
    let s = seam_path(e, w, h);
    assert forall|r: int| 0 <= r < h implies #[trigger] col_of(s, w, r) == seam_col(e, w, h, r)
        && 0 <= col_of(s, w, r) < w by {
        lemma_seam_col(e, w, h, r);
        lemma_idx_in_bounds(w, h, r, seam_col(e, w, h, r));
    }
    assert forall|r: int| 0 <= r < h - 1 implies -1 <= #[trigger] col_of(s, w, r + 1) - col_of(
        s,
        w,
        r,
    ) <= 1 by {
        lemma_seam_col(e, w, h, r);
        assert(col_of(s, w, r + 1) == seam_col(e, w, h, r + 1));
    }
}

/// No connected path to row `r` costs less than `min_cost` at its end.
proof fn lemma_path_lower_bound(e: Seq<u32>, s: Seq<u32>, w: int, h: int, r: int)
    requires
        valid_seam(s, w, h),
        0 <= r < h,
    ensures
        path_cost(e, s, r + 1) >= min_cost(e, w, r, col_of(s, w, r)),
    decreases r,
{
    assert(s[r] as int == idx(w, r, col_of(s, w, r)));
    assert(path_cost(e, s, r + 1) == path_cost(e, s, r) + e[s[r] as int] as int);
    if r == 0 {
        assert(path_cost(e, s, 0) == 0);
    } else {
        lemma_path_lower_bound(e, s, w, h, r - 1);
        let c = col_of(s, w, r);
        assert(0 <= c < w);
        assert(-1 <= col_of(s, w, r) - col_of(s, w, r - 1) <= 1) by {
            assert(col_of(s, w, (r - 1) + 1) == col_of(s, w, r));
        }
        lemma_pred(e, w, r, c);
        let k = col_of(s, w, r - 1);
        assert(0 <= k < w);
        assert(pred_lo(c) <= k <= pred_hi(w, c));
        assert(min_cost(e, w, r, c) <= e[idx(w, r, c)] as int + min_cost(e, w, r - 1, k));
    }
}

/// The chosen seam's cost down to row `r` is exactly `min_cost` at its column.
proof fn lemma_seam_path_cost(e: Seq<u32>, w: int, h: int, r: int)
    requires
        w >= 1,
        h >= 1,
        w * h <= u32::MAX,
        0 <= r < h,
    ensures
        path_cost(e, seam_path(e, w, h), r + 1) == min_cost(e, w, r, seam_col(e, w, h, r)),
    decreases r,
{
    lemma_seam_path_cols(e, w, h);
    let s = seam_path(e, w, h);
    assert(col_of(s, w, r) == seam_col(e, w, h, r));
    assert(s[r] as int == idx(w, r, col_of(s, w, r)));
    assert(path_cost(e, s, r + 1) == path_cost(e, s, r) + e[s[r] as int] as int);
    if r == 0 {
        assert(path_cost(e, s, 0) == 0);
    } else {
        lemma_seam_path_cost(e, w, h, r - 1);
        lemma_seam_col(e, w, h, r);
        lemma_pred(e, w, r, seam_col(e, w, h, r));
    }
}

/// The chosen seam is connected and no connected seam has a lower total energy.
pub proof fn lemma_seam_path_optimal(e: Seq<u32>, w: int, h: int)
    requires
        w >= 1,
        h >= 1,
        w * h <= u32::MAX,
    ensures
        valid_seam(seam_path(e, w, h), w, h),
        forall|s: Seq<u32>|
            valid_seam(s, w, h) ==> seam_cost(e, seam_path(e, w, h)) <= #[trigger] seam_cost(e, s),
{
    lemma_seam_path_cols(e, w, h);
    lemma_seam_path_cost(e, w, h, h - 1);
    lemma_best_in(e, w, h - 1, 0, w - 1);
    assert forall|s: Seq<u32>| valid_seam(s, w, h) implies seam_cost(e, seam_path(e, w, h))
        <= #[trigger] seam_cost(e, s) by {
        lemma_path_lower_bound(e, s, w, h, h - 1);
        assert(0 <= col_of(s, w, h - 1) < w);
    }
}

/// The table entries of row `r` hold `min_cost` for each column.
spec fn row_done(dp: Seq<u64>, e: Seq<u32>, w: int, r: int) -> bool {
    forall|c: int| 0 <= c < w ==> #[trigger] dp[idx(w, r, c)] == min_cost(e, w, r, c)
}

/// Scans columns `lo..=hi` of a finished table row and returns the leftmost
/// one with the least cost.
fn leftmost_min(dp: &Vec<u64>, Ghost(e): Ghost<Seq<u32>>, w: usize, row: Ghost<int>, base: usize, lo: usize, hi: usize) -> (b: usize)
    requires
        base as int == idx(w as int, row@, 0),
        lo <= hi < w,
        base + w <= dp@.len(),
        row_done(dp@, e, w as int, row@),
    ensures
        b as int == best_in(e, w as int, row@, lo as int, hi as int),
        lo <= b <= hi,
{
    let n = dp.len();
    let mut best: usize = lo;
    let mut k: usize = lo;
    assert(dp@[idx(w as int, row@, lo as int)] == min_cost(e, w as int, row@, lo as int));
    while k < hi
        invariant
            lo <= k <= hi,
            lo <= best <= k,
            best as int == best_in(e, w as int, row@, lo as int, k as int),
            base as int == idx(w as int, row@, 0),
            hi < w,
            base + w <= dp@.len(),
            n == dp@.len(),
            row_done(dp@, e, w as int, row@),
        decreases hi - k,
    {
        k += 1;
        assert(dp@[idx(w as int, row@, k as int)] == min_cost(e, w as int, row@, k as int));
        assert(dp@[idx(w as int, row@, best as int)] == min_cost(e, w as int, row@, best as int));
        if dp[base + k] < dp[base + best] {
            best = k;
        }
    }
    best
}

/// Finds the minimum-energy connected vertical seam of a `width` x `height`
/// energy grid, as flat offsets from the top row down. The last row's
/// cheapest column is taken, then the cheapest predecessor row by row, the
/// leftmost on ties.
pub fn find_seam(energy: &Vec<u32>, width: u32, height: u32) -> (seam: Vec<u32>)
    requires
        dims_ok(energy@.len() as int, width as int, height as int),
    ensures
        seam@ == seam_path(energy@, width as int, height as int),
        valid_seam(seam@, width as int, height as int),
        forall|s: Seq<u32>|
            valid_seam(s, width as int, height as int) ==> seam_cost(energy@, seam@)
                <= #[trigger] seam_cost(energy@, s),
{
    let ghost e = energy@;
    let ghost wi = width as int;
    let ghost hi = height as int;
    let w = width as usize;
    let h = height as usize;
    proof {
        lemma_seam_path_optimal(e, wi, hi);
    }
    let mut dp: Vec<u64> = Vec::new();
    let mut c: usize = 0;
    while c < w
        invariant
            c <= w,
            w as int == wi,
            dims_ok(e.len() as int, wi, hi),
            energy@ == e,
            dp@.len() == c,
            forall|k: int| 0 <= k < c ==> #[trigger] dp@[idx(wi, 0, k)] == min_cost(e, wi, 0, k),
        decreases w - c,
    {
        proof {
            lemma_idx_in_bounds(wi, hi, 0, c as int);
        }
        dp.push(energy[c] as u64);
        proof {
            assert forall|k: int| 0 <= k < c + 1 implies #[trigger] dp@[idx(wi, 0, k)] == min_cost(
                e,
                wi,
                0,
                k,
            ) by {
                lemma_idx_in_bounds(wi, hi, 0, k);
            }
        }
        c += 1;
    }
    let mut row: usize = 1;
    let mut base: usize = w;
    proof {
        lemma_idx_next_row(wi, 0, 0);
        lemma_idx_in_bounds(wi, hi, 0, 0);
        assert forall|k: int| 0 <= k < wi implies #[trigger] dp@[idx(wi, 0, k)] == min_cost(e, wi, 0, k) by {}
    }
    while row < h
        invariant
            1 <= row <= h,
            w as int == wi,
            h as int == hi,
            hi <= u32::MAX,
            dims_ok(e.len() as int, wi, hi),
            energy@ == e,
            base as int == idx(wi, row as int, 0),
            dp@.len() == base,
            forall|r: int| 0 <= r < row ==> row_done(dp@, e, wi, r),
        decreases h - row,
    {
        proof {
            lemma_idx_next_row(wi, row as int - 1, 0);
            lemma_idx_in_bounds(wi, hi, row as int - 1, 0);
            lemma_idx_in_bounds(wi, hi, row as int, 0);
        }
        let prev = base - w;
        let mut c: usize = 0;
        while c < w
            invariant
                c <= w,
                1 <= row < h,
                w as int == wi,
                h as int == hi,
                hi <= u32::MAX,
                dims_ok(e.len() as int, wi, hi),
                energy@ == e,
                base as int == idx(wi, row as int, 0),
                prev as int == idx(wi, row as int - 1, 0),
                prev + w == base,
                base + w <= e.len(),
                dp@.len() == base + c,
                forall|r: int| 0 <= r < row ==> row_done(dp@, e, wi, r),
                forall|k: int| 0 <= k < c ==> #[trigger] dp@[idx(wi, row as int, k)] == min_cost(e, wi, row as int, k),
            decreases w - c,
        {
            let ghost r = row as int;
            proof {
                assert(row_done(dp@, e, wi, r - 1));
                assert(dp@[idx(wi, r - 1, c as int)] == min_cost(e, wi, r - 1, c as int));
                lemma_min_cost_bound(e, wi, r - 1, c as int);
                lemma_min_cost_bound(e, wi, r - 1, c as int - 1);
                lemma_min_cost_bound(e, wi, r - 1, c as int + 1);
                lemma_min_cost_bound(e, wi, r, c as int);
                assert((r + 1) * 0xffff_ffff <= 0x1_0000_0000 * 0xffff_ffff) by (nonlinear_arith)
                    requires r + 1 <= 0x1_0000_0000;
            }
            let up = dp[prev + c];
            let mut best = up;
            if c > 0 {
                assert(dp@[idx(wi, r - 1, c - 1)] == min_cost(e, wi, r - 1, c - 1));
                let left = dp[prev + c - 1];
                best = if left <= up { left } else { up };
            }
            if c + 1 < w {
                assert(dp@[idx(wi, r - 1, c + 1)] == min_cost(e, wi, r - 1, c + 1));
                let right = dp[prev + c + 1];
                best = if best <= right { best } else { right };
            }
            let ghost old_dp = dp@;
            dp.push(energy[base + c] as u64 + best);
            proof {
                assert forall|rr: int| 0 <= rr < row implies row_done(dp@, e, wi, rr) by {
                    assert forall|k: int| 0 <= k < wi implies #[trigger] dp@[idx(wi, rr, k)] == min_cost(e, wi, rr, k) by {
                        assert(row_done(old_dp, e, wi, rr));
                        lemma_idx_in_bounds(wi, r, rr, k);
                    }
                }
            }
            c += 1;
        }
        proof {
            lemma_idx_next_row(wi, row as int, 0);
        }
        row += 1;
        base += w;
    }
    // walk back up from the last row
    let last = base - w;
    proof {
        lemma_idx_next_row(wi, hi - 1, 0);
        assert(row_done(dp@, e, wi, hi - 1));
    }
    let mut col = leftmost_min(&dp, Ghost(e), w, Ghost(hi - 1), last, 0, w - 1);
    let mut rev: Vec<u32> = Vec::new();
    proof {
        lemma_seam_col(e, wi, hi, hi - 1);
        lemma_idx_in_bounds(wi, hi, hi - 1, col as int);
    }
    rev.push((last + col) as u32);
    let mut row: usize = h - 1;
    let mut rowbase: usize = last;
    while row > 0
        invariant
            row < h,
            w as int == wi,
            h as int == hi,
            dims_ok(e.len() as int, wi, hi),
            rowbase as int == idx(wi, row as int, 0),
            col as int == seam_col(e, wi, hi, row as int),
            dp@.len() == e.len(),
            forall|r: int| 0 <= r < hi ==> row_done(dp@, e, wi, r),
            rev@.len() == hi - row,
            forall|i: int| 0 <= i < rev@.len() ==> rev@[i] as int == idx(wi, hi - 1 - i, seam_col(e, wi, hi, hi - 1 - i)),
        decreases row,
    {
        proof {
            lemma_seam_col(e, wi, hi, row as int);
            lemma_idx_next_row(wi, row as int - 1, 0);
            lemma_idx_in_bounds(wi, hi, row as int - 1, 0);
        }
        let lo = if col > 0 { col - 1 } else { col };
        let hi_c = if col + 1 < w { col + 1 } else { col };
        let prevbase = rowbase - w;
        col = leftmost_min(&dp, Ghost(e), w, Ghost(row as int - 1), prevbase, lo, hi_c);
        proof {
            lemma_idx_in_bounds(wi, hi, row as int - 1, col as int);
        }
        rev.push((prevbase + col) as u32);
        row -= 1;
        rowbase = prevbase;
    }
    let mut seam: Vec<u32> = Vec::new();
    let mut i: usize = 0;
    while i < h
        invariant
            i <= h,
            h as int == hi,
            rev@.len() == hi,
            seam@.len() == i,
            forall|j: int| 0 <= j < hi ==> rev@[j] as int == idx(wi, hi - 1 - j, seam_col(e, wi, hi, hi - 1 - j)),
            forall|j: int| 0 <= j < i ==> seam@[j] == seam_path(e, wi, hi)[j],
        decreases h - i,
    {
        seam.push(rev[h - 1 - i]);
        proof {
            assert(rev@[hi - 1 - i] as int == idx(wi, i as int, seam_col(e, wi, hi, i as int)));
        }
        i += 1;
    }
    proof {
        assert(seam@ =~= seam_path(e, wi, hi));
    }
    seam
}

} // verus!
