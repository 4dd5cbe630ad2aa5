use vstd::prelude::*;

use crate::grid::{idx, lemma_idx_div_mod, lemma_idx_in_bounds, lemma_idx_next_row, GridView, PixelGrid};

verus! {

/// Sum over the three channels of the squared channel differences.
pub open spec fn sq_dist(a: [u8; 3], b: [u8; 3]) -> int {
    let d0 = a@[0] as int - b@[0] as int;
    let d1 = a@[1] as int - b@[1] as int;
    let d2 = a@[2] as int - b@[2] as int;
    d0 * d0 + d1 * d1 + d2 * d2
}

/// Dual-gradient energy of the pixel at row `r`, column `c`. A missing
/// neighbour at the grid's edge is replaced by the pixel itself.
pub open spec fn energy_at(g: GridView, r: int, c: int) -> int {
    let left = if c == 0 { g.at(r, c) } else { g.at(r, c - 1) };
    let right = if c == g.width - 1 { g.at(r, c) } else { g.at(r, c + 1) };
    let above = if r == 0 { g.at(r, c) } else { g.at(r - 1, c) };
    let below = if r == g.height - 1 { g.at(r, c) } else { g.at(r + 1, c) };
    sq_dist(left, right) + sq_dist(above, below)
}

/// The energy grid of `g`, row-major, with the dimensions of `g`.
pub open spec fn energy_grid(g: GridView) -> Seq<u32> {
    Seq::new(
        g.pixels.len(),
        |i: int| energy_at(g, i / g.width as int, i % g.width as int) as u32,
    )
}

proof fn lemma_sq_dist_bound(a: [u8; 3], b: [u8; 3])
    ensures
        0 <= sq_dist(a, b) <= 3 * 255 * 255,
{
    let d0 = a@[0] as int - b@[0] as int;
    let d1 = a@[1] as int - b@[1] as int;
    let d2 = a@[2] as int - b@[2] as int;
    assert(0 <= d0 * d0 <= 255 * 255) by (nonlinear_arith)
        requires -255 <= d0 <= 255;
    assert(0 <= d1 * d1 <= 255 * 255) by (nonlinear_arith)
        requires -255 <= d1 <= 255;
    assert(0 <= d2 * d2 <= 255 * 255) by (nonlinear_arith)
        requires -255 <= d2 <= 255;
}

/// Every pixel's energy is a sum of squares: never negative, and small
/// enough for a `u32`.
pub proof fn lemma_energy_nonnegative(g: GridView, r: int, c: int)
    ensures
        0 <= energy_at(g, r, c) <= 6 * 255 * 255,
{
    let left = if c == 0 { g.at(r, c) } else { g.at(r, c - 1) };
    let right = if c == g.width - 1 { g.at(r, c) } else { g.at(r, c + 1) };
    let above = if r == 0 { g.at(r, c) } else { g.at(r - 1, c) };
    let below = if r == g.height - 1 { g.at(r, c) } else { g.at(r + 1, c) };
    lemma_sq_dist_bound(left, right);
    lemma_sq_dist_bound(above, below);
}

/// A grid of a single colour has zero energy everywhere.
pub proof fn lemma_uniform_energy_zero(g: GridView, p: [u8; 3])
    requires
        g.wf(),
        forall|i: int| 0 <= i < g.pixels.len() ==> #[trigger] g.pixels[i] == p,
    ensures
        forall|i: int| 0 <= i < energy_grid(g).len() ==> #[trigger] energy_grid(g)[i] == 0,
{
    let w = g.width as int;
    let h = g.height as int;
    assert forall|i: int| 0 <= i < energy_grid(g).len() implies #[trigger] energy_grid(g)[i] == 0 by {
        let r = i / w;
        let c = i % w;
        vstd::arithmetic::div_mod::lemma_fundamental_div_mod(i, w);
        assert(i == w * r + c) by (nonlinear_arith)
            requires i == w * (i / w) + i % w, r == i / w, c == i % w;
        assert(0 <= r < h) by (nonlinear_arith)
            requires i == w * r + c, 0 <= c < w, 0 <= i < w * h, w >= 1;
        lemma_idx_in_bounds(w, h, r, c);
        lemma_idx_next_row(w, r, c);
        if r > 0 {
            lemma_idx_next_row(w, r - 1, c);
            lemma_idx_in_bounds(w, h, r - 1, c);
        }
        if r < h - 1 {
            lemma_idx_in_bounds(w, h, r + 1, c);
        }
        if c > 0 {
            lemma_idx_in_bounds(w, h, r, c - 1);
        }
        if c < w - 1 {
            lemma_idx_in_bounds(w, h, r, c + 1);
        }
        assert(g.at(r, c) == p);
        assert(r > 0 ==> g.at(r - 1, c) == p);
        assert(r < h - 1 ==> g.at(r + 1, c) == p);
        assert(c > 0 ==> g.at(r, c - 1) == p);
        assert(c < w - 1 ==> g.at(r, c + 1) == p);
        assert(sq_dist(p, p) == 0);
        assert(energy_at(g, r, c) == 0);
    }
}

fn sq_dist_exec(a: [u8; 3], b: [u8; 3]) -> (d: u32)
    ensures
        d as int == sq_dist(a, b),
{
    proof {
        lemma_sq_dist_bound(a, b);
    }
    let d0 = a[0] as i32 - b[0] as i32;
    let d1 = a[1] as i32 - b[1] as i32;
    let d2 = a[2] as i32 - b[2] as i32;
    assert(d0 * d0 <= 255 * 255) by (nonlinear_arith)
        requires -255 <= d0 <= 255;
    assert(d1 * d1 <= 255 * 255) by (nonlinear_arith)
        requires -255 <= d1 <= 255;
    assert(d2 * d2 <= 255 * 255) by (nonlinear_arith)
        requires -255 <= d2 <= 255;
    (d0 * d0 + d1 * d1 + d2 * d2) as u32
}

impl PixelGrid {
    /// The dual-gradient energy of every pixel, row-major.
    pub fn calculate_energy_matrix(&self) -> (e: Vec<u32>)
        requires
            self@.wf(),
        ensures
            e@ == energy_grid(self@),
            forall|r: int, c: int|
                0 <= r < self@.height && 0 <= c < self@.width ==> #[trigger] e@[idx(
                    self@.width as int,
                    r,
                    c,
                )] as int == energy_at(self@, r, c),
    {
        let ghost g = self@;
        let ghost wi = g.width as int;
        let ghost hi = g.height as int;
        let pixels = self.pixels();
        let w = self.width() as usize;
        let h = self.height() as usize;
        let mut e: Vec<u32> = Vec::new();
        let mut row: usize = 0;
        let mut base: usize = 0;
        proof {
            assert(idx(wi, 0, 0) == 0) by (nonlinear_arith);
        }
        while row < h
            invariant
                row <= h,
                g.wf(),
                w as int == wi,
                h as int == hi,
                wi == g.width,
                hi == g.height,
                pixels@ == g.pixels,
                base as int == idx(wi, row as int, 0),
                e@.len() == base,
                forall|k: int| 0 <= k < e@.len() ==> #[trigger] e@[k] == energy_grid(g)[k],
            decreases h - row,
        {
            proof {
                lemma_idx_in_bounds(wi, hi, row as int, 0);
            }
            let mut col: usize = 0;
            while col < w
                invariant
                    row < h,
                    col <= w,
                    g.wf(),
                    w as int == wi,
                    h as int == hi,
                    wi == g.width,
                    hi == g.height,
                    pixels@ == g.pixels,
                    base as int == idx(wi, row as int, 0),
                    base + w <= pixels@.len(),
                    e@.len() == base + col,
                    forall|k: int| 0 <= k < e@.len() ==> #[trigger] e@[k] == energy_grid(g)[k],
                decreases w - col,
            {
                let ghost r = row as int;
                let ghost c = col as int;
                let i = base + col;
                proof {
                    lemma_idx_in_bounds(wi, hi, r, c);
                    if r > 0 {
                        lemma_idx_next_row(wi, r - 1, c);
                        lemma_idx_in_bounds(wi, hi, r - 1, 0);
                    }
                    if r < hi - 1 {
                        lemma_idx_next_row(wi, r, c);
                        lemma_idx_in_bounds(wi, hi, r + 1, c);
                    }
                }
                let here = pixels[i];
                let left = if col == 0 { here } else { pixels[i - 1] };
                let right = if col == w - 1 { here } else { pixels[i + 1] };
                let above = if row == 0 { here } else { pixels[i - w] };
                let below = if row == h - 1 { here } else { pixels[i + w] };
                let x_diff = sq_dist_exec(left, right);
                let y_diff = sq_dist_exec(above, below);
                proof {
                    lemma_energy_nonnegative(g, r, c);
                    lemma_idx_div_mod(wi, r, c);
                    assert(x_diff + y_diff == energy_at(g, r, c));
                }
                let ghost old_e = e@;
                e.push(x_diff + y_diff);
                proof {
                    assert forall|k: int| 0 <= k < e@.len() implies #[trigger] e@[k] == energy_grid(g)[k] by {
                        if k < old_e.len() {
                            assert(e@[k] == old_e[k]);
                        }
                    }
                }
                col += 1;
            }
            proof {
                lemma_idx_next_row(wi, row as int, 0);
            }
            row += 1;
            base += w;
        }
        proof {
            assert(e@ =~= energy_grid(g));
            assert forall|r: int, c: int| 0 <= r < hi && 0 <= c < wi implies #[trigger] e@[idx(wi, r, c)] as int == energy_at(g, r, c) by {
                lemma_idx_in_bounds(wi, hi, r, c);
                lemma_idx_div_mod(wi, r, c);
                lemma_energy_nonnegative(g, r, c);
            }
        }
        e
    }
}

} // verus!
