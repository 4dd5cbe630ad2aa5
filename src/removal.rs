use vstd::prelude::*;

use crate::grid::{dims_ok, idx, lemma_idx_div_mod, lemma_idx_in_bounds, lemma_idx_next_row, GridView, PixelGrid};
use crate::seam::{col_of, valid_seam};

verus! {

/// The grid left when the pixels that `seam` names are cut out of `g`: one
/// column narrower, each row keeping its other pixels in their order.
pub open spec fn remove_spec(g: GridView, seam: Seq<u32>) -> GridView {
    let w = g.width as int;
    let nw = w - 1;
    GridView {
        pixels: Seq::new(
            (nw * g.height) as nat,
            |j: int|
                {
                    let r = j / nw;
                    let c = j % nw;
                    if c < col_of(seam, w, r) {
                        g.at(r, c)
                    } else {
                        g.at(r, c + 1)
                    }
                },
        ),
        width: nw as nat,
        height: g.height,
    }
}

/// Cutting a seam out leaves a well-formed grid one column narrower, as tall
/// as before, with exactly one pixel fewer per row.
pub proof fn lemma_remove_dims(g: GridView, seam: Seq<u32>)
    requires
        g.wf(),
        g.width >= 2,
        valid_seam(seam, g.width as int, g.height as int),
    ensures
        remove_spec(g, seam).wf(),
        remove_spec(g, seam).width == g.width - 1,
        remove_spec(g, seam).height == g.height,
        remove_spec(g, seam).pixels.len() == g.pixels.len() - g.height,
{
    let w = g.width as int;
    let h = g.height as int;
    assert((w - 1) * h == w * h - h) by (nonlinear_arith);
    assert((w - 1) * h >= 1) by (nonlinear_arith)
        requires w >= 2, h >= 1;
}

impl PixelGrid {
    /// Cuts the pixels that `seam` names out of this grid, keeping every
    /// other pixel in its order.
    pub fn remove_seam(&self, seam: &Vec<u32>) -> (r: PixelGrid)
        requires
            self@.wf(),
            self@.width >= 2,
            valid_seam(seam@, self@.width as int, self@.height as int),
        ensures
            r@ == remove_spec(self@, seam@),
            r@.wf(),
            r@.width == self@.width - 1,
            r@.height == self@.height,
            r@.pixels.len() == self@.pixels.len() - self@.height,
    {
        let ghost g = self@;
        let ghost wi = g.width as int;
        let ghost hi = g.height as int;
        let ghost target = remove_spec(g, seam@);
        proof {
            lemma_remove_dims(g, seam@);
        }
        let pixels = self.pixels();
        let w = self.width() as usize;
        let h = self.height() as usize;
        let mut out: Vec<[u8; 3]> = Vec::new();
        let mut row: usize = 0;
        let mut base: usize = 0;
        proof {
            assert(idx(wi, 0, 0) == 0) by (nonlinear_arith);
            assert(idx(wi - 1, 0, 0) == 0) by (nonlinear_arith);
        }
        while row < h
            invariant
                row <= h,
                g.wf(),
                wi >= 2,
                w as int == wi,
                h as int == hi,
                wi == g.width,
                hi == g.height,
                pixels@ == g.pixels,
                seam@.len() == hi,
                valid_seam(seam@, wi, hi),
                target == remove_spec(g, seam@),
                target.pixels.len() == (wi - 1) * hi,
                base as int == idx(wi, row as int, 0),
                out@.len() == idx(wi - 1, row as int, 0),
                forall|k: int| 0 <= k < out@.len() ==> #[trigger] out@[k] == target.pixels[k],
            decreases h - row,
        {
            let ghost r = row as int;
            proof {
                lemma_idx_in_bounds(wi, hi, r, 0);
                lemma_idx_in_bounds(wi - 1, hi, r, 0);
                assert(0 <= col_of(seam@, wi, r) < wi);
            }
            let cut = (seam[row] as usize) - base;
            let mut col: usize = 0;
            while col < w
                invariant
                    row < h,
                    r == row as int,
                    col <= w,
                    g.wf(),
                    wi >= 2,
                    w as int == wi,
                    h as int == hi,
                    wi == g.width,
                    hi == g.height,
                    pixels@ == g.pixels,
                    target == remove_spec(g, seam@),
                    target.pixels.len() == (wi - 1) * hi,
                    base as int == idx(wi, r, 0),
                    base + w <= pixels@.len(),
                    cut as int == col_of(seam@, wi, r),
                    cut < w,
                    out@.len() == idx(wi - 1, r, 0) + (if col <= cut { col as int } else { col - 1 }),
                    forall|k: int| 0 <= k < out@.len() ==> #[trigger] out@[k] == target.pixels[k],
                decreases w - col,
            {
                if col != cut {
                    let ghost c = if col < cut { col as int } else { col - 1 };
                    proof {
                        lemma_idx_in_bounds(wi - 1, hi, r, c);
                        lemma_idx_div_mod(wi - 1, r, c);
                        lemma_idx_in_bounds(wi, hi, r, col as int);
                        assert(out@.len() == idx(wi - 1, r, c));
                        assert(target.pixels[idx(wi - 1, r, c)] == g.at(r, col as int));
                    }
                    let ghost old_out = out@;
                    out.push(pixels[base + col]);
                    proof {
                        assert forall|k: int| 0 <= k < out@.len() implies #[trigger] out@[k] == target.pixels[k] by {
                            if k < old_out.len() {
                                assert(out@[k] == old_out[k]);
                            }
                        }
                    }
                }
                col += 1;
            }
            proof {
                lemma_idx_next_row(wi, r, 0);
                lemma_idx_next_row(wi - 1, r, 0);
            }
            row += 1;
            base += w;
        }
        proof {
            assert(out@ =~= target.pixels);
            assert(dims_ok(out@.len() as int, wi - 1, hi));
        }
        PixelGrid::from_parts(out, self.width() - 1, self.height())
    }
}

} // verus!
