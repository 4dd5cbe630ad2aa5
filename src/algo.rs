use vstd::prelude::*;

use crate::energy::energy_grid;
use crate::grid::{dims_ok, CarveError, GridView, PixelGrid};
use crate::removal::{lemma_remove_dims, remove_spec};
use crate::seam::{find_seam, seam_path, valid_seam};

verus! {

/// The narrowest width down to which a session's worker carves.
pub const MIN_WIDTH: u32 = 10;

/// The seam that one carving step removes from `g`.
pub open spec fn next_seam(g: GridView) -> Seq<u32> {
    seam_path(energy_grid(g), g.width as int, g.height as int)
}

/// `g` after one carving step: its energy is measured and its cheapest seam cut out.
pub open spec fn carve_step(g: GridView) -> GridView {
    remove_spec(g, next_seam(g))
}

/// `g` after `n` carving steps.
pub open spec fn carve_n(g: GridView, n: nat) -> GridView
    decreases n,
{
    if n == 0 {
        g
    } else {
        carve_step(carve_n(g, (n - 1) as nat))
    }
}

/// A working grid that narrows by one minimum-energy seam per step.
pub struct OriginalAlgo {
    grid: PixelGrid,
}

impl View for OriginalAlgo {
    type V = GridView;

    closed spec fn view(&self) -> GridView {
        self.grid@
    }
}

impl OriginalAlgo {
    /// Starts from the row-major `pixels` of a `width` x `height` image.
    pub fn new(pixels: Vec<[u8; 3]>, width: u32, height: u32) -> (r: Result<OriginalAlgo, CarveError>)
        ensures
            match r {
                Ok(a) => {
                    &&& dims_ok(pixels@.len() as int, width as int, height as int)
                    &&& a@.wf()
                    &&& a@ == (GridView { pixels: pixels@, width: width as nat, height: height as nat })
                },
                Err(e) => {
                    &&& !dims_ok(pixels@.len() as int, width as int, height as int)
                    &&& e == CarveError::InvalidDimensions
                },
            },
    {
        match PixelGrid::new(pixels, width, height) {
            Ok(grid) => Ok(OriginalAlgo { grid }),
            Err(e) => Err(e),
        }
    }

    /// Starts from a copy of `grid`.
    pub fn from_grid(grid: &PixelGrid) -> (a: OriginalAlgo)
        requires
            grid@.wf(),
        ensures
            a@ == grid@,
            a@.wf(),
    {
        OriginalAlgo { grid: grid.copy() }
    }

    /// The working grid as it stands.
    pub fn grid(&self) -> (g: &PixelGrid)
        ensures
            g@ == self@,
    {
        &self.grid
    }

    pub fn width(&self) -> (w: u32)
        ensures
            w == self@.width,
    {
        self.grid.width()
    }

    pub fn height(&self) -> (h: u32)
        ensures
            h == self@.height,
    {
        self.grid.height()
    }

    /// Finds the working grid's minimum-energy seam, cuts it out, and returns
    /// its offsets, top row first.
    pub fn remove_vertical_seam(&mut self) -> (seam: Vec<u32>)
        requires
            old(self)@.wf(),
            old(self)@.width >= 2,
        ensures
            seam@ == next_seam(old(self)@),
            valid_seam(seam@, old(self)@.width as int, old(self)@.height as int),
            final(self)@ == carve_step(old(self)@),
            final(self)@.wf(),
            final(self)@.width == old(self)@.width - 1,
            final(self)@.height == old(self)@.height,
    {
        let energy = self.grid.calculate_energy_matrix();
        let seam = find_seam(&energy, self.grid.width(), self.grid.height());
        self.grid = self.grid.remove_seam(&seam);
        seam
    }

    /// One step of a session's worker: while the working grid is wider than
    /// `min_width` (and than one column), cuts out the next seam and returns
    /// it; otherwise leaves the grid as it is and returns `None`.
    pub fn carve_next(&mut self, min_width: u32) -> (r: Option<Vec<u32>>)
        requires
            old(self)@.wf(),
        ensures
            final(self)@.wf(),
            match r {
                Some(seam) => {
                    &&& old(self)@.width > min_width
                    &&& old(self)@.width >= 2
                    &&& seam@ == next_seam(old(self)@)
                    &&& final(self)@ == carve_step(old(self)@)
                },
                None => {
                    &&& (old(self)@.width <= min_width || old(self)@.width < 2)
                    &&& final(self)@ == old(self)@
                },
            },
    {
        let w = self.grid.width();
        if w <= min_width || w < 2 {
            None
        } else {
            Some(self.remove_vertical_seam())
        }
    }
}

/// Every carving step on a grid at least two columns wide cuts out a
/// connected seam and leaves a well-formed grid one column narrower.
pub proof fn lemma_carve_step(g: GridView)
    requires
        g.wf(),
        g.width >= 2,
    ensures
        valid_seam(next_seam(g), g.width as int, g.height as int),
        carve_step(g).wf(),
        carve_step(g).width == g.width - 1,
        carve_step(g).height == g.height,
{
    crate::seam::lemma_seam_path_optimal(energy_grid(g), g.width as int, g.height as int);
    lemma_remove_dims(g, next_seam(g));
}

/// After `n` steps on a grid more than `n` columns wide the grid is still
/// well-formed, `n` columns narrower and as tall as before.
pub proof fn lemma_carve_n(g: GridView, n: nat)
    requires
        g.wf(),
        n < g.width,
    ensures
        carve_n(g, n).wf(),
        carve_n(g, n).width == g.width - n,
        carve_n(g, n).height == g.height,
    decreases n,
{
    if n > 0 {
        lemma_carve_n(g, (n - 1) as nat);
        lemma_carve_step(carve_n(g, (n - 1) as nat));
    }
}

} // verus!
