use vstd::prelude::*;

use crate::algo::{carve_n, lemma_carve_n, next_seam};
use crate::grid::{idx, lemma_idx_next_row, GridView, PixelGrid};
use crate::removal::{lemma_remove_dims, remove_spec};
use crate::seam::{col_of, valid_seam};

verus! {

/// `g` with the first `n` seams of `seams` cut out, in order.
pub open spec fn replay(g: GridView, seams: Seq<Seq<u32>>, n: nat) -> GridView
    decreases n,
{
    if n == 0 {
        g
    } else {
        remove_spec(replay(g, seams, (n - 1) as nat), seams[n - 1])
    }
}

/// Rebuilding a grid from the untouched original with seams that carving
/// produced gives exactly the grid that carving itself reached after as many
/// steps; from a well-formed grid more than `n` columns wide, that grid is
/// well-formed and `n` columns narrower.
pub proof fn lemma_replay_matches_carving(g: GridView, seams: Seq<Seq<u32>>, n: nat)
    requires
        n <= seams.len(),
        forall|i: int| 0 <= i < n ==> #[trigger] seams[i] == next_seam(carve_n(g, i as nat)),
    ensures
        replay(g, seams, n) == carve_n(g, n),
        g.wf() && n < g.width ==> {
            &&& replay(g, seams, n).wf()
            &&& replay(g, seams, n).width == g.width - n
            &&& replay(g, seams, n).height == g.height
        },
    decreases n,
{
    if g.wf() && n < g.width {
        lemma_carve_n(g, n);
    }
    if n > 0 {
        lemma_replay_matches_carving(g, seams, (n - 1) as nat);
        assert(seams[n - 1] == next_seam(carve_n(g, (n - 1) as nat)));
    }
}

/// The abstract value of a seam history: the first grid's dimensions and the
/// recorded seams in order.
pub struct HistoryView {
    pub width: nat,
    pub height: nat,
    pub seams: Seq<Seq<u32>>,
}

impl HistoryView {
    /// Each seam fits the grid left by the seams before it, and at least one
    /// column always remains.
    pub open spec fn wf(self) -> bool {
        &&& self.width >= 1
        &&& self.height >= 1
        &&& self.width * self.height <= u32::MAX
        &&& self.seams.len() < self.width
        &&& forall|i: int|
            0 <= i < self.seams.len() ==> valid_seam(
                #[trigger] self.seams[i],
                self.width - i,
                self.height as int,
            )
    }
}

/// The append-only record of the seams cut from a grid, in the order they
/// were cut.
pub struct SeamHistory {
    width: u32,
    height: u32,
    seams: Vec<Vec<u32>>,
}

impl View for SeamHistory {
    type V = HistoryView;

    closed spec fn view(&self) -> HistoryView {
        HistoryView {
            width: self.width as nat,
            height: self.height as nat,
            seams: self.seams@.map_values(|s: Vec<u32>| s@),
        }
    }
}

/// Whether `seam` is a connected seam of a `width` x `height` grid.
pub fn is_valid_seam(seam: &Vec<u32>, width: u32, height: u32) -> (r: bool)
    requires
        width as int * height as int <= u32::MAX,
    ensures
        r == valid_seam(seam@, width as int, height as int),
{
    let ghost s = seam@;
    let ghost wi = width as int;
    let ghost hi = height as int;
    if seam.len() != height as usize {
        return false;
    }
    let w = width as u64;
    let mut row: usize = 0;
    let mut base: u64 = 0;
    let mut prev_col: u64 = 0;
    proof {
        assert(idx(wi, 0, 0) == 0) by (nonlinear_arith);
    }
    while row < seam.len()
        invariant
            row <= s.len(),
            s.len() == hi,
            seam@ == s,
            w as int == wi,
            w <= u32::MAX,
            hi == height as int,
            wi == width as int,
            wi * hi <= u32::MAX,
            base as int == idx(wi, row as int, 0),
            row > 0 ==> prev_col as int == col_of(s, wi, row - 1),
            forall|r: int| 0 <= r < row ==> 0 <= #[trigger] col_of(s, wi, r) < wi,
            forall|r: int| 0 <= r < row - 1 ==> -1 <= #[trigger] col_of(s, wi, r + 1) - col_of(s, wi, r) <= 1,
        decreases s.len() - row,
    {
        assert(base <= u32::MAX) by (nonlinear_arith)
            requires base as int == wi * row, row < hi, wi * hi <= u32::MAX, wi >= 0;
        let off = seam[row] as u64;
        if off < base || off >= base + w {
            assert(!(0 <= col_of(s, wi, row as int) < wi));
            return false;
        }
        let col = off - base;
        if row > 0 && (col + 1 < prev_col || col > prev_col + 1) {
            assert(!(-1 <= col_of(s, wi, (row - 1) + 1) - col_of(s, wi, row - 1) <= 1));
            return false;
        }
        proof {
            lemma_idx_next_row(wi, row as int, 0);
        }
        prev_col = col;
        row += 1;
        base += w;
    }
    true
}

impl SeamHistory {
    /// An empty history for seams cut from `original`.
    pub fn new(original: &PixelGrid) -> (h: SeamHistory)
        requires
            original@.wf(),
        ensures
            h@.wf(),
            h@.width == original@.width,
            h@.height == original@.height,
            h@.seams == Seq::<Seq<u32>>::empty(),
    {
        let h = SeamHistory { width: original.width(), height: original.height(), seams: Vec::new() };
        proof {
            assert(h@.seams =~= Seq::<Seq<u32>>::empty());
        }
        h
    }

    /// Width of the grid the seams were cut from.
    pub fn width(&self) -> (w: u32)
        ensures
            w == self@.width,
    {
        self.width
    }

    /// Height of the grid the seams were cut from.
    pub fn height(&self) -> (h: u32)
        ensures
            h == self@.height,
    {
        self.height
    }

    /// How many seams have been recorded.
    pub fn progress(&self) -> (n: usize)
        ensures
            n == self@.seams.len(),
    {
        self.seams.len()
    }

    /// Appends `seam` when it fits the grid that the recorded seams leave and
    /// at least one column would remain; otherwise leaves the history as it is.
    pub fn record(&mut self, seam: Vec<u32>) -> (r: bool)
        requires
            old(self)@.wf(),
        ensures
            final(self)@.wf(),
            r == (old(self)@.seams.len() + 1 < old(self)@.width && valid_seam(
                seam@,
                old(self)@.width - old(self)@.seams.len(),
                old(self)@.height as int,
            )),
            final(self)@.width == old(self)@.width,
            final(self)@.height == old(self)@.height,
            final(self)@.seams == if r {
                old(self)@.seams.push(seam@)
            } else {
                old(self)@.seams
            },
    {
        let n = self.seams.len();
        if n as u64 + 1 >= self.width as u64 {
            return false;
        }
        let w = self.width - n as u32;
        proof {
            assert(w as int * self.height as int <= u32::MAX) by (nonlinear_arith)
                requires w <= self.width, self.width as int * self.height as int <= u32::MAX, self.height >= 0;
        }
        if !is_valid_seam(&seam, w, self.height) {
            return false;
        }
        let ghost old_view = self@;
        self.seams.push(seam);
        proof {
            assert(self@.seams =~= old_view.seams.push(seam@));
        }
        true
    }

    /// The first `min(n, progress())` recorded seams as a history of their own.
    pub fn snapshot(&self, n: usize) -> (h: SeamHistory)
        requires
            self@.wf(),
        ensures
            h@.wf(),
            h@.width == self@.width,
            h@.height == self@.height,
            h@.seams == self@.seams.subrange(0, if n <= self@.seams.len() { n as int } else { self@.seams.len() as int }),
    {
        let count = if n <= self.seams.len() { n } else { self.seams.len() };
        let mut seams: Vec<Vec<u32>> = Vec::new();
        let mut i: usize = 0;
        while i < count
            invariant
                i <= count,
                count <= self.seams@.len(),
                seams@.len() == i,
                forall|k: int| 0 <= k < i ==> #[trigger] seams@[k]@ == self.seams@[k]@,
            decreases count - i,
        {
            let src = &self.seams[i];
            let mut copy: Vec<u32> = Vec::new();
            let mut j: usize = 0;
            while j < src.len()
                invariant
                    j <= src@.len(),
                    copy@ == src@.subrange(0, j as int),
                decreases src@.len() - j,
            {
                copy.push(src[j]);
                j += 1;
                proof {
                    assert(copy@ =~= src@.subrange(0, j as int));
                }
            }
            proof {
                assert(copy@ =~= src@);
            }
            seams.push(copy);
            i += 1;
        }
        let h = SeamHistory { width: self.width, height: self.height, seams };
        proof {
            assert(h@.seams =~= self@.seams.subrange(0, count as int));
        }
        h
    }

    /// Rebuilds the grid after the first `min(n, progress())` seams by cutting
    /// them, in order, out of a fresh copy of `original`.
    pub fn preview_at_seam_count(&self, original: &PixelGrid, n: usize) -> (g: PixelGrid)
        requires
            self@.wf(),
            original@.wf(),
            original@.width == self@.width,
            original@.height == self@.height,
        ensures
            g@ == replay(original@, self@.seams, if n <= self@.seams.len() { n as nat } else { self@.seams.len() }),
            g@.wf(),
            g@.width == original@.width - (if n <= self@.seams.len() { n as nat } else { self@.seams.len() }),
            g@.height == original@.height,
    {
        let count = if n <= self.seams.len() { n } else { self.seams.len() };
        let mut g = original.copy();
        let mut i: usize = 0;
        while i < count
            invariant
                i <= count,
                count <= self@.seams.len(),
                self@.wf(),
                original@.wf(),
                original@.width == self@.width,
                original@.height == self@.height,
                g@ == replay(original@, self@.seams, i as nat),
                g@.wf(),
                g@.width == original@.width - i,
                g@.height == original@.height,
            decreases count - i,
        {
            proof {
                assert(valid_seam(self@.seams[i as int], self@.width - i, self@.height as int));
                assert(self.seams@[i as int]@ == self@.seams[i as int]);
                lemma_remove_dims(g@, self@.seams[i as int]);
            }
            g = g.remove_seam(&self.seams[i]);
            i += 1;
        }
        g
    }

    /// The accepted result at `n` seams: the same rebuild as
    /// `preview_at_seam_count`.
    pub fn commit_at_seam_count(&self, original: &PixelGrid, n: usize) -> (g: PixelGrid)
        requires
            self@.wf(),
            original@.wf(),
            original@.width == self@.width,
            original@.height == self@.height,
        ensures
            g@ == replay(original@, self@.seams, if n <= self@.seams.len() { n as nat } else { self@.seams.len() }),
            g@.wf(),
            g@.width == original@.width - (if n <= self@.seams.len() { n as nat } else { self@.seams.len() }),
            g@.height == original@.height,
    {
        self.preview_at_seam_count(original, n)
    }
}

} // verus!
