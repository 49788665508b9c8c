//! The clustering pass as a mathematical function of grid size, acceptance
//! threshold and generator state.

use crate::rng::fraction;
use crate::rng::next_seed;
use crate::single::scaled;
use vstd::prelude::*;

verus! {

/// An RGB colour with 8-bit channels.
#[derive(Clone, Copy, Debug, PartialEq, Eq, Structural)]
pub struct Color {
    pub r: u8,
    pub g: u8,
    pub b: u8,
}

/// A cell position: column `w`, row `h`.
#[derive(Clone, Copy, Debug, PartialEq, Eq, Structural)]
pub struct Point {
    pub w: usize,
    pub h: usize,
}

/// The four neighbours of a cell, in the order in which they are probed.
#[derive(Clone, Copy, Debug, PartialEq, Eq, Structural)]
pub enum Direction {
    Left,
    Right,
    Down,
    Up,
}

/// What a pass depends on besides the generator: the grid's size and the
/// acceptance threshold, a count of 2^-23 steps.
pub struct Lattice {
    pub width: nat,
    pub height: nat,
    pub threshold: nat,
}

/// The state that a pass carries along: one entry per cell in row-major
/// order, the generator's state word and the number of clusters begun.
pub struct Pass {
    pub cells: Seq<Option<Color>>,
    pub seed: u32,
    pub clusters: nat,
}

impl Lattice {
    /// Number of cells.
    pub open spec fn area(self) -> nat {
        self.width * self.height
    }

    /// Whether `p` names a cell of the grid.
    pub open spec fn holds(self, p: Point) -> bool {
        p.w < self.width && p.h < self.height
    }

    /// Row-major position of `p` in the cell buffer.
    pub open spec fn index(self, p: Point) -> int {
        p.h * self.width + p.w
    }

    /// The cell at row-major position `i`.
    pub open spec fn point(self, i: nat) -> Point {
        Point { w: (i % self.width) as usize, h: (i / self.width) as usize }
    }

    /// The neighbour of `p` in direction `dir`, unless that leaves the grid.
    pub open spec fn neighbor(self, p: Point, dir: Direction) -> Option<Point> {
        match dir {
            Direction::Left => if p.w > 0 {
                Some(Point { w: (p.w - 1) as usize, h: p.h })
            } else {
                None
            },
            Direction::Right => if p.w + 1 < self.width {
                Some(Point { w: (p.w + 1) as usize, h: p.h })
            } else {
                None
            },
            Direction::Down => if p.h > 0 {
                Some(Point { w: p.w, h: (p.h - 1) as usize })
            } else {
                None
            },
            Direction::Up => if p.h + 1 < self.height {
                Some(Point { w: p.w, h: (p.h + 1) as usize })
            } else {
                None
            },
        }
    }

    /// One probe from `from` towards `dir`. A neighbour inside the grid that is
    /// still unassigned costs one Bernoulli trial and is pushed if it succeeds;
    /// otherwise nothing changes and no trial is drawn.
    pub open spec fn probe(
        self,
        cells: Seq<Option<Color>>,
        work: Seq<Point>,
        seed: u32,
        from: Point,
        dir: Direction,
    ) -> (Seq<Point>, u32) {
        match self.neighbor(from, dir) {
            Some(next) => if cells[self.index(next)] is None {
                let drawn = next_seed(seed);
                if fraction(drawn) < self.threshold {
                    (work.push(next), drawn)
                } else {
                    (work, drawn)
                }
            } else {
                (work, seed)
            },
            None => (work, seed),
        }
    }

    /// The four probes from one cell: left, right, down, up.
    pub open spec fn probe_around(
        self,
        cells: Seq<Option<Color>>,
        work: Seq<Point>,
        seed: u32,
        from: Point,
    ) -> (Seq<Point>, u32) {
        let left = self.probe(cells, work, seed, from, Direction::Left);
        let right = self.probe(cells, left.0, left.1, from, Direction::Right);
        let down = self.probe(cells, right.0, right.1, from, Direction::Down);
        self.probe(cells, down.0, down.1, from, Direction::Up)
    }

    /// Flood fill with `color` from the worklist `work`, last entry first,
    /// until the worklist is empty: the cells and the generator state at the end.
    #[verifier::opaque]
    pub open spec fn fill(
        self,
        cells: Seq<Option<Color>>,
        work: Seq<Point>,
        seed: u32,
        color: Color,
    ) -> (Seq<Option<Color>>, u32)
        decreases unassigned(cells), work.len(),
    {
        if work.len() == 0 {
            (cells, seed)
        } else {
            let from = work.last();
            let rest = work.drop_last();
            let at = self.index(from);
            if 0 <= at < cells.len() && cells[at] is None {
                let painted = cells.update(at, Some(color));
                let around = self.probe_around(painted, rest, seed, from);
                proof {
                    lemma_assigning_leaves_fewer(cells, at, color);
                }
                self.fill(painted, around.0, around.1, color)
            } else {
                self.fill(cells, rest, seed, color)
            }
        }
    }

    /// The scan's step at buffer position `at`: an assigned cell is passed
    /// over; an unassigned one gets a fresh colour, seeds one flood fill and
    /// counts as one more cluster.
    pub open spec fn visited(self, pass: Pass, at: nat) -> Pass {
        if pass.cells[at as int] is Some {
            pass
        } else {
            let fresh = draw_color(pass.seed);
            let filled = self.fill(pass.cells, seq![self.point(at)], fresh.1, fresh.0);
            Pass { cells: filled.0, seed: filled.1, clusters: pass.clusters + 1 }
        }
    }

    /// The scan over the cells from position `from` on: each cell found
    /// unassigned gets a fresh colour and seeds one flood fill.
    #[verifier::opaque]
    pub open spec fn scan(self, pass: Pass, from: nat) -> Pass
        decreases self.area() - from,
    {
        if from >= self.area() {
            pass
        } else if pass.cells[from as int] is Some {
            self.scan(pass, from + 1)
        } else {
            let fresh = draw_color(pass.seed);
            let filled = self.fill(pass.cells, seq![self.point(from)], fresh.1, fresh.0);
            self.scan(
                Pass { cells: filled.0, seed: filled.1, clusters: pass.clusters + 1 },
                from + 1,
            )
        }
    }

    /// A whole pass from generator state `seed`: the buffer is cleared, then
    /// scanned from its first cell.
    pub open spec fn regenerated(self, seed: u32) -> Pass {
        self.scan(
            Pass {
                cells: Seq::new(self.area(), |i: int| None::<Color>),
                seed,
                clusters: 0,
            },
            0,
        )
    }
}

/// Number of cells that hold no colour.
pub open spec fn unassigned(cells: Seq<Option<Color>>) -> nat
    decreases cells.len(),
{
    if cells.len() == 0 {
        0
    } else {
        unassigned(cells.drop_last()) + if cells.last() is None {
            1nat
        } else {
            0nat
        }
    }
}

/// One colour channel: a draw from `0..255`, and the state after it.
pub open spec fn draw_channel(seed: u32) -> (u8, u32) {
    let drawn = next_seed(seed);
    (scaled(255, fraction(drawn)) as u8, drawn)
}

/// A colour of three successive channel draws, and the state after them.
pub open spec fn draw_color(seed: u32) -> (Color, u32) {
    let r = draw_channel(seed);
    let g = draw_channel(r.1);
    let b = draw_channel(g.1);
    (Color { r: r.0, g: g.0, b: b.0 }, b.1)
}

/// Giving a colour to an unassigned cell leaves one unassigned cell fewer.
pub proof fn lemma_assigning_leaves_fewer(cells: Seq<Option<Color>>, at: int, color: Color)
    requires
        0 <= at < cells.len(),
        cells[at] is None,
    ensures
        unassigned(cells.update(at, Some(color))) + 1 == unassigned(cells),
    decreases cells.len(),
{
    let painted = cells.update(at, Some(color));
    if at == cells.len() - 1 {
        assert(painted.drop_last() =~= cells.drop_last());
    } else {
        lemma_assigning_leaves_fewer(cells.drop_last(), at, color);
        assert(painted.drop_last() =~= cells.drop_last().update(at, Some(color)));
    }
}

/// The probes from one cell only ever append to the worklist.
pub proof fn lemma_probes_keep_prefix(
    lattice: Lattice,
    cells: Seq<Option<Color>>,
    work: Seq<Point>,
    seed: u32,
    from: Point,
)
    ensures
        lattice.probe_around(cells, work, seed, from).0.len() >= work.len(),
        forall|k: int|
            0 <= k < work.len() ==> lattice.probe_around(cells, work, seed, from).0[k] == work[k],
{
    let left = lattice.probe(cells, work, seed, from, Direction::Left);
    let right = lattice.probe(cells, left.0, left.1, from, Direction::Right);
    let down = lattice.probe(cells, right.0, right.1, from, Direction::Down);
    let up = lattice.probe(cells, down.0, down.1, from, Direction::Up);
    assert(forall|k: int| 0 <= k < work.len() ==> left.0[k] == work[k]);
    assert(forall|k: int| 0 <= k < left.0.len() ==> right.0[k] == left.0[k]);
    assert(forall|k: int| 0 <= k < right.0.len() ==> down.0[k] == right.0[k]);
    assert(forall|k: int| 0 <= k < down.0.len() ==> up.0[k] == down.0[k]);
}

/// The scan's step at an unassigned cell: a colour is drawn, the cell seeds a
/// flood fill, and one more cluster is counted.
pub proof fn lemma_scan_begins_cluster(lattice: Lattice, pass: Pass, from: nat)
    requires
        from < lattice.area(),
        pass.cells[from as int] is None,
    ensures
        lattice.scan(pass, from) == lattice.scan(
            Pass {
                cells: lattice.fill(
                    pass.cells,
                    seq![lattice.point(from)],
                    draw_color(pass.seed).1,
                    draw_color(pass.seed).0,
                ).0,
                seed: lattice.fill(
                    pass.cells,
                    seq![lattice.point(from)],
                    draw_color(pass.seed).1,
                    draw_color(pass.seed).0,
                ).1,
                clusters: pass.clusters + 1,
            },
            from + 1,
        ),
{
    reveal(Lattice::scan);
}

/// The scan's step at an assigned cell: the cell is passed over.
pub proof fn lemma_scan_passes_over(lattice: Lattice, pass: Pass, from: nat)
    requires
        from < lattice.area(),
        pass.cells[from as int] is Some,
    ensures
        lattice.scan(pass, from) == lattice.scan(pass, from + 1),
{
    reveal(Lattice::scan);
}

/// The scan ends behind the last cell.
pub proof fn lemma_scan_ends(lattice: Lattice, pass: Pass, from: nat)
    requires
        from >= lattice.area(),
    ensures
        lattice.scan(pass, from) == pass,
{
    reveal(Lattice::scan);
}

} // verus!
