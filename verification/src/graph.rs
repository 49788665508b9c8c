//! The percolation grid: a buffer of cells and the pass that colours them.

use crate::model::draw_color;
use crate::model::lemma_assigning_leaves_fewer;
use crate::model::lemma_probes_keep_prefix;
use crate::model::unassigned;
use crate::model::Color;
use crate::model::Direction;
use crate::model::Lattice;
use crate::model::Pass;
use crate::model::Point;
use crate::probability::Probability;
use crate::rng::SimpleRng;
use core::ops::Range;
use vstd::arithmetic::div_mod::lemma_fundamental_div_mod;
use vstd::prelude::*;

verus! {

/// What a grid is to its contracts.
pub struct GraphView {
    pub width: nat,
    pub height: nat,
    pub threshold: nat,
    pub cells: Seq<Option<Color>>,
    pub seed: u32,
    pub clusters: nat,
}

impl GraphView {
    /// The size and threshold that a pass over this grid runs with.
    pub open spec fn lattice(self) -> Lattice {
        Lattice { width: self.width, height: self.height, threshold: self.threshold }
    }

    /// The part of the state that a pass changes.
    pub open spec fn pass(self) -> Pass {
        Pass { cells: self.cells, seed: self.seed, clusters: self.clusters }
    }

    /// The grid after one full pass: size and threshold stay, the rest is
    /// what the pass leaves. What the buffer held before plays no part.
    pub open spec fn regenerated(self) -> GraphView {
        let pass = self.lattice().regenerated(self.seed);
        GraphView { cells: pass.cells, seed: pass.seed, clusters: pass.clusters, ..self }
    }
}

/// Reproducibility: two grids of one size, with one acceptance threshold and
/// one generator state, hold the same colours after a pass and leave the
/// generator in the same state, whatever they held before.
pub proof fn lemma_pass_is_reproducible(a: GraphView, b: GraphView)
    requires
        a.width == b.width,
        a.height == b.height,
        a.threshold == b.threshold,
        a.seed == b.seed,
    ensures
        a.regenerated().cells == b.regenerated().cells,
        a.regenerated().seed == b.regenerated().seed,
        a.regenerated().clusters == b.regenerated().clusters,
{
    assert(a.lattice() == b.lattice());
}

/// A grid of fixed size whose cells are unassigned or hold a colour, with the
/// acceptance probability and the random source of its passes.
#[derive(Debug)]
pub struct PercolationGraph {
    width: usize,
    height: usize,
    pixels: Vec<Option<Color>>,
    parameter: Probability,
    rng: SimpleRng,
    clusters: usize,
}

impl View for PercolationGraph {
    type V = GraphView;

    closed spec fn view(&self) -> GraphView {
        GraphView {
            width: self.width as nat,
            height: self.height as nat,
            threshold: self.parameter.threshold(),
            cells: self.pixels@,
            seed: self.rng@,
            clusters: self.clusters as nat,
        }
    }
}

/// A cell of the grid has its place in the buffer.
pub proof fn lemma_index_in_buffer(lattice: Lattice, p: Point)
    requires
        lattice.holds(p),
    ensures
        0 <= lattice.index(p) < lattice.area(),
        lattice.index(p) < (p.h + 1) * lattice.width,
        (p.h + 1) * lattice.width <= lattice.area(),
{
    assert((p.h + 1) * lattice.width <= lattice.height * lattice.width) by (nonlinear_arith)
        requires
            p.h + 1 <= lattice.height,
    ;
    assert((p.h + 1) * lattice.width == p.h * lattice.width + lattice.width)
        by (nonlinear_arith);
    assert(lattice.height * lattice.width == lattice.width * lattice.height)
        by (nonlinear_arith);
    assert(p.h * lattice.width >= 0) by (nonlinear_arith);
}

impl Color {
    /// A colour of three successive draws from `0..255`.
    pub fn random(rng: &mut SimpleRng) -> (color: Color)
        ensures
            color == draw_color(old(rng)@).0,
            final(rng)@ == draw_color(old(rng)@).1,
    {
        let r: u32 = rng.gen_range_u32(Range { start: 0, end: 255 });
        let g: u32 = rng.gen_range_u32(Range { start: 0, end: 255 });
        let b: u32 = rng.gen_range_u32(Range { start: 0, end: 255 });
        Color { r: r as u8, g: g as u8, b: b as u8 }
    }
}

impl PercolationGraph {
    /// The invariant of a grid: positive sides, one buffer entry per cell, and
    /// no more clusters than cells.
    pub open spec fn wf(&self) -> bool {
        &&& self@.width > 0
        &&& self@.height > 0
        &&& self@.cells.len() == self@.width * self@.height
        &&& self@.clusters <= self@.cells.len()
    }

    /// The sides of a grid are machine words.
    pub proof fn lemma_sides_fit(&self)
        ensures
            self@.width <= usize::MAX,
            self@.height <= usize::MAX,
    {
    }

    /// Width in cells.
    pub fn width(&self) -> (width: usize)
        ensures
            width == self@.width,
    {
        self.width
    }

    /// Height in cells.
    pub fn height(&self) -> (height: usize)
        ensures
            height == self@.height,
    {
        self.height
    }

    /// The acceptance probability of the next pass.
    pub fn parameter(&self) -> (parameter: Probability)
        ensures
            parameter.threshold() == self@.threshold,
    {
        self.parameter
    }

    /// The state word of the grid's random source.
    pub fn seed(&self) -> (seed: u32)
        ensures
            seed == self@.seed,
    {
        self.rng.seed()
    }

    /// Number of clusters that the last pass began.
    pub fn cluster_count(&self) -> (clusters: usize)
        ensures
            clusters == self@.clusters,
    {
        self.clusters
    }

    /// Sets the acceptance probability; the buffer is left as it is.
    pub fn set_parameter(&mut self, parameter: Probability)
        ensures
            final(self)@ == (GraphView { threshold: parameter.threshold(), ..old(self)@ }),
    {
        self.parameter = parameter;
    }

    /// Restarts the random source from `seed`.
    pub fn reseed(&mut self, seed: u32)
        ensures
            final(self)@ == (GraphView { seed: seed, ..old(self)@ }),
    {
        self.rng = SimpleRng::new(seed);
    }

    /// The colour of the cell in column `w` of row `h`, if it has one.
    pub fn get_color_at(&self, w: usize, h: usize) -> (color: Option<Color>)
        requires
            self.wf(),
            w < self@.width,
            h < self@.height,
        ensures
            color == self@.cells[self@.lattice().index(Point { w, h })],
    {
        let at: usize = self.offset(Point { w, h });
        self.pixels[at]
    }

    /// Row-major position of a cell of the grid in the buffer.
    pub fn offset(&self, p: Point) -> (at: usize)
        requires
            self.wf(),
            self@.lattice().holds(p),
        ensures
            at == self@.lattice().index(p),
            at < self@.cells.len(),
    {
        let length: usize = self.pixels.len();
        proof {
            lemma_index_in_buffer(self@.lattice(), p);
            assert(p.h * self.width <= (p.h + 1) * self.width) by (nonlinear_arith);
            assert(length == self@.lattice().area());
        }
        p.h * self.width + p.w
    }

    /// The whole buffer in row-major order.
    pub fn colors(&self) -> (cells: &Vec<Option<Color>>)
        ensures
            cells@ == self@.cells,
    {
        &self.pixels
    }

    /// The neighbour of `p` towards `dir`, or `None` where the grid ends: what
    /// is returned always names a cell of the grid.
    pub fn neighbor(&self, p: Point, dir: Direction) -> (next: Option<Point>)
        requires
            self@.lattice().holds(p),
        ensures
            next == self@.lattice().neighbor(p, dir),
            next is Some ==> self@.lattice().holds(next->0),
    {
        match dir {
            Direction::Left => if p.w > 0 {
                Some(Point { w: p.w - 1, h: p.h })
            } else {
                None
            },
            Direction::Right => if p.w < self.width - 1 {
                Some(Point { w: p.w + 1, h: p.h })
            } else {
                None
            },
            Direction::Down => if p.h > 0 {
                Some(Point { w: p.w, h: p.h - 1 })
            } else {
                None
            },
            Direction::Up => if p.h < self.height - 1 {
                Some(Point { w: p.w, h: p.h + 1 })
            } else {
                None
            },
        }
    }
}

impl PercolationGraph {
    /// A grid of `width` by `height` unassigned cells with acceptance
    /// probability one half. Its random source starts from `seed`, or from
    /// outside entropy where none is given.
    pub fn new(width: usize, height: usize, seed: Option<u32>) -> (graph: Self)
        requires
            width > 0,
            height > 0,
            width * height <= usize::MAX,
        ensures
            graph.wf(),
            graph@.width == width,
            graph@.height == height,
            graph@.threshold == 0x40_0000,
            graph@.cells == Seq::new((width * height) as nat, |i: int| None::<Color>),
            graph@.clusters == 0,
            seed is Some ==> graph@.seed == seed->0,
    {
        let area: usize = width * height;
        let mut pixels: Vec<Option<Color>> = Vec::new();
        let mut filled: usize = 0;
        while filled < area
            invariant
                filled <= area,
                pixels@ == Seq::new(filled as nat, |i: int| None::<Color>),
            decreases area - filled,
        {
            pixels.push(None);
            filled = filled + 1;
            assert(pixels@ =~= Seq::new(filled as nat, |i: int| None::<Color>));
        }
        let rng: SimpleRng = match seed {
            Some(word) => SimpleRng::new(word),
            None => SimpleRng::from_entropy(),
        };
        PercolationGraph {
            width,
            height,
            pixels,
            parameter: Probability::half(),
            rng,
            clusters: 0,
        }
    }

    /// Discards the colouring: every cell becomes unassigned and the cluster
    /// count returns to 0.
    pub fn redraw(&mut self)
        requires
            old(self).wf(),
        ensures
            final(self).wf(),
            final(self)@ == (GraphView {
                cells: Seq::new(old(self)@.cells.len(), |i: int| None::<Color>),
                clusters: 0,
                ..old(self)@
            }),
    {
        let length: usize = self.pixels.len();
        let mut at: usize = 0;
        while at < length
            invariant
                at <= length,
                length == self.pixels@.len(),
                self@ == (GraphView { cells: self.pixels@, ..old(self)@ }),
                forall|i: int| 0 <= i < at ==> self.pixels@[i] is None,
            decreases length - at,
        {
            self.pixels.set(at, None);
            at = at + 1;
        }
        self.clusters = 0;
        assert(self.pixels@ =~= Seq::new(old(self)@.cells.len(), |i: int| None::<Color>));
    }

    /// One probe from `from` towards `dir`: a neighbour inside the grid that is
    /// unassigned costs one Bernoulli trial and joins the worklist if it
    /// succeeds.
    pub fn probe(&mut self, work: &mut Vec<Point>, from: Point, dir: Direction)
        requires
            old(self).wf(),
            old(self)@.lattice().holds(from),
            forall|k: int| 0 <= k < old(work)@.len() ==> old(self)@.lattice().holds(old(work)@[k]),
        ensures
            final(self)@ == (GraphView { seed: final(self)@.seed, ..old(self)@ }),
            (final(work)@, final(self)@.seed) == old(self)@.lattice().probe(
                old(self)@.cells,
                old(work)@,
                old(self)@.seed,
                from,
                dir,
            ),
            forall|k: int|
                0 <= k < final(work)@.len() ==> old(self)@.lattice().holds(final(work)@[k]),
    {
        match self.neighbor(from, dir) {
            Some(next) => {
                let at: usize = self.offset(next);
                if self.pixels[at].is_none() {
                    if self.rng.gen_bool(self.parameter) {
                        work.push(next);
                    }
                }
            },
            None => {},
        }
    }
}

impl PercolationGraph {
    /// Flood fill with `color` from `start`, by an explicit worklist. Cells
    /// that had a colour keep it; `start` has one afterwards; what the fill
    /// assigns is `color`.
    pub fn fill_cluster(&mut self, start: Point, color: Color)
        requires
            old(self).wf(),
            old(self)@.lattice().holds(start),
        ensures
            final(self).wf(),
            final(self)@ == (GraphView {
                cells: final(self)@.cells,
                seed: final(self)@.seed,
                ..old(self)@
            }),
            (final(self)@.cells, final(self)@.seed) == old(self)@.lattice().fill(
                old(self)@.cells,
                seq![start],
                old(self)@.seed,
                color,
            ),
            final(self)@.cells[old(self)@.lattice().index(start)] is Some,
            forall|i: int|
                0 <= i < old(self)@.cells.len() && old(self)@.cells[i] is Some
                    ==> final(self)@.cells[i] == old(self)@.cells[i],
            forall|i: int|
                0 <= i < old(self)@.cells.len() && old(self)@.cells[i] is None
                    && final(self)@.cells[i] is Some ==> final(self)@.cells[i] == Some(color),
    {
        let ghost lattice = self@.lattice();
        let ghost before = self@;
        let mut work: Vec<Point> = Vec::new();
        work.push(start);
        assert(work@ =~= seq![start]);
        proof {
            lemma_index_in_buffer(lattice, start);
            reveal(Lattice::fill);
        }
        while work.len() > 0
            invariant
                self.wf(),
                self@ == (GraphView { cells: self@.cells, seed: self@.seed, ..before }),
                self@.cells.len() == before.cells.len(),
                lattice == before.lattice(),
                lattice.holds(start),
                0 <= lattice.index(start) < before.cells.len(),
                forall|k: int| 0 <= k < work@.len() ==> lattice.holds(work@[k]),
                lattice.fill(self@.cells, work@, self@.seed, color) == lattice.fill(
                    before.cells,
                    seq![start],
                    before.seed,
                    color,
                ),
                self@.cells[lattice.index(start)] is Some || (work@.len() > 0 && work@[0]
                    == start),
                forall|i: int|
                    0 <= i < before.cells.len() && before.cells[i] is Some ==> self@.cells[i]
                        == before.cells[i],
                forall|i: int|
                    0 <= i < before.cells.len() && before.cells[i] is None
                        && self@.cells[i] is Some ==> self@.cells[i] == Some(color),
            decreases unassigned(self@.cells), work@.len(),
        {
            proof {
                reveal(Lattice::fill);
            }
            let ghost cells = self@.cells;
            let ghost seed = self@.seed;
            let ghost whole = work@;
            let from: Point = work.pop().unwrap();
            assert(from == whole.last());
            assert(work@ =~= whole.drop_last());
            let at: usize = self.offset(from);
            if self.pixels[at].is_none() {
                self.pixels.set(at, Some(color));
                proof {
                    lemma_assigning_leaves_fewer(cells, at as int, color);
                }
                let ghost painted = self@.cells;
                let ghost rest = work@;
                self.probe(&mut work, from, Direction::Left);
                self.probe(&mut work, from, Direction::Right);
                self.probe(&mut work, from, Direction::Down);
                self.probe(&mut work, from, Direction::Up);
                assert((work@, self@.seed) == lattice.probe_around(painted, rest, seed, from));
                proof {
                    lemma_probes_keep_prefix(lattice, painted, rest, seed, from);
                }
            }
        }
    }
}

/// The cell at a position of the buffer lies in the grid, and its index is
/// that position.
pub proof fn lemma_point_of_position(lattice: Lattice, at: nat)
    requires
        at < lattice.area(),
        lattice.width <= usize::MAX,
        lattice.height <= usize::MAX,
    ensures
        lattice.holds(lattice.point(at)),
        lattice.index(lattice.point(at)) == at,
{
    let width: int = lattice.width as int;
    if width <= 0 {
        assert(lattice.width * lattice.height == 0) by (nonlinear_arith)
            requires
                lattice.width == 0,
        ;
    }
    lemma_fundamental_div_mod(at as int, width);
    let row: int = at as int / width;
    let column: int = at as int % width;
    assert(width * row == row * width) by (nonlinear_arith);
    if row >= lattice.height {
        assert(row * width >= lattice.height * width) by (nonlinear_arith)
            requires
                row >= lattice.height,
                width > 0,
        ;
        assert(lattice.height * width == lattice.width * lattice.height) by (nonlinear_arith)
            requires
                width == lattice.width,
        ;
    }
    assert(0 <= row) by (nonlinear_arith)
        requires
            at as int == width * row + column,
            0 <= column < width,
            at >= 0,
    ;
}

impl PercolationGraph {
    /// The scan's step at buffer position `at`: a cell found unassigned gets a
    /// fresh colour and seeds one flood fill; an assigned cell is passed over.
    pub fn visit(&mut self, at: usize)
        requires
            old(self).wf(),
            at < old(self)@.cells.len(),
            old(self)@.clusters <= at,
        ensures
            final(self).wf(),
            final(self)@.width == old(self)@.width,
            final(self)@.height == old(self)@.height,
            final(self)@.threshold == old(self)@.threshold,
            final(self)@.pass() == old(self)@.lattice().visited(old(self)@.pass(), at as nat),
            old(self)@.lattice().scan(old(self)@.pass(), at as nat) == old(self)@.lattice().scan(
                final(self)@.pass(),
                (at + 1) as nat,
            ),
            final(self)@.cells[at as int] is Some,
            forall|i: int|
                0 <= i < old(self)@.cells.len() && old(self)@.cells[i] is Some
                    ==> final(self)@.cells[i] == old(self)@.cells[i],
            old(self)@.clusters <= final(self)@.clusters <= at + 1,
            old(self)@.cells[at as int] is None ==> final(self)@.clusters == old(self)@.clusters
                + 1,
    {
        let length: usize = self.pixels.len();
        proof {
            lemma_point_of_position(self@.lattice(), at as nat);
            reveal(Lattice::scan);
        }
        if self.pixels[at].is_none() {
            let start: Point = Point { w: at % self.width, h: at / self.width };
            let color: Color = Color::random(&mut self.rng);
            self.fill_cluster(start, color);
            self.clusters = self.clusters + 1;
        }
    }

    /// One full pass: the buffer is cleared, then every cell found unassigned
    /// in row-major order gets a fresh colour and seeds a flood fill. Every
    /// cell holds a colour afterwards.
    pub fn regenerate(&mut self)
        requires
            old(self).wf(),
        ensures
            final(self).wf(),
            final(self)@ == old(self)@.regenerated(),
            forall|i: int| 0 <= i < final(self)@.cells.len() ==> final(self)@.cells[i] is Some,
            1 <= final(self)@.clusters,
    {
        let ghost lattice = self@.lattice();
        let ghost target = lattice.regenerated(self@.seed);
        proof {
            reveal(Lattice::scan);
        }
        self.redraw();
        let area: usize = self.pixels.len();
        let mut at: usize = 0;
        assert(lattice.area() > 0) by (nonlinear_arith)
            requires
                lattice.width > 0,
                lattice.height > 0,
        ;
        while at < area
            invariant
                self.wf(),
                lattice == self@.lattice(),
                area == lattice.area(),
                area == self@.cells.len(),
                at <= area,
                lattice.scan(self@.pass(), at as nat) == target,
                forall|i: int| 0 <= i < at ==> self@.cells[i] is Some,
                self@.clusters <= at,
                at > 0 ==> self@.clusters >= 1,
                at == 0 ==> self@.cells[0] is None,
            decreases area - at,
        {
            self.visit(at);
            at = at + 1;
        }
    }
}

} // verus!
