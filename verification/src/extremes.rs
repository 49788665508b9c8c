//! The two extremes of the acceptance probability: at 0 every cell is a
//! cluster of its own, at 1 the whole grid is one cluster.

use crate::graph::lemma_index_in_buffer;
use crate::graph::lemma_point_of_position;
use crate::graph::PercolationGraph;
use crate::model::draw_color;
use crate::model::lemma_assigning_leaves_fewer;
use crate::model::lemma_scan_begins_cluster;
use crate::model::unassigned;
use crate::model::Color;
use crate::model::Direction;
use crate::model::Lattice;
use crate::model::Pass;
use crate::model::Point;
use crate::rng::fraction;
use crate::rng::next_seed;
use vstd::arithmetic::div_mod::lemma_fundamental_div_mod_converse;
use vstd::prelude::*;

verus! {

/// With acceptance probability 0 a flood fill from an unassigned cell colours
/// that cell and no other.
pub proof fn lemma_fill_without_acceptance(
    lattice: Lattice,
    cells: Seq<Option<Color>>,
    start: Point,
    seed: u32,
    color: Color,
)
    requires
        lattice.threshold == 0,
        0 <= lattice.index(start) < cells.len(),
        cells[lattice.index(start)] is None,
    ensures
        lattice.fill(cells, seq![start], seed, color).0 == cells.update(
            lattice.index(start),
            Some(color),
        ),
{
    reveal_with_fuel(Lattice::fill, 2);
    let work = seq![start];
    let rest = work.drop_last();
    assert(rest =~= Seq::<Point>::empty());
    let painted = cells.update(lattice.index(start), Some(color));
    let around = lattice.probe_around(painted, rest, seed, start);
    assert(around.0 =~= Seq::<Point>::empty());
}

/// With acceptance probability 0, a scan that finds every remaining cell
/// unassigned begins one cluster for each of them.
pub proof fn lemma_scan_without_acceptance(lattice: Lattice, pass: Pass, from: nat)
    requires
        lattice.threshold == 0,
        lattice.width <= usize::MAX,
        lattice.height <= usize::MAX,
        pass.cells.len() == lattice.area(),
        from <= lattice.area(),
        forall|j: int| from <= j < lattice.area() ==> pass.cells[j] is None,
    ensures
        lattice.scan(pass, from).clusters == pass.clusters + (lattice.area() - from),
    decreases lattice.area() - from,
{
    reveal(Lattice::scan);
    if from < lattice.area() {
        lemma_point_of_position(lattice, from);
        let fresh = draw_color(pass.seed);
        let start = lattice.point(from);
        lemma_fill_without_acceptance(lattice, pass.cells, start, fresh.1, fresh.0);
        let filled = lattice.fill(pass.cells, seq![start], fresh.1, fresh.0);
        let next = Pass { cells: filled.0, seed: filled.1, clusters: pass.clusters + 1 };
        lemma_scan_without_acceptance(lattice, next, from + 1);
    }
}

/// At acceptance probability 0 every cell becomes a cluster of its own: a
/// pass begins as many clusters as the grid has cells.
pub proof fn lemma_never_accepting_gives_singletons(graph: PercolationGraph)
    requires
        graph.wf(),
        graph@.threshold == 0,
    ensures
        graph@.regenerated().clusters == graph@.width * graph@.height,
{
    let lattice = graph@.lattice();
    let cleared = Pass {
        cells: Seq::new(lattice.area(), |i: int| None::<Color>),
        seed: graph@.seed,
        clusters: 0,
    };
    graph.lemma_sides_fit();
    lemma_scan_without_acceptance(lattice, cleared, 0);
}

/// Two cells of the grid with one buffer position are one cell.
pub proof fn lemma_index_is_injective(lattice: Lattice, p: Point, q: Point)
    requires
        lattice.holds(p),
        lattice.holds(q),
        lattice.index(p) == lattice.index(q),
    ensures
        p == q,
{
    let at: int = lattice.index(p);
    assert(p.h * lattice.width == lattice.width * p.h) by (nonlinear_arith);
    assert(q.h * lattice.width == lattice.width * q.h) by (nonlinear_arith);
    lemma_fundamental_div_mod_converse(at, lattice.width as int, p.h as int, p.w as int);
    lemma_fundamental_div_mod_converse(at, lattice.width as int, q.h as int, q.w as int);
}

/// `longer` begins with `shorter`.
pub open spec fn extends(longer: Seq<Point>, shorter: Seq<Point>) -> bool {
    &&& shorter.len() <= longer.len()
    &&& forall|k: int| 0 <= k < shorter.len() ==> longer[k] == shorter[k]
}

/// What holds of a worklist and a buffer while one colour spreads with
/// acceptance probability 1: the worklist names cells of the grid, every
/// assigned cell has the colour, every neighbour of an assigned cell is
/// assigned or waits on the worklist, and so does the first cell.
pub open spec fn spreading(
    lattice: Lattice,
    cells: Seq<Option<Color>>,
    work: Seq<Point>,
    color: Color,
) -> bool {
    &&& cells.len() == lattice.area()
    &&& forall|k: int| 0 <= k < work.len() ==> lattice.holds(#[trigger] work[k])
    &&& forall|i: int| 0 <= i < cells.len() && cells[i] is Some ==> cells[i] == Some(color)
    &&& forall|p: Point, dir: Direction|
        lattice.holds(p) && cells[lattice.index(p)] is Some && (#[trigger] lattice.neighbor(
            p,
            dir,
        )) is Some ==> cells[lattice.index(lattice.neighbor(p, dir)->0)] is Some
            || work.contains(lattice.neighbor(p, dir)->0)
    &&& cells[0] is Some || work.contains(Point { w: 0, h: 0 })
}

/// A probe with acceptance probability 1 only appends, appends cells of the
/// grid, and leaves the neighbour it looked at assigned or on the worklist.
pub proof fn lemma_probe_accepting(
    lattice: Lattice,
    cells: Seq<Option<Color>>,
    work: Seq<Point>,
    seed: u32,
    from: Point,
    dir: Direction,
)
    requires
        lattice.threshold == 0x80_0000,
        lattice.holds(from),
    ensures
        extends(lattice.probe(cells, work, seed, from, dir).0, work),
        forall|k: int|
            work.len() <= k < lattice.probe(cells, work, seed, from, dir).0.len()
                ==> lattice.holds(lattice.probe(cells, work, seed, from, dir).0[k]),
        lattice.neighbor(from, dir) is Some ==> cells[lattice.index(
            lattice.neighbor(from, dir)->0,
        )] is Some || lattice.probe(cells, work, seed, from, dir).0.contains(
            lattice.neighbor(from, dir)->0,
        ),
{
    let after = lattice.probe(cells, work, seed, from, dir).0;
    if lattice.neighbor(from, dir) is Some {
        let next = lattice.neighbor(from, dir)->0;
        assert(lattice.holds(next));
        if cells[lattice.index(next)] is None {
            assert(fraction(next_seed(seed)) < 0x80_0000);
            assert(after == work.push(next));
            assert(after[work.len() as int] == next);
        }
    }
}

/// What is on a worklist stays on every worklist that begins with it.
pub proof fn lemma_extends_keeps(longer: Seq<Point>, shorter: Seq<Point>, p: Point)
    requires
        extends(longer, shorter),
        shorter.contains(p),
    ensures
        longer.contains(p),
{
    let k = choose|k: int| 0 <= k < shorter.len() && shorter[k] == p;
    assert(longer[k] == p);
}

/// The four probes with acceptance probability 1 only append cells of the
/// grid, and leave every neighbour assigned or on the worklist.
pub proof fn lemma_probe_around_accepting(
    lattice: Lattice,
    cells: Seq<Option<Color>>,
    work: Seq<Point>,
    seed: u32,
    from: Point,
)
    requires
        lattice.threshold == 0x80_0000,
        lattice.holds(from),
    ensures
        extends(lattice.probe_around(cells, work, seed, from).0, work),
        forall|k: int|
            work.len() <= k < lattice.probe_around(cells, work, seed, from).0.len()
                ==> lattice.holds(lattice.probe_around(cells, work, seed, from).0[k]),
        forall|dir: Direction|
            (#[trigger] lattice.neighbor(from, dir)) is Some ==> cells[lattice.index(
                lattice.neighbor(from, dir)->0,
            )] is Some || lattice.probe_around(cells, work, seed, from).0.contains(
                lattice.neighbor(from, dir)->0,
            ),
{
    let left = lattice.probe(cells, work, seed, from, Direction::Left);
    let right = lattice.probe(cells, left.0, left.1, from, Direction::Right);
    let down = lattice.probe(cells, right.0, right.1, from, Direction::Down);
    let up = lattice.probe(cells, down.0, down.1, from, Direction::Up);
    lemma_probe_accepting(lattice, cells, work, seed, from, Direction::Left);
    lemma_probe_accepting(lattice, cells, left.0, left.1, from, Direction::Right);
    lemma_probe_accepting(lattice, cells, right.0, right.1, from, Direction::Down);
    lemma_probe_accepting(lattice, cells, down.0, down.1, from, Direction::Up);
    assert(extends(up.0, right.0));
    assert(extends(up.0, left.0));
    assert(extends(up.0, work));
    assert forall|dir: Direction| (#[trigger] lattice.neighbor(from, dir)) is Some implies cells[lattice.index(
        lattice.neighbor(from, dir)->0,
    )] is Some || up.0.contains(lattice.neighbor(from, dir)->0) by {
        let next = lattice.neighbor(from, dir)->0;
        if cells[lattice.index(next)] is None {
            match dir {
                Direction::Left => {
                    lemma_extends_keeps(up.0, left.0, next);
                },
                Direction::Right => {
                    lemma_extends_keeps(up.0, right.0, next);
                },
                Direction::Down => {
                    lemma_extends_keeps(up.0, down.0, next);
                },
                Direction::Up => {},
            }
        }
    }
}

/// Once the worklist is empty, the spreading colour has reached every cell:
/// the first cell is assigned, and assignment passes from each cell to its
/// right and upper neighbour.
pub proof fn lemma_spread_reaches(
    lattice: Lattice,
    cells: Seq<Option<Color>>,
    color: Color,
    at: nat,
)
    requires
        spreading(lattice, cells, Seq::<Point>::empty(), color),
        lattice.width <= usize::MAX,
        lattice.height <= usize::MAX,
        at < lattice.area(),
    ensures
        cells[at as int] == Some(color),
    decreases at,
{
    let empty = Seq::<Point>::empty();
    lemma_point_of_position(lattice, at);
    let here = lattice.point(at);
    if at == 0 {
        assert(!empty.contains(Point { w: 0, h: 0 }));
    } else if here.w > 0 {
        let before = Point { w: (here.w - 1) as usize, h: here.h };
        assert(lattice.index(before) == at - 1);
        lemma_spread_reaches(lattice, cells, color, (at - 1) as nat);
        assert(lattice.neighbor(before, Direction::Right) == Some(here));
        assert(!empty.contains(here));
    } else {
        if here.h == 0 {
            assert(here.h * lattice.width == 0) by (nonlinear_arith)
                requires
                    here.h == 0,
            ;
        }
        let below = Point { w: here.w, h: (here.h - 1) as usize };
        assert(lattice.index(below) == at - lattice.width) by (nonlinear_arith)
            requires
                lattice.index(here) == at,
                lattice.index(here) == here.h * lattice.width + here.w,
                lattice.index(below) == (here.h - 1) * lattice.width + here.w,
        ;
        assert(lattice.width > 0);
        lemma_index_in_buffer(lattice, below);
        lemma_spread_reaches(lattice, cells, color, (at - lattice.width) as nat);
        assert(lattice.neighbor(below, Direction::Up) == Some(here));
        assert(!empty.contains(here));
    }
}

/// With acceptance probability 1, a flood fill that starts from a spreading
/// state ends with every cell in the colour.
pub proof fn lemma_fill_covers(
    lattice: Lattice,
    cells: Seq<Option<Color>>,
    work: Seq<Point>,
    seed: u32,
    color: Color,
)
    requires
        lattice.threshold == 0x80_0000,
        lattice.width <= usize::MAX,
        lattice.height <= usize::MAX,
        spreading(lattice, cells, work, color),
    ensures
        lattice.fill(cells, work, seed, color).0.len() == lattice.area(),
        forall|i: int|
            0 <= i < lattice.area() ==> lattice.fill(cells, work, seed, color).0[i] == Some(
                color,
            ),
    decreases unassigned(cells), work.len(),
{
    reveal(Lattice::fill);
    if work.len() == 0 {
        assert(work =~= Seq::<Point>::empty());
        assert forall|i: int| 0 <= i < lattice.area() implies cells[i] == Some(color) by {
            lemma_spread_reaches(lattice, cells, color, i as nat);
        }
    } else {
        let from = work.last();
        let rest = work.drop_last();
        let at = lattice.index(from);
        assert(lattice.holds(work[work.len() - 1]));
        lemma_index_in_buffer(lattice, from);
        if cells[at] is None {
            let painted = cells.update(at, Some(color));
            let around = lattice.probe_around(painted, rest, seed, from);
            lemma_assigning_leaves_fewer(cells, at, color);
            lemma_probe_around_accepting(lattice, painted, rest, seed, from);
            assert forall|k: int| 0 <= k < around.0.len() implies lattice.holds(
                #[trigger] around.0[k],
            ) by {
                if k < rest.len() {
                    assert(around.0[k] == rest[k]);
                    assert(rest[k] == work[k]);
                }
            }
            assert forall|p: Point, dir: Direction|
                lattice.holds(p) && painted[lattice.index(p)] is Some && (
                #[trigger] lattice.neighbor(p, dir)) is Some implies painted[lattice.index(
                lattice.neighbor(p, dir)->0,
            )] is Some || around.0.contains(lattice.neighbor(p, dir)->0) by {
                let next = lattice.neighbor(p, dir)->0;
                lemma_index_in_buffer(lattice, p);
                assert(lattice.holds(next));
                lemma_index_in_buffer(lattice, next);
                if lattice.index(p) == at {
                    lemma_index_is_injective(lattice, p, from);
                    assert(lattice.neighbor(from, dir) is Some);
                } else {
                    assert(cells[lattice.index(p)] is Some);
                    if cells[lattice.index(next)] is None {
                        assert(work.contains(next));
                        lemma_waiting_or_taken(lattice, painted, work, around.0, next);
                    }
                }
            }
            if cells[0] is None {
                lemma_waiting_or_taken(
                    lattice,
                    painted,
                    work,
                    around.0,
                    Point { w: 0, h: 0 },
                );
                assert(lattice.index(Point { w: 0, h: 0 }) == 0) by (nonlinear_arith)
                    requires
                        lattice.index(Point { w: 0, h: 0 }) == 0 * lattice.width + 0,
                ;
            }
            lemma_fill_covers(lattice, painted, around.0, around.1, color);
        } else {
            assert forall|p: Point, dir: Direction|
                lattice.holds(p) && cells[lattice.index(p)] is Some && (
                #[trigger] lattice.neighbor(p, dir)) is Some implies cells[lattice.index(
                lattice.neighbor(p, dir)->0,
            )] is Some || rest.contains(lattice.neighbor(p, dir)->0) by {
                let next = lattice.neighbor(p, dir)->0;
                if cells[lattice.index(next)] is None {
                    assert(work.contains(next));
                    lemma_waiting_or_taken(lattice, cells, work, rest, next);
                }
            }
            if cells[0] is None {
                lemma_waiting_or_taken(lattice, cells, work, rest, Point { w: 0, h: 0 });
                assert(lattice.index(Point { w: 0, h: 0 }) == 0) by (nonlinear_arith)
                    requires
                        lattice.index(Point { w: 0, h: 0 }) == 0 * lattice.width + 0,
                ;
            }
            lemma_fill_covers(lattice, cells, rest, seed, color);
        }
    }
}

/// A cell that waited on a worklist is, once the last entry has been taken
/// and found or made assigned, either that entry or still waiting.
pub proof fn lemma_waiting_or_taken(
    lattice: Lattice,
    cells: Seq<Option<Color>>,
    work: Seq<Point>,
    after: Seq<Point>,
    p: Point,
)
    requires
        work.len() > 0,
        extends(after, work.drop_last()),
        work.contains(p),
        cells[lattice.index(work.last())] is Some,
    ensures
        cells[lattice.index(p)] is Some || after.contains(p),
{
    let k = choose|k: int| 0 <= k < work.len() && work[k] == p;
    if k < work.len() - 1 {
        assert(work.drop_last()[k] == p);
        assert(after[k] == p);
    }
}

/// A scan over a buffer without unassigned cells changes nothing.
pub proof fn lemma_scan_over_assigned(lattice: Lattice, pass: Pass, from: nat)
    requires
        pass.cells.len() == lattice.area(),
        forall|i: int| 0 <= i < lattice.area() ==> pass.cells[i] is Some,
    ensures
        lattice.scan(pass, from) == pass,
    decreases lattice.area() - from,
{
    reveal(Lattice::scan);
    if from < lattice.area() {
        lemma_scan_over_assigned(lattice, pass, from + 1);
    }
}

/// An empty buffer with the first cell on the worklist is a spreading state.
pub proof fn lemma_spreading_starts(lattice: Lattice, color: Color)
    requires
        lattice.width > 0,
        lattice.height > 0,
    ensures
        spreading(
            lattice,
            Seq::new(lattice.area(), |i: int| None::<Color>),
            seq![Point { w: 0, h: 0 }],
            color,
        ),
{
    let origin = Point { w: 0, h: 0 };
    let cells = Seq::new(lattice.area(), |i: int| None::<Color>);
    let work = seq![origin];
    assert(work[0] == origin);
    assert(work.contains(origin));
    assert forall|p: Point, dir: Direction|
        lattice.holds(p) && cells[lattice.index(p)] is Some && (#[trigger] lattice.neighbor(
            p,
            dir,
        )) is Some implies cells[lattice.index(lattice.neighbor(p, dir)->0)] is Some
        || work.contains(lattice.neighbor(p, dir)->0) by {
        lemma_index_in_buffer(lattice, p);
    }
}

/// A pass with acceptance probability 1 begins exactly one cluster and gives
/// every cell the first colour drawn.
pub proof fn lemma_accepting_pass(lattice: Lattice, seed: u32)
    requires
        lattice.threshold == 0x80_0000,
        0 < lattice.width <= usize::MAX,
        0 < lattice.height <= usize::MAX,
    ensures
        lattice.regenerated(seed).clusters == 1,
        lattice.regenerated(seed).cells.len() == lattice.area(),
        forall|i: int|
            0 <= i < lattice.area() ==> lattice.regenerated(seed).cells[i] == Some(
                draw_color(seed).0,
            ),
{
    let cleared = Pass {
        cells: Seq::new(lattice.area(), |i: int| None::<Color>),
        seed,
        clusters: 0,
    };
    assert(lattice.area() > 0) by (nonlinear_arith)
        requires
            lattice.area() == lattice.width * lattice.height,
            lattice.width > 0,
            lattice.height > 0,
    ;
    let fresh = draw_color(seed);
    let origin = Point { w: 0, h: 0 };
    assert(lattice.point(0) == origin);
    lemma_spreading_starts(lattice, fresh.0);
    lemma_fill_covers(lattice, cleared.cells, seq![origin], fresh.1, fresh.0);
    let filled = lattice.fill(cleared.cells, seq![origin], fresh.1, fresh.0);
    let next = Pass { cells: filled.0, seed: filled.1, clusters: 1 };
    lemma_scan_begins_cluster(lattice, cleared, 0);
    lemma_scan_over_assigned(lattice, next, 1);
}

/// At acceptance probability 1 the whole grid is one cluster: a pass begins
/// exactly one, and every cell holds the first colour drawn.
pub proof fn lemma_always_accepting_gives_one_cluster(graph: PercolationGraph)
    requires
        graph.wf(),
        graph@.threshold == 0x80_0000,
    ensures
        graph@.regenerated().clusters == 1,
        graph@.regenerated().cells.len() == graph@.width * graph@.height,
        forall|i: int|
            0 <= i < graph@.width * graph@.height ==> graph@.regenerated().cells[i] == Some(
                draw_color(graph@.seed).0,
            ),
{
    graph.lemma_sides_fit();
    lemma_accepting_pass(graph@.lattice(), graph@.seed);
}

} // verus!
