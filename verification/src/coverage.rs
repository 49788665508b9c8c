//! Every pass colours every cell, and no cell that holds a colour loses or
//! changes it while a cluster is filled.

use crate::graph::lemma_point_of_position;
use crate::graph::PercolationGraph;
use crate::model::draw_color;
use crate::model::lemma_assigning_leaves_fewer;
use crate::model::lemma_probes_keep_prefix;
use crate::model::lemma_scan_begins_cluster;
use crate::model::lemma_scan_ends;
use crate::model::lemma_scan_passes_over;
use crate::model::unassigned;
use crate::model::Color;
use crate::model::Lattice;
use crate::model::Pass;
use crate::model::Point;
use vstd::prelude::*;

verus! {

/// What a flood fill does to the buffer: its length stays, assigned cells
/// keep their colour, newly assigned cells get the fill's colour, and every
/// cell that was on the worklist is assigned at the end.
pub proof fn lemma_fill_keeps_and_reaches(
    lattice: Lattice,
    cells: Seq<Option<Color>>,
    work: Seq<Point>,
    seed: u32,
    color: Color,
)
    ensures
        lattice.fill(cells, work, seed, color).0.len() == cells.len(),
        forall|i: int|
            0 <= i < cells.len() && cells[i] is Some ==> lattice.fill(
                cells,
                work,
                seed,
                color,
            ).0[i] == cells[i],
        forall|i: int|
            0 <= i < cells.len() && cells[i] is None && lattice.fill(cells, work, seed, color).0[i]
                is Some ==> lattice.fill(cells, work, seed, color).0[i] == Some(color),
        forall|k: int|
            0 <= k < work.len() && 0 <= lattice.index(work[k]) < cells.len() ==> lattice.fill(
                cells,
                work,
                seed,
                color,
            ).0[lattice.index(work[k])] is Some,
    decreases unassigned(cells), work.len(),
{
    reveal(Lattice::fill);
    if work.len() > 0 {
        let from = work.last();
        let rest = work.drop_last();
        let at = lattice.index(from);
        if 0 <= at < cells.len() && cells[at] is None {
            let painted = cells.update(at, Some(color));
            let around = lattice.probe_around(painted, rest, seed, from);
            lemma_assigning_leaves_fewer(cells, at, color);
            lemma_probes_keep_prefix(lattice, painted, rest, seed, from);
            lemma_fill_keeps_and_reaches(lattice, painted, around.0, around.1, color);
            let end = lattice.fill(painted, around.0, around.1, color).0;
            assert(end[at] == painted[at]);
            assert forall|k: int|
                0 <= k < work.len() && 0 <= lattice.index(work[k]) < cells.len() implies end[lattice.index(
                work[k],
            )] is Some by {
                if k < rest.len() {
                    assert(around.0[k] == rest[k]);
                }
            }
        } else {
            lemma_fill_keeps_and_reaches(lattice, cells, rest, seed, color);
            let end = lattice.fill(cells, rest, seed, color).0;
            assert forall|k: int|
                0 <= k < work.len() && 0 <= lattice.index(work[k]) < cells.len() implies end[lattice.index(
                work[k],
            )] is Some by {
                if k < rest.len() {
                    assert(rest[k] == work[k]);
                }
            }
        }
    }
}

/// A scan that has left no unassigned cell behind it leaves none at all, and
/// begins at most one cluster for each cell it passes.
pub proof fn lemma_scan_covers(lattice: Lattice, pass: Pass, from: nat)
    requires
        lattice.width <= usize::MAX,
        lattice.height <= usize::MAX,
        pass.cells.len() == lattice.area(),
        from <= lattice.area(),
        forall|i: int| 0 <= i < from ==> pass.cells[i] is Some,
    ensures
        lattice.scan(pass, from).cells.len() == lattice.area(),
        forall|i: int| 0 <= i < lattice.area() ==> lattice.scan(pass, from).cells[i] is Some,
        pass.clusters <= lattice.scan(pass, from).clusters <= pass.clusters + (lattice.area()
            - from),
    decreases lattice.area() - from,
{
    if from < lattice.area() {
        if pass.cells[from as int] is Some {
            lemma_scan_passes_over(lattice, pass, from);
            lemma_scan_covers(lattice, pass, from + 1);
        } else {
            lemma_point_of_position(lattice, from);
            let fresh = draw_color(pass.seed);
            let start = lattice.point(from);
            let work = seq![start];
            assert(work[0] == start);
            lemma_fill_keeps_and_reaches(lattice, pass.cells, work, fresh.1, fresh.0);
            let filled = lattice.fill(pass.cells, work, fresh.1, fresh.0);
            let next = Pass { cells: filled.0, seed: filled.1, clusters: pass.clusters + 1 };
            assert(filled.0[lattice.index(work[0])] is Some);
            assert forall|i: int| 0 <= i < from + 1 implies next.cells[i] is Some by {
                if i < from {
                    assert(pass.cells[i] is Some);
                    assert(filled.0[i] == pass.cells[i]);
                }
            }
            lemma_scan_begins_cluster(lattice, pass, from);
            lemma_scan_covers(lattice, next, from + 1);
        }
    } else {
        lemma_scan_ends(lattice, pass, from);
    }
}

/// Total coverage: after a pass every cell of the grid holds a colour, and
/// the pass has begun at least one cluster and at most one for each cell.
pub proof fn lemma_pass_covers_every_cell(graph: PercolationGraph)
    requires
        graph.wf(),
    ensures
        graph@.regenerated().cells.len() == graph@.width * graph@.height,
        forall|i: int|
            0 <= i < graph@.width * graph@.height ==> graph@.regenerated().cells[i] is Some,
        graph@.regenerated().clusters <= graph@.width * graph@.height,
{
    let lattice = graph@.lattice();
    graph.lemma_sides_fit();
    let cleared = Pass {
        cells: Seq::new(lattice.area(), |i: int| None::<Color>),
        seed: graph@.seed,
        clusters: 0,
    };
    lemma_scan_covers(lattice, cleared, 0);
}

} // verus!
