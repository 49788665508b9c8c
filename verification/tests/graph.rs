use percolation::graph::PercolationGraph;
use percolation::model::Color;
use percolation::model::Direction;
use percolation::model::Point;
use percolation::probability::Probability;
use percolation::rng::SimpleRng;

fn rgb(r: u8, g: u8, b: u8) -> Option<Color> {
    Some(Color { r, g, b })
}

fn threshold(t: u32) -> Probability {
    Probability::from_threshold(t).unwrap()
}

fn pass(width: usize, height: usize, seed: u32, t: u32) -> PercolationGraph {
    let mut graph = PercolationGraph::new(width, height, Some(seed));
    graph.set_parameter(threshold(t));
    graph.regenerate();
    graph
}

fn largest_cluster(graph: &PercolationGraph) -> usize {
    let cells = graph.colors();
    let mut best = 0;
    for (i, cell) in cells.iter().enumerate() {
        if cells[..i].contains(cell) {
            continue;
        }
        let size = cells.iter().filter(|other| *other == cell).count();
        if size > best {
            best = size;
        }
    }
    best
}

#[test]
fn new_grid_is_unassigned() {
    let graph = PercolationGraph::new(4, 3, Some(5));
    assert_eq!(graph.width(), 4);
    assert_eq!(graph.height(), 3);
    assert_eq!(graph.seed(), 5);
    assert_eq!(graph.cluster_count(), 0);
    assert_eq!(graph.parameter().get_threshold(), 0x40_0000);
    assert_eq!(graph.colors().len(), 12);
    assert!(graph.colors().iter().all(|cell| cell.is_none()));
    assert_eq!(graph.get_color_at(3, 2), None);
}

#[test]
fn new_grid_without_seed_still_covers() {
    let mut graph = PercolationGraph::new(6, 5, None);
    graph.regenerate();
    assert!(graph.colors().iter().all(|cell| cell.is_some()));
}

#[test]
fn regenerate_covers_every_cell() {
    for (width, height) in [(1usize, 1usize), (1, 9), (9, 1), (5, 3), (16, 16), (64, 37)] {
        for t in [0u32, 1, 0x20_0000, 0x40_0000, 0x60_0000, 0x7f_ffff, 0x80_0000] {
            let graph = pass(width, height, 0x9e37_79b9 ^ t, t);
            assert_eq!(graph.colors().len(), width * height);
            assert!(graph.colors().iter().all(|cell| cell.is_some()));
            assert!(graph.cluster_count() >= 1);
            assert!(graph.cluster_count() <= width * height);
            for h in 0..height {
                for w in 0..width {
                    assert_eq!(graph.get_color_at(w, h), graph.colors()[h * width + w]);
                }
            }
        }
    }
}

#[test]
fn regenerate_has_exact_buffer_at_one_half() {
    let graph = pass(4, 3, 0x9e37_79b9, 0x40_0000);
    let a = rgb(42, 212, 44);
    let b = rgb(188, 176, 117);
    let c = rgb(175, 112, 53);
    let d = rgb(218, 72, 109);
    let e = rgb(36, 184, 157);
    let expected = vec![a, b, b, c, a, c, c, c, d, c, e, c];
    assert_eq!(graph.colors(), &expected);
    assert_eq!(graph.cluster_count(), 5);
    assert_eq!(graph.seed(), 0x4b4f_4919);
}

#[test]
fn regenerate_has_exact_buffer_on_a_larger_grid() {
    let graph = pass(6, 4, 0x1234_5678, 0x50_0000);
    let a = rgb(11, 56, 28);
    let b = rgb(176, 119, 88);
    let c = rgb(175, 112, 53);
    let d = rgb(68, 87, 181);
    let expected = vec![
        a, a, b, c, c, c, a, a, a, a, a, a, a, a, a, a, a, a, d, a, a, a, a, a,
    ];
    assert_eq!(graph.colors(), &expected);
    assert_eq!(graph.cluster_count(), 4);
    assert_eq!(graph.seed(), 0x4fdb_030e);
}

#[test]
fn regenerate_on_single_cell_and_single_row() {
    let one = pass(1, 1, 0xabcd_ef01, 0x40_0000);
    assert_eq!(one.colors(), &vec![rgb(11, 56, 27)]);
    assert_eq!(one.cluster_count(), 1);
    assert_eq!(one.seed(), 0xe38d_b39c);
    let row = pass(7, 1, 0x0bad_f00d, 0x60_0000);
    assert_eq!(row.colors(), &vec![rgb(202, 247, 219); 7]);
    assert_eq!(row.cluster_count(), 1);
    assert_eq!(row.seed(), 0x165a_917a);
}

#[test]
fn probability_zero_gives_singleton_clusters() {
    let graph = pass(5, 3, 0xc0ff_ee11, 0);
    assert_eq!(graph.cluster_count(), 15);
    let expected = vec![
        rgb(254, 251, 237),
        rgb(114, 62, 57),
        rgb(81, 150, 242),
        rgb(243, 199, 234),
        rgb(190, 185, 163),
        rgb(0, 4, 22),
        rgb(52, 6, 32),
        rgb(176, 116, 73),
        rgb(13, 69, 91),
        rgb(5, 25, 125),
        rgb(85, 171, 90),
        rgb(216, 61, 50),
        rgb(253, 245, 208),
        rgb(119, 86, 175),
        rgb(52, 9, 49),
    ];
    assert_eq!(graph.colors(), &expected);
    assert_eq!(graph.seed(), 0xca18_da2c);
}

#[test]
fn probability_one_gives_one_cluster() {
    let graph = pass(5, 3, 0xc0ff_ee11, 0x80_0000);
    assert_eq!(graph.cluster_count(), 1);
    assert_eq!(graph.colors(), &vec![rgb(254, 251, 237); 15]);
    assert_eq!(graph.seed(), 0x4600_757e);
    let large = pass(40, 25, 77, 0x80_0000);
    assert_eq!(large.cluster_count(), 1);
    let first = large.get_color_at(0, 0);
    assert!(large.colors().iter().all(|cell| *cell == first));
}

#[test]
fn extremes_on_other_sizes() {
    for (width, height) in [(1usize, 1usize), (2, 2), (3, 7), (12, 5)] {
        let never = pass(width, height, 31_337, 0);
        assert_eq!(never.cluster_count(), width * height);
        let always = pass(width, height, 31_337, 0x80_0000);
        assert_eq!(always.cluster_count(), 1);
    }
}

#[test]
fn passes_are_reproducible() {
    for t in [0u32, 0x30_0000, 0x40_0000, 0x4b_de00, 0x80_0000] {
        let first = pass(23, 17, 0xfeed_beef, t);
        let second = pass(23, 17, 0xfeed_beef, t);
        assert_eq!(first.colors(), second.colors());
        assert_eq!(first.seed(), second.seed());
        assert_eq!(first.cluster_count(), second.cluster_count());
    }
}

#[test]
fn earlier_contents_do_not_matter() {
    let mut used = PercolationGraph::new(9, 9, Some(1));
    used.regenerate();
    used.regenerate();
    used.set_parameter(threshold(0x38_0000));
    used.reseed(0x0dd_ba11);
    used.regenerate();
    let fresh = pass(9, 9, 0x0dd_ba11, 0x38_0000);
    assert_eq!(used.colors(), fresh.colors());
    assert_eq!(used.seed(), fresh.seed());
}

#[test]
fn successive_passes_continue_the_generator() {
    let mut graph = PercolationGraph::new(8, 8, Some(2));
    graph.regenerate();
    let after_first = graph.seed();
    let first = graph.colors().clone();
    graph.regenerate();
    let continued = pass(8, 8, after_first, 0x40_0000);
    assert_eq!(graph.colors(), continued.colors());
    assert_ne!(graph.colors(), &first);
}

#[test]
fn redraw_clears_the_buffer() {
    let mut graph = pass(5, 4, 10, 0x40_0000);
    let seed = graph.seed();
    graph.redraw();
    assert!(graph.colors().iter().all(|cell| cell.is_none()));
    assert_eq!(graph.cluster_count(), 0);
    assert_eq!(graph.seed(), seed);
    assert_eq!(graph.width(), 5);
    assert_eq!(graph.height(), 4);
}

#[test]
fn set_parameter_keeps_the_buffer() {
    let mut graph = pass(5, 4, 10, 0x40_0000);
    let before = graph.colors().clone();
    graph.set_parameter(Probability::always());
    assert_eq!(graph.parameter().get_threshold(), 0x80_0000);
    assert_eq!(graph.colors(), &before);
}

#[test]
fn neighbor_stops_at_the_edges() {
    let graph = PercolationGraph::new(3, 2, Some(0));
    let corner = Point { w: 0, h: 0 };
    assert_eq!(graph.neighbor(corner, Direction::Left), None);
    assert_eq!(graph.neighbor(corner, Direction::Down), None);
    assert_eq!(graph.neighbor(corner, Direction::Right), Some(Point { w: 1, h: 0 }));
    assert_eq!(graph.neighbor(corner, Direction::Up), Some(Point { w: 0, h: 1 }));
    let far = Point { w: 2, h: 1 };
    assert_eq!(graph.neighbor(far, Direction::Right), None);
    assert_eq!(graph.neighbor(far, Direction::Up), None);
    assert_eq!(graph.neighbor(far, Direction::Left), Some(Point { w: 1, h: 1 }));
    assert_eq!(graph.neighbor(far, Direction::Down), Some(Point { w: 2, h: 0 }));
    let single = PercolationGraph::new(1, 1, Some(0));
    for dir in [Direction::Left, Direction::Right, Direction::Down, Direction::Up] {
        assert_eq!(single.neighbor(corner, dir), None);
    }
}

#[test]
fn neighbors_always_lie_in_the_grid() {
    let graph = PercolationGraph::new(7, 5, Some(0));
    for h in 0..5 {
        for w in 0..7 {
            for dir in [Direction::Left, Direction::Right, Direction::Down, Direction::Up] {
                if let Some(next) = graph.neighbor(Point { w, h }, dir) {
                    assert!(next.w < 7 && next.h < 5);
                    let moved = next.w.abs_diff(w) + next.h.abs_diff(h);
                    assert_eq!(moved, 1);
                }
            }
        }
    }
}

#[test]
fn offset_is_row_major() {
    let graph = PercolationGraph::new(7, 5, Some(0));
    assert_eq!(graph.offset(Point { w: 0, h: 0 }), 0);
    assert_eq!(graph.offset(Point { w: 6, h: 0 }), 6);
    assert_eq!(graph.offset(Point { w: 0, h: 1 }), 7);
    assert_eq!(graph.offset(Point { w: 6, h: 4 }), 34);
}

#[test]
fn fill_cluster_keeps_assigned_cells() {
    let mut graph = PercolationGraph::new(6, 6, Some(123));
    graph.set_parameter(Probability::always());
    let red = Color { r: 200, g: 0, b: 0 };
    let blue = Color { r: 0, g: 0, b: 200 };
    graph.set_parameter(Probability::never());
    graph.fill_cluster(Point { w: 2, h: 2 }, red);
    assert_eq!(graph.get_color_at(2, 2), Some(red));
    assert_eq!(graph.colors().iter().filter(|cell| cell.is_some()).count(), 1);
    graph.set_parameter(Probability::always());
    graph.fill_cluster(Point { w: 0, h: 0 }, blue);
    assert_eq!(graph.get_color_at(2, 2), Some(red));
    for h in 0..6 {
        for w in 0..6 {
            if (w, h) != (2, 2) {
                assert_eq!(graph.get_color_at(w, h), Some(blue));
            }
        }
    }
    // an assigned start is left alone and costs no draw
    let seed = graph.seed();
    graph.fill_cluster(Point { w: 2, h: 2 }, blue);
    assert_eq!(graph.get_color_at(2, 2), Some(red));
    assert_eq!(graph.seed(), seed);
}

#[test]
fn fill_cluster_draws_once_per_unassigned_neighbour() {
    let mut graph = PercolationGraph::new(3, 3, Some(1000));
    graph.set_parameter(Probability::never());
    let color = Color { r: 1, g: 2, b: 3 };
    graph.fill_cluster(Point { w: 1, h: 1 }, color);
    let mut rng = SimpleRng::new(1000);
    for _ in 0..4 {
        rng.update_seed();
    }
    assert_eq!(graph.seed(), rng.seed());
    graph.fill_cluster(Point { w: 0, h: 0 }, color);
    // right and up are inside; right neighbour (1,0) and upper neighbour (0,1) are unassigned
    rng.update_seed();
    rng.update_seed();
    assert_eq!(graph.seed(), rng.seed());
    graph.fill_cluster(Point { w: 1, h: 0 }, color);
    // left (0,0) and up (1,1) are assigned: only right (2,0) is probed
    rng.update_seed();
    assert_eq!(graph.seed(), rng.seed());
}

#[test]
fn probe_pushes_only_on_success() {
    let mut graph = PercolationGraph::new(3, 1, Some(0x9e37_79b9));
    let mut work: Vec<Point> = Vec::new();
    let middle = Point { w: 1, h: 0 };
    // fractions after 0x9e3779b9: 0x15609e (below one half), 0x6ae317 (above)
    graph.probe(&mut work, middle, Direction::Left);
    assert_eq!(work, vec![Point { w: 0, h: 0 }]);
    graph.probe(&mut work, middle, Direction::Right);
    assert_eq!(work, vec![Point { w: 0, h: 0 }]);
    let seed = graph.seed();
    graph.probe(&mut work, middle, Direction::Up);
    graph.probe(&mut work, middle, Direction::Down);
    assert_eq!(graph.seed(), seed);
    assert_eq!(work.len(), 1);
}

#[test]
fn visit_passes_over_assigned_cells() {
    let mut graph = PercolationGraph::new(4, 1, Some(55));
    graph.set_parameter(Probability::always());
    graph.visit(0);
    assert_eq!(graph.cluster_count(), 1);
    let seed = graph.seed();
    let cells = graph.colors().clone();
    graph.visit(1);
    graph.visit(2);
    graph.visit(3);
    assert_eq!(graph.cluster_count(), 1);
    assert_eq!(graph.seed(), seed);
    assert_eq!(graph.colors(), &cells);
}

#[test]
fn color_random_takes_three_draws_below_255() {
    let mut rng = SimpleRng::new(0xc0ff_ee11);
    let color = Color::random(&mut rng);
    assert_eq!(color, Color { r: 254, g: 251, b: 237 });
    let mut stepped = SimpleRng::new(0xc0ff_ee11);
    for _ in 0..3 {
        stepped.update_seed();
    }
    assert_eq!(rng.seed(), stepped.seed());
    for _ in 0..1_000_000u32 {
        let drawn = Color::random(&mut rng);
        assert!(drawn.r < 255 && drawn.g < 255 && drawn.b < 255);
    }
}

#[test]
fn larger_probability_gives_larger_clusters_on_average() {
    let thresholds: [u32; 5] = [0x10_0000, 0x30_0000, 0x48_0000, 0x60_0000, 0x78_0000];
    let mut previous_largest = 0usize;
    let mut previous_count = usize::MAX;
    for t in thresholds {
        let mut largest = 0usize;
        let mut count = 0usize;
        for trial in 0..40u32 {
            let graph = pass(24, 24, 0x9e37_79b9u32.wrapping_mul(trial + 1), t);
            largest += largest_cluster(&graph);
            count += graph.cluster_count();
        }
        assert!(largest >= previous_largest);
        assert!(count <= previous_count);
        previous_largest = largest;
        previous_count = count;
    }
}
