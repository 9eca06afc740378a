use mazes::algorithms::aldous_broder::AldousBroder;
use mazes::algorithms::hunt_and_kill::HuntAndKill;
use mazes::algorithms::recursive_backtracker::RecursiveBacktracker;
use mazes::algorithms::wilson::Wilson;
use mazes::algorithms::{carve, MazeAlgorithm, STEP_LIMIT};
use mazes::distances::{longest_path, shortest_path, DistanceGrid};
use mazes::error::MazeError;
use mazes::grid::cell::{Cell, ICell};
use mazes::grid::grid_base::GridBase;
use mazes::grid::link::{is_linked, link, unlink};
use mazes::grid::mask::{nth_true, Mask};
use mazes::grid::masked_grid::MaskedGrid;
use mazes::grid::{CellFormatter, Grid, StandardGrid};
use mazes::rng::{RngWrapper, TraceRng};
use mazes::text::{color, decimal, shade_of};

struct Lcg {
    state: u64,
}

impl RngWrapper for Lcg {
    fn gen_range(&mut self, low: usize, high: usize) -> usize {
        self.state = self
            .state
            .wrapping_mul(6364136223846793005)
            .wrapping_add(1442695040888963407);
        low + ((self.state >> 33) as usize) % (high - low)
    }
}

struct Stars;

impl CellFormatter for Stars {
    fn contents_of(&self, cell: &Cell) -> String {
        if cell.index == 0 {
            String::from("*")
        } else {
            String::from(" ")
        }
    }

    fn background_color(&self, _cell: &Cell) -> String {
        String::from("")
    }
}

fn edge_count(grid: &GridBase) -> usize {
    let total: usize = grid.cells.iter().map(|c| c.links.len()).sum();
    assert_eq!(total % 2, 0);
    total / 2
}

/// Distances from `root` by a search written here, over the links alone.
fn plain_distances(grid: &GridBase, root: usize) -> Vec<Option<usize>> {
    let mut dist: Vec<Option<usize>> = vec![None; grid.cells.len()];
    dist[root] = Some(0);
    let mut frontier = vec![root];
    while !frontier.is_empty() {
        let mut next = Vec::new();
        for &c in frontier.iter() {
            for &l in grid.cells[c].links.iter() {
                if dist[l].is_none() {
                    dist[l] = Some(dist[c].unwrap() + 1);
                    next.push(l);
                }
            }
        }
        frontier = next;
    }
    dist
}

fn check_links_sound(grid: &GridBase) {
    for cell in grid.cells.iter() {
        for &other in cell.links.iter() {
            assert!(grid.cells[other].links.contains(&cell.index));
            assert!(cell.neighbors().contains(&other));
            assert!(cell.is_linked(other));
            assert!(grid.cells[other].is_linked(cell.index));
        }
        let mut seen = cell.links.clone();
        seen.sort();
        seen.dedup();
        assert_eq!(seen.len(), cell.links.len());
    }
}

fn check_perfect(grid: &GridBase) {
    check_links_sound(grid);
    assert_eq!(edge_count(grid), grid.size() - 1);
    let dist = plain_distances(grid, 0);
    assert!(dist.iter().all(|d| d.is_some()));
}

fn check_all_sizes(alg: impl MazeAlgorithm) {
    let sizes = [(1usize, 1usize), (1, 5), (5, 1), (5, 5), (20, 20)];
    for (k, &(rows, columns)) in sizes.iter().enumerate() {
        for seed in 0..5u64 {
            let mut grid = StandardGrid::new(rows, columns);
            let mut rng = Lcg { state: seed * 31 + k as u64 };
            assert_eq!(alg.on(&mut grid.grid, &mut rng), Ok(()));
            assert_eq!(grid.grid.size(), rows * columns);
            check_perfect(&grid.grid);
        }
    }
}

fn links_of(grid: &GridBase) -> Vec<Vec<usize>> {
    grid.cells.iter().map(|c| c.links.clone()).collect()
}

fn adjacency_of(grid: &GridBase) -> Vec<(Option<usize>, Option<usize>, Option<usize>, Option<usize>)> {
    grid.cells
        .iter()
        .map(|c| (c.north, c.south, c.east, c.west))
        .collect()
}

/// A long list of values for a `TraceRng`, always the same for one seed.
fn drawn_values(count: usize, seed: u64) -> Vec<usize> {
    let mut rng = Lcg { state: seed };
    (0..count).map(|_| rng.gen_range(0, 1000)).collect()
}

fn holed_mask() -> Mask {
    let mut mask = Mask::new(5, 5);
    for &(r, c) in [(0, 2), (1, 2), (2, 2), (0, 0), (2, 0), (3, 0), (1, 4), (2, 4), (4, 4)].iter() {
        mask.set(r, c, false).unwrap();
    }
    mask
}

#[test]
fn aldous_broder_makes_perfect_mazes() {
    check_all_sizes(AldousBroder);
}

#[test]
fn wilson_makes_perfect_mazes() {
    check_all_sizes(Wilson);
}

#[test]
fn hunt_and_kill_makes_perfect_mazes() {
    check_all_sizes(HuntAndKill);
}

#[test]
fn recursive_backtracker_makes_perfect_mazes() {
    check_all_sizes(RecursiveBacktracker);
}

#[test]
fn algorithms_leave_adjacency_alone() {
    let fresh = StandardGrid::new(4, 6);
    let before = adjacency_of(&fresh.grid);
    let mut grid = StandardGrid::new(4, 6);
    Wilson.on(&mut grid.grid, &mut Lcg { state: 9 }).unwrap();
    assert_eq!(adjacency_of(&grid.grid), before);
    let mut grid = StandardGrid::new(4, 6);
    HuntAndKill.on(&mut grid.grid, &mut Lcg { state: 9 }).unwrap();
    assert_eq!(adjacency_of(&grid.grid), before);
}

#[test]
fn same_choices_give_the_same_maze() {
    let values = drawn_values(5000, 77);
    let mut first = StandardGrid::new(4, 4);
    let mut second = StandardGrid::new(4, 4);
    assert_eq!(
        AldousBroder.on(&mut first.grid, &mut TraceRng::new(values.clone())),
        Ok(())
    );
    assert_eq!(
        AldousBroder.on(&mut second.grid, &mut TraceRng::new(values.clone())),
        Ok(())
    );
    assert_eq!(links_of(&first.grid), links_of(&second.grid));

    let mut first = StandardGrid::new(4, 4);
    let mut second = StandardGrid::new(4, 4);
    Wilson.on(&mut first.grid, &mut TraceRng::new(values.clone())).unwrap();
    Wilson.on(&mut second.grid, &mut TraceRng::new(values.clone())).unwrap();
    assert_eq!(links_of(&first.grid), links_of(&second.grid));

    let mut first = StandardGrid::new(4, 4);
    let mut second = StandardGrid::new(4, 4);
    HuntAndKill.on(&mut first.grid, &mut TraceRng::new(values.clone())).unwrap();
    HuntAndKill.on(&mut second.grid, &mut TraceRng::new(values.clone())).unwrap();
    assert_eq!(links_of(&first.grid), links_of(&second.grid));

    let mut first = StandardGrid::new(4, 4);
    let mut second = StandardGrid::new(4, 4);
    RecursiveBacktracker.on(&mut first.grid, &mut TraceRng::new(values.clone())).unwrap();
    RecursiveBacktracker.on(&mut second.grid, &mut TraceRng::new(values)).unwrap();
    assert_eq!(links_of(&first.grid), links_of(&second.grid));
}

#[test]
fn recursive_backtracker_golden_maze() {
    // The generator without values always answers with the lowest choice:
    // the walk starts at cell 0 and always takes the first free neighbour.
    let mut grid = StandardGrid::new(2, 2);
    assert_eq!(
        RecursiveBacktracker.on(&mut grid.grid, &mut TraceRng::new(Vec::new())),
        Ok(())
    );
    // 0 -> south 2 -> east 3 -> north 1
    assert_eq!(
        links_of(&grid.grid),
        vec![vec![2], vec![3], vec![0, 3], vec![2, 1]]
    );
    assert_eq!(
        grid.to_string(&Stars),
        "\r+---+---+\r\n| * |   |\r\n+   +   +\r\n|       |\r\n+---+---+\r\n"
    );
}

#[test]
fn trace_rng_replays_its_values() {
    let mut rng = TraceRng::new(vec![7, 8, 9]);
    assert_eq!(rng.gen_range(0, 5), 2);
    assert_eq!(rng.gen_range(10, 14), 10);
    assert_eq!(rng.gen_range(0, 2), 1);
    assert_eq!(rng.gen_range(0, 5), 2);
    assert_eq!(rng.pick(3, 4), 3);
    let mut empty = TraceRng::new(Vec::new());
    assert_eq!(empty.gen_range(4, 9), 4);
}

#[test]
fn aldous_broder_step_follows_the_choice() {
    let mut grid = StandardGrid::new(3, 3);
    // cell 4 is the middle: north 1, south 7, east 5, west 3
    assert_eq!(AldousBroder::step(&mut grid.grid, 4, 2), (5, true));
    assert_eq!(links_of(&grid.grid)[4], vec![5]);
    assert_eq!(links_of(&grid.grid)[5], vec![4]);
    // stepping back onto a cell with links opens nothing
    assert_eq!(AldousBroder::step(&mut grid.grid, 5, 2), (4, false));
    assert_eq!(edge_count(&grid.grid), 1);
}

#[test]
fn carve_takes_the_chosen_free_neighbour() {
    let mut grid = StandardGrid::new(3, 3);
    assert_eq!(grid.grid.unvisited_neighbors(4), vec![1, 7, 5, 3]);
    assert_eq!(carve(&mut grid.grid, 4, 1), 7);
    assert_eq!(grid.grid.unvisited_neighbors(8), vec![5]);
    assert_eq!(grid.grid.unvisited_neighbors(6), vec![3]);
}

#[test]
fn backtracker_step_goes_on_and_back() {
    let mut grid = StandardGrid::new(1, 2);
    let mut trail = vec![0usize];
    assert!(RecursiveBacktracker::step(&mut grid.grid, &mut trail, 0));
    assert_eq!(trail, vec![0, 1]);
    assert!(!RecursiveBacktracker::step(&mut grid.grid, &mut trail, 0));
    assert_eq!(trail, vec![0]);
    assert!(!RecursiveBacktracker::step(&mut grid.grid, &mut trail, 0));
    assert!(trail.is_empty());
    assert_eq!(edge_count(&grid.grid), 1);
}

#[test]
fn hunt_finds_the_first_open_end() {
    let mut grid = StandardGrid::new(2, 2);
    assert_eq!(HuntAndKill::hunt(&grid.grid, 3), Some(3));
    link(&mut grid.grid, 3, 1).unwrap();
    link(&mut grid.grid, 1, 0).unwrap();
    assert_eq!(HuntAndKill::hunt(&grid.grid, 3), Some(0));
    assert_eq!(HuntAndKill::source(&grid.grid, 3, 3), Some(3));
    link(&mut grid.grid, 0, 2).unwrap();
    assert_eq!(HuntAndKill::hunt(&grid.grid, 3), None);
    assert_eq!(HuntAndKill::source(&grid.grid, 3, 2), None);
}

#[test]
fn wilson_erases_loops() {
    let mut path = vec![4usize, 5, 8, 7];
    Wilson::extend_path(&mut path, 6);
    assert_eq!(path, vec![4, 5, 8, 7, 6]);
    Wilson::extend_path(&mut path, 5);
    assert_eq!(path, vec![4, 5]);
    Wilson::extend_path(&mut path, 4);
    assert_eq!(path, vec![4]);
}

#[test]
fn empty_grid_is_refused() {
    let mut grid = GridBase::new(3, 3);
    assert_eq!(grid.size(), 0);
    assert_eq!(AldousBroder.on(&mut grid, &mut Lcg { state: 1 }), Err(MazeError::EmptyMask));
    assert_eq!(Wilson.on(&mut grid, &mut Lcg { state: 1 }), Err(MazeError::EmptyMask));
    assert_eq!(HuntAndKill.on(&mut grid, &mut Lcg { state: 1 }), Err(MazeError::EmptyMask));
    assert_eq!(
        RecursiveBacktracker.on(&mut grid, &mut Lcg { state: 1 }),
        Err(MazeError::EmptyMask)
    );
    assert_eq!(longest_path(&grid), Err(MazeError::EmptyMask));
    assert!(grid.random_cell(&mut Lcg { state: 1 }).is_none());
}

#[test]
fn split_mask_is_disconnected() {
    // column 1 of a 3 by 3 lattice is switched off: two regions
    let mut mask = Mask::new(3, 3);
    for r in 0..3 {
        mask.set(r, 1, false).unwrap();
    }
    let mut masked = MaskedGrid::new(mask);
    assert_eq!(masked.size(), 6);
    assert_eq!(
        RecursiveBacktracker.on(&mut masked.grid, &mut Lcg { state: 2 }),
        Err(MazeError::Disconnected)
    );
    check_links_sound(&masked.grid);
    assert_eq!(edge_count(&masked.grid), 2);

    let mut mask = Mask::new(3, 3);
    for r in 0..3 {
        mask.set(r, 1, false).unwrap();
    }
    let mut masked = MaskedGrid::new(mask);
    assert_eq!(
        HuntAndKill.on(&mut masked.grid, &mut Lcg { state: 2 }),
        Err(MazeError::Disconnected)
    );
    assert_eq!(edge_count(&masked.grid), 2);

    // a lone cell beside another lone cell: the walk has nowhere to go
    let mut mask = Mask::new(1, 3);
    mask.set(0, 1, false).unwrap();
    let mut masked = MaskedGrid::new(mask);
    assert_eq!(
        AldousBroder.on(&mut masked.grid, &mut Lcg { state: 2 }),
        Err(MazeError::Disconnected)
    );
    let mut mask = Mask::new(1, 3);
    mask.set(0, 1, false).unwrap();
    let mut masked = MaskedGrid::new(mask);
    assert_eq!(
        Wilson.on(&mut masked.grid, &mut Lcg { state: 2 }),
        Err(MazeError::Disconnected)
    );
}

#[test]
fn masked_grid_scenario() {
    let mask = holed_mask();
    assert_eq!(mask.count(), 16);
    let mut masked = MaskedGrid::new(mask);
    assert_eq!(masked.size(), 16);
    assert_eq!(masked.rows(), 5);
    assert_eq!(masked.columns(), 5);
    assert_eq!(
        RecursiveBacktracker.on(&mut masked.grid, &mut Lcg { state: 42 }),
        Ok(())
    );
    assert_eq!(edge_count(&masked.grid), 15);
    check_perfect(&masked.grid);
    assert!(masked.get_cell(0, 0).is_none());
    assert!(masked.get_cell(0, 2).is_none());
    assert_eq!(masked.get_cell(0, 1).unwrap().index, 0);
    assert_eq!(masked.get_cell(4, 3).unwrap().index, 15);
    assert!(masked.get_cell(5, 0).is_none());
}

#[test]
fn masked_algorithms_all_work() {
    let mut masked = MaskedGrid::new(holed_mask());
    assert_eq!(AldousBroder.on(&mut masked.grid, &mut Lcg { state: 1 }), Ok(()));
    check_perfect(&masked.grid);
    let mut masked = MaskedGrid::new(holed_mask());
    assert_eq!(Wilson.on(&mut masked.grid, &mut Lcg { state: 1 }), Ok(()));
    check_perfect(&masked.grid);
    let mut masked = MaskedGrid::new(holed_mask());
    assert_eq!(HuntAndKill.on(&mut masked.grid, &mut Lcg { state: 1 }), Ok(()));
    check_perfect(&masked.grid);
}

#[test]
fn mask_basics() {
    let mut mask = Mask::new(5, 5);
    assert_eq!(mask.count(), 25);
    assert!(mask.get(1, 2));
    assert_eq!(mask.set(1, 2, false), Ok(()));
    assert!(!mask.get(1, 2));
    assert_eq!(mask.count(), 24);
    assert_eq!(mask.set(1, 2, true), Ok(()));
    assert_eq!(mask.count(), 25);
    assert_eq!(mask.set(5, 0, false), Err(MazeError::OutOfBounds));
    assert_eq!(mask.set(0, 5, false), Err(MazeError::OutOfBounds));
    assert_eq!(mask.count(), 25);
    assert!(!mask.get(5, 0));
    assert!(!mask.get(0, 5));
    assert_eq!(mask.nth_active(0), (0, 0));
    assert_eq!(mask.nth_active(7), (1, 2));
    mask.set(0, 0, false).unwrap();
    assert_eq!(mask.nth_active(0), (0, 1));
    assert_eq!(nth_true(&vec![false, true, false, true, true], 2), 4);
}

#[test]
fn empty_mask_has_no_location() {
    let mut mask = Mask::new(2, 2);
    for r in 0..2 {
        for c in 0..2 {
            mask.set(r, c, false).unwrap();
        }
    }
    assert_eq!(mask.count(), 0);
    assert_eq!(
        mask.rand_location(&mut Lcg { state: 5 }),
        Err(MazeError::EmptyMask)
    );
    let masked = MaskedGrid::new(mask);
    assert_eq!(masked.size(), 0);
    assert!(masked.random_cell(&mut Lcg { state: 5 }).is_none());
    let none = Mask::new(0, 7);
    assert_eq!(none.count(), 0);
    assert_eq!(none.rand_location(&mut Lcg { state: 5 }), Err(MazeError::EmptyMask));
}

#[test]
fn random_location_stays_on_active_cells() {
    let mut mask = Mask::new(5, 5);
    for r in 0..5 {
        for c in 0..5 {
            if !((r == 0 && c == 0) || (r == 4 && c == 4)) {
                mask.set(r, c, false).unwrap();
            }
        }
    }
    assert_eq!(mask.count(), 2);
    let mut rng = Lcg { state: 2024 };
    let mut first = 0;
    let mut second = 0;
    for _ in 0..1000 {
        match mask.rand_location(&mut rng) {
            Ok((0, 0)) => first += 1,
            Ok((4, 4)) => second += 1,
            other => panic!("inactive location {:?}", other),
        }
    }
    assert_eq!(first + second, 1000);
    assert!(first > 400 && first < 600);
    assert!(second > 400 && second < 600);

    let masked = MaskedGrid::new(mask);
    for _ in 0..100 {
        let cell = masked.random_cell(&mut rng).unwrap();
        assert!((cell.row, cell.column) == (0, 0) || (cell.row, cell.column) == (4, 4));
    }
}

#[test]
fn grid_is_built_in_two_steps() {
    let mut grid = Grid::new(2, 3);
    assert_eq!(grid.size(), 0);
    assert!(grid.get_cell(0, 0).is_none());
    assert!(grid.random_cell(&mut Lcg { state: 1 }).is_none());
    grid.prepare_grid();
    assert_eq!(grid.size(), 6);
    let cell = grid.get_cell(1, 1).unwrap();
    assert_eq!((cell.row(), cell.column(), cell.index()), (1, 1, 4));
    assert!(cell.neighbors().is_empty());
    assert!(cell.links().is_empty());
    assert!(grid.each_cell().iter().all(|c| c.north.is_none() && c.west.is_none()));
    grid.configure_cells();
    let cell = grid.get_cell(1, 1).unwrap();
    assert_eq!(cell.north, Some(1));
    assert_eq!(cell.south, None);
    assert_eq!(cell.east, Some(5));
    assert_eq!(cell.west, Some(3));
    assert_eq!(cell.neighbors(), vec![1, 5, 3]);
    assert_eq!(grid.grid.neighbors(0, 0), vec![3, 1]);
    assert_eq!(grid.grid.neighbors(9, 9), Vec::<usize>::new());
    assert!(grid.get_cell(2, 0).is_none());
    assert!(grid.get_cell(0, 3).is_none());
    let order: Vec<(usize, usize)> = grid.each_cell().iter().map(|c| (c.row, c.column)).collect();
    assert_eq!(order, vec![(0, 0), (0, 1), (0, 2), (1, 0), (1, 1), (1, 2)]);
    let picked = grid.random_cell(&mut TraceRng::new(vec![1, 2])).unwrap();
    assert_eq!((picked.row, picked.column), (1, 2));
    assert_eq!(grid.grid.get_cell_at_index(5).row, 1);
    assert_eq!(grid.grid.index_at(1, 2), Some(5));
}

#[test]
fn cells_matrix_shows_holes() {
    let masked = MaskedGrid::new(holed_mask());
    let matrix = masked.cells();
    assert_eq!(matrix.len(), 5);
    assert!(matrix.iter().all(|row| row.len() == 5));
    assert!(matrix[0][0].is_none());
    assert_eq!(matrix[0][1].as_ref().unwrap().index, 0);
    assert_eq!(matrix[4][3].as_ref().unwrap().index, 15);
    let from_base = masked.grid.cells_h();
    assert_eq!(from_base[3][1].as_ref().unwrap().row, 3);
    let copy = matrix[3][1].as_ref().unwrap().clone();
    assert_eq!(copy.neighbors(), masked.get_cell(3, 1).unwrap().neighbors());
    assert_eq!(masked.each_cell().len(), 16);
}

#[test]
fn link_and_unlink_round_trip() {
    let mut grid = StandardGrid::new(3, 3);
    let adjacency = adjacency_of(&grid.grid);
    link(&mut grid.grid, 0, 1).unwrap();
    let before = links_of(&grid.grid);
    assert_eq!(link(&mut grid.grid, 4, 5), Ok(()));
    assert!(grid.grid.cells[4].is_linked(5));
    assert!(grid.grid.cells[5].is_linked(4));
    assert_eq!(grid.grid.cells[4].index_of_other(5), Some(0));
    assert_eq!(grid.grid.cells[4].index_of_other(3), None);
    assert_eq!(grid.grid.get_cell_links(5), vec![4]);
    assert_eq!(grid.grid.get_cell_links(1), vec![0]);
    assert!(is_linked(&grid.grid, 4, 5) && is_linked(&grid.grid, 5, 4));
    assert!(!is_linked(&grid.grid, 4, 3) && !is_linked(&grid.grid, 3, 4));
    assert!(!is_linked(&grid.grid, 4, 9) && !is_linked(&grid.grid, 9, 4));
    assert!(grid.grid.cells[4].is_open_east() && grid.grid.cells[5].is_open_west());
    assert!(grid.grid.cells[0].is_open_east() && !grid.grid.cells[0].is_open_south());
    assert!(!grid.grid.cells[4].is_open_north() && !grid.grid.cells[4].is_open_south());
    assert!(!grid.grid.cells[4].is_open_west() && !grid.grid.cells[2].is_open_east());
    // linking twice changes nothing
    assert_eq!(link(&mut grid.grid, 5, 4), Ok(()));
    assert_eq!(grid.grid.cells[4].links, vec![5]);
    assert_eq!(unlink(&mut grid.grid, 4, 5), Ok(()));
    assert!(!grid.grid.cells[4].is_linked(5));
    assert!(!grid.grid.cells[5].is_linked(4));
    assert_eq!(links_of(&grid.grid), before);
    assert_eq!(adjacency_of(&grid.grid), adjacency);
    // unlinking what is not linked changes nothing
    assert_eq!(unlink(&mut grid.grid, 4, 5), Ok(()));
    assert_eq!(links_of(&grid.grid), before);
}

#[test]
fn bad_links_are_refused() {
    let mut grid = StandardGrid::new(3, 3);
    assert_eq!(link(&mut grid.grid, 0, 8), Err(MazeError::InvalidLink));
    assert_eq!(link(&mut grid.grid, 0, 4), Err(MazeError::InvalidLink));
    assert_eq!(link(&mut grid.grid, 0, 0), Err(MazeError::InvalidLink));
    assert_eq!(link(&mut grid.grid, 2, 3), Err(MazeError::InvalidLink));
    assert_eq!(link(&mut grid.grid, 0, 9), Err(MazeError::OutOfBounds));
    assert_eq!(link(&mut grid.grid, 9, 0), Err(MazeError::OutOfBounds));
    assert_eq!(unlink(&mut grid.grid, 0, 8), Err(MazeError::InvalidLink));
    assert_eq!(unlink(&mut grid.grid, 0, 9), Err(MazeError::OutOfBounds));
    assert_eq!(edge_count(&grid.grid), 0);
    assert!(grid.grid.cells[0].has_neighbor(1));
    assert!(!grid.grid.cells[0].has_neighbor(4));
}

#[test]
fn distances_match_a_plain_search() {
    let mut grid = StandardGrid::new(5, 5);
    let values = drawn_values(5000, 5);
    assert_eq!(
        AldousBroder.on(&mut grid.grid, &mut TraceRng::new(values)),
        Ok(())
    );
    check_perfect(&grid.grid);
    let distances = DistanceGrid::new(&grid.grid, 0);
    let expected = plain_distances(&grid.grid, 0);
    assert_eq!(distances.distances, expected);
    for c in 0..25 {
        assert_eq!(distances.distance(c), expected[c]);
    }
    assert_eq!(distances.distance(25), None);
    let largest = expected.iter().map(|d| d.unwrap()).max().unwrap();
    assert_eq!(distances.max_distance, largest);
    // the two ends of every passage are one step apart
    for cell in grid.grid.cells.iter() {
        for &other in cell.links.iter() {
            let here = distances.distance(cell.index).unwrap();
            let there = distances.distance(other).unwrap();
            assert!(here == there + 1 || there == here + 1);
        }
    }
    let (far, far_distance) = distances.farthest().unwrap();
    assert_eq!(far_distance, largest);
    assert_eq!(expected.iter().position(|d| *d == Some(largest)), Some(far));

    // the longest path runs between the two ends of the diameter
    let path = longest_path(&grid.grid).unwrap();
    let a = path[0];
    let b = path[path.len() - 1];
    assert_eq!(a, far);
    let from_a = plain_distances(&grid.grid, a);
    let reach = from_a.iter().map(|d| d.unwrap()).max().unwrap();
    assert_eq!(path.len() - 1, reach);
    assert_eq!(from_a[b], Some(reach));
    // no two cells are farther apart
    for c in 0..25 {
        let from_c = plain_distances(&grid.grid, c);
        assert!(from_c.iter().all(|d| d.unwrap() <= reach));
    }
    // the root's farthest cell is one end; the way to the other end is no
    // longer than going through the root, and as long exactly when the root
    // lies on the path
    assert_eq!(expected[a], Some(largest));
    assert!(largest + expected[b].unwrap() >= path.len() - 1);
    assert!(largest <= path.len() - 1);
    assert_eq!(
        largest + expected[b].unwrap() == path.len() - 1,
        path.contains(&0)
    );
    for pair in path.windows(2) {
        assert!(grid.grid.cells[pair[0]].is_linked(pair[1]));
    }
}

#[test]
fn shortest_path_on_a_known_maze() {
    // a 2 by 3 grid carved by hand: 0-1-2 across the top, 2-5, 5-4, 4-3
    let mut grid = StandardGrid::new(2, 3);
    for &(a, b) in [(0, 1), (1, 2), (2, 5), (5, 4), (4, 3)].iter() {
        link(&mut grid.grid, a, b).unwrap();
    }
    let distances = DistanceGrid::new(&grid.grid, 0);
    assert_eq!(
        distances.distances,
        vec![Some(0), Some(1), Some(2), Some(5), Some(4), Some(3)]
    );
    assert_eq!(distances.max_distance, 5);
    assert_eq!(distances.farthest(), Some((3, 5)));
    assert_eq!(distances.step_down(&grid.grid, 3), 4);
    assert_eq!(distances.path_to(&grid.grid, 4), Ok(vec![0, 1, 2, 5, 4]));
    assert_eq!(shortest_path(&grid.grid, 0, 3), Ok(vec![0, 1, 2, 5, 4, 3]));
    assert_eq!(shortest_path(&grid.grid, 3, 1), Ok(vec![3, 4, 5, 2, 1]));
    assert_eq!(shortest_path(&grid.grid, 2, 2), Ok(vec![2]));
    assert_eq!(shortest_path(&grid.grid, 0, 6), Err(MazeError::OutOfBounds));
    assert_eq!(shortest_path(&grid.grid, 6, 0), Err(MazeError::OutOfBounds));
    assert_eq!(longest_path(&grid.grid), Ok(vec![3, 4, 5, 2, 1, 0]));
    // the root is an end of the longest path: no detour
    assert_eq!(distances.distance(3).unwrap() + distances.distance(0).unwrap(), 5);
    // a second way round makes the shortest path shorter
    link(&mut grid.grid, 0, 3).unwrap();
    assert_eq!(shortest_path(&grid.grid, 0, 4), Ok(vec![0, 3, 4]));
    assert_eq!(shortest_path(&grid.grid, 0, 5), Ok(vec![0, 1, 2, 5]));
}

#[test]
fn no_path_without_links() {
    let mut grid = StandardGrid::new(2, 2);
    assert_eq!(shortest_path(&grid.grid, 0, 3), Err(MazeError::NoPath));
    link(&mut grid.grid, 0, 1).unwrap();
    assert_eq!(shortest_path(&grid.grid, 0, 1), Ok(vec![0, 1]));
    assert_eq!(shortest_path(&grid.grid, 0, 3), Err(MazeError::NoPath));
    let distances = DistanceGrid::new(&grid.grid, 0);
    assert_eq!(distances.distances, vec![Some(0), Some(1), None, None]);
    assert_eq!(distances.path_to(&grid.grid, 2), Err(MazeError::NoPath));
    assert_eq!(distances.contents_of(&grid.grid.cells[2]), " ");
    assert_eq!(distances.background_color(&grid.grid.cells[2]), "");
    assert_eq!(longest_path(&grid.grid), Ok(vec![1, 0]));
}

#[test]
fn colours_fade_with_distance() {
    let mut grid = StandardGrid::new(1, 3);
    link(&mut grid.grid, 0, 1).unwrap();
    link(&mut grid.grid, 1, 2).unwrap();
    let distances = DistanceGrid::new(&grid.grid, 0);
    assert_eq!(distances.background_color(&grid.grid.cells[0]), "rgb(255,255,255)");
    // half way: round(255 / 2) = 128, 128 + round(127 / 2) = 192
    assert_eq!(distances.background_color(&grid.grid.cells[1]), "rgb(128,192,128)");
    assert_eq!(distances.background_color(&grid.grid.cells[2]), "rgb(0,128,0)");
    assert_eq!(distances.contents_of(&grid.grid.cells[0]), "0");
    assert_eq!(distances.contents_of(&grid.grid.cells[2]), "2");
    assert_eq!(distances.contents_of(&Cell::new(0, 0, 7)), " ");
    assert_eq!(distances.background_color(&Cell::new(0, 0, 7)), "");
    // a single cell is its own root
    let alone = StandardGrid::new(1, 1);
    let distances = DistanceGrid::new(&alone.grid, 0);
    assert_eq!(distances.max_distance, 0);
    assert_eq!(distances.background_color(&alone.grid.cells[0]), "rgb(255,255,255)");
    let blank = StandardGrid::new(1, 1);
    assert_eq!(blank.contents_of(&alone.grid.cells[0]), " ");
    assert_eq!(blank.background_color(&alone.grid.cells[0]), "");
}

#[test]
fn text_helpers() {
    assert_eq!(decimal(0), "0");
    assert_eq!(decimal(7), "7");
    assert_eq!(decimal(10), "10");
    assert_eq!(decimal(1234567890), "1234567890");
    assert_eq!(shade_of(0, 10, 255), 255);
    assert_eq!(shade_of(10, 10, 255), 0);
    assert_eq!(shade_of(1, 2, 255), 128);
    assert_eq!(shade_of(1, 3, 127), 85);
    assert_eq!(shade_of(2, 3, 127), 42);
    assert_eq!(shade_of(0, 0, 127), 127);
    assert_eq!(color(1, 20, 255), "rgb(1,20,255)");
}

#[test]
fn picture_of_a_fresh_grid() {
    let grid = StandardGrid::new(2, 2);
    assert_eq!(
        grid.grid.to_string(&Stars),
        "\r+---+---+\r\n|   |   |\r\n+---+---+\r\n|   |   |\r\n+---+---+\r\n"
    );
    assert_eq!(
        grid.to_string(&Stars),
        "\r+---+---+\r\n| * |   |\r\n+---+---+\r\n|   |   |\r\n+---+---+\r\n"
    );
    let one = StandardGrid::new(1, 1);
    assert_eq!(one.to_string(&one), "\r+---+\r\n|   |\r\n+---+\r\n");
    let labels = vec![String::from("a"), String::from("b")];
    let mut pair = StandardGrid::new(1, 2);
    link(&mut pair.grid, 0, 1).unwrap();
    assert_eq!(
        pair.grid.render(&labels),
        "\r+---+---+\r\n| a   b |\r\n+---+---+\r\n"
    );
    let mut tall = Grid::new(2, 1);
    tall.prepare_grid();
    tall.configure_cells();
    link(&mut tall.grid, 0, 1).unwrap();
    assert_eq!(
        tall.to_string(&Stars),
        "\r+---+\r\n| * |\r\n+   +\r\n|   |\r\n+---+\r\n"
    );
    let none = GridBase::new(0, 3);
    assert_eq!(none.to_string(&Stars), "\r");
}

#[test]
fn picture_of_a_masked_grid() {
    // X . .
    // . . X
    let mut mask = Mask::new(2, 3);
    mask.set(0, 0, false).unwrap();
    mask.set(1, 2, false).unwrap();
    let masked = MaskedGrid::new(mask);
    assert_eq!(
        masked.grid.to_string(&Stars),
        "\r    +---+---+\r\n    |   |   |\r\n+---+---+---+\r\n|   |   |    \r\n+---+---+    \r\n"
    );
    assert_eq!(masked.to_string(&Stars), masked.grid.to_string(&Stars));
    assert_eq!(
        masked.grid.labelled(&Stars),
        "\r    +---+---+\r\n    | * |   |\r\n+---+---+---+\r\n|   |   |    \r\n+---+---+    \r\n"
    );
}

#[test]
fn mask_is_read_from_text() {
    let text = "X..X\n.X\r\n\n..X.\n";
    let mask = Mask::from_text(text.as_bytes(), b'X').unwrap();
    assert_eq!((mask.rows, mask.columns), (4, 4));
    let expected = [
        [false, true, true, false],
        [true, false, true, true],
        [true, true, true, true],
        [true, true, false, true],
    ];
    for r in 0..4 {
        for c in 0..4 {
            assert_eq!(mask.get(r, c), expected[r][c]);
        }
    }
    assert_eq!(mask.count(), 12);

    // no line feed at the end: the last line still counts
    let mask = Mask::from_text(b"ab\ncXe", b'X').unwrap();
    assert_eq!((mask.rows, mask.columns), (2, 3));
    assert!(!mask.get(1, 1));
    assert_eq!(mask.count(), 5);
    // a carriage return that ends no line is a byte like any other
    let mask = Mask::from_text(b"a\rb\n", b'X').unwrap();
    assert_eq!((mask.rows, mask.columns), (1, 3));
    let mask = Mask::from_text(b"", b'X').unwrap();
    assert_eq!((mask.rows, mask.columns), (0, 0));
    let mask = Mask::from_text(b"\n\n", b'X').unwrap();
    assert_eq!((mask.rows, mask.columns), (2, 0));
    assert_eq!(mask.count(), 0);
}

#[test]
fn maze_in_a_mask_from_text() {
    let text = "X...X\n.....\n..X..\n.....\nX...X\n";
    let mask = Mask::from_text(text.as_bytes(), b'X').unwrap();
    assert_eq!(mask.count(), 20);
    let mut masked = MaskedGrid::new(mask);
    assert_eq!(AldousBroder.on(&mut masked.grid, &mut Lcg { state: 12 }), Ok(()));
    check_perfect(&masked.grid);
    assert_eq!(edge_count(&masked.grid), 19);
    println!("{}", masked.grid.to_string(&Stars));
}

#[test]
fn longest_path_in_a_branching_maze() {
    // 0-1 2      three branches meet at cell 1: the root alone, a branch of
    //   | |      three passages to cell 8 and one of four to cell 7
    // 3-4 5
    // |   |
    // 6-7 8
    let mut grid = StandardGrid::new(3, 3);
    for &(a, b) in [(0, 1), (1, 2), (2, 5), (5, 8), (1, 4), (4, 3), (3, 6), (6, 7)].iter() {
        link(&mut grid.grid, a, b).unwrap();
    }
    check_perfect(&grid.grid);
    let from_root = DistanceGrid::new(&grid.grid, 0);
    assert_eq!(from_root.farthest(), Some((7, 5)));
    assert_eq!(from_root.distance(8), Some(4));
    // the longest path does not pass the root
    assert_eq!(longest_path(&grid.grid), Ok(vec![7, 6, 3, 4, 1, 2, 5, 8]));
    // so the way from one end to the other through the root is a detour
    assert!(from_root.distance(7).unwrap() + from_root.distance(8).unwrap() > 7);
    assert!(from_root.distance(7).unwrap() <= 7);
    let from_end = DistanceGrid::new(&grid.grid, 7);
    assert_eq!(from_end.farthest(), Some((8, 7)));
    for c in 0..9 {
        let reach = plain_distances(&grid.grid, c);
        assert!(reach.iter().all(|d| d.unwrap() <= 7));
    }
    assert_eq!(
        grid.to_string(&from_root),
        "\r+---+---+---+\r\n| 0   1   2 |\r\n+---+   +   +\r\n| 3   2 | 3 |\r\n+   +---+   +\r\n| 4   5 | 4 |\r\n+---+---+---+\r\n"
    );
}

#[test]
fn wilson_attaches_a_path() {
    // 0 1 2
    // 3 4 5     the tree is cell 8 alone; the walk went 0, 1, 4, 5, 8
    // 6 7 8
    let mut grid = StandardGrid::new(3, 3);
    let mut outside = vec![true; 9];
    outside[8] = false;
    Wilson::attach_path(&mut grid.grid, &mut outside, &vec![0, 1, 4, 5, 8], 8);
    assert_eq!(
        outside,
        vec![false, false, true, true, false, false, true, true, false]
    );
    assert_eq!(
        links_of(&grid.grid),
        vec![
            vec![1],
            vec![4, 0],
            vec![],
            vec![],
            vec![5, 1],
            vec![8, 4],
            vec![],
            vec![],
            vec![5]
        ]
    );
    // a second path that meets the tree at cell 4
    Wilson::attach_path(&mut grid.grid, &mut outside, &vec![6, 3, 4], 8);
    assert_eq!(edge_count(&grid.grid), 6);
    assert!(!outside[6] && !outside[3] && outside[7] && outside[2]);
    check_links_sound(&grid.grid);
}

#[test]
fn blank_picture_of_a_linked_pair() {
    let mut grid = Grid::new(1, 2);
    grid.prepare_grid();
    grid.configure_cells();
    assert_eq!(link(&mut grid.grid, 0, 1), Ok(()));
    let blank = StandardGrid::new(1, 1);
    assert_eq!(grid.to_string(&blank), "\r+---+---+\r\n|       |\r\n+---+---+\r\n");
    assert_eq!(grid.to_string(&Stars), "\r+---+---+\r\n| *     |\r\n+---+---+\r\n");
}

#[test]
fn walks_give_up_only_when_stuck() {
    assert_eq!(STEP_LIMIT, u64::MAX);
    // two cells that are no neighbours: the walk stands on a cell without
    // neighbours before it asks for a step
    let mut mask = Mask::new(1, 3);
    mask.set(0, 1, false).unwrap();
    let mut masked = MaskedGrid::new(mask);
    let mut rng = TraceRng::new(vec![1]);
    assert_eq!(AldousBroder.on(&mut masked.grid, &mut rng), Err(MazeError::Disconnected));
    // the one draw was the start
    assert_eq!(rng.position, 1);
    assert_eq!(edge_count(&masked.grid), 0);

    let mut mask = Mask::new(1, 3);
    mask.set(0, 1, false).unwrap();
    let mut masked = MaskedGrid::new(mask);
    let mut rng = TraceRng::new(vec![0, 0]);
    assert_eq!(Wilson.on(&mut masked.grid, &mut rng), Err(MazeError::Disconnected));
    // the root and the start of the first walk were drawn, no step
    assert_eq!(rng.position, 2);
    assert_eq!(edge_count(&masked.grid), 0);
}
