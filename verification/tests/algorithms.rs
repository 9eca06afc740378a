use mazes::algorithms::aldous_broder::AldousBroder;
use mazes::algorithms::hunt_and_kill::HuntAndKill;
use mazes::algorithms::recursive_backtracker::RecursiveBacktracker;
use mazes::algorithms::wilson::Wilson;
use mazes::algorithms::MazeAlgorithm;
use mazes::distances::DistanceGrid;
use mazes::grid::cell::Cell;
use mazes::grid::mask::Mask;
use mazes::grid::masked_grid::MaskedGrid;
use mazes::grid::CellFormatter;
use mazes::grid::StandardGrid;
use mazes::rng::RngWrapper;

/// A small linear congruential generator: the same seed gives the same maze.
pub struct SeededRng {
    state: u64,
}

impl SeededRng {
    pub fn new(seed: u64) -> SeededRng {
        SeededRng { state: seed }
    }
}

impl RngWrapper for SeededRng {
    fn gen_range(&mut self, low: usize, high: usize) -> usize {
        self.state = self
            .state
            .wrapping_mul(6364136223846793005)
            .wrapping_add(1442695040888963407);
        low + ((self.state >> 33) as usize) % (high - low)
    }
}

pub struct ConsoleGridFormatter;

impl CellFormatter for ConsoleGridFormatter {
    fn contents_of(&self, _cell: &Cell) -> String {
        String::from(" ")
    }

    fn background_color(&self, _cell: &Cell) -> String {
        String::from("")
    }
}

fn test_std_grid(alg: impl MazeAlgorithm) -> StandardGrid {
    let mut grid = StandardGrid::new(5, 5);

    let mut rng = SeededRng::new(7);
    let outcome = alg.on(&mut grid.grid, &mut rng);
    assert_eq!(outcome, Ok(()));

    // Prints normal grid without distances.
    println!("{}", grid.to_string(&ConsoleGridFormatter));
    grid
}

fn run_colors() {
    let mut grid = StandardGrid::new(5, 5);

    let mut rng = SeededRng::new(11);
    assert_eq!(RecursiveBacktracker.on(&mut grid.grid, &mut rng), Ok(()));

    // grabs first cell of first row
    let cells = grid.grid.cells();
    let root = cells.first().unwrap().first().unwrap();
    let distance_grid = DistanceGrid::new(&grid.grid, root.as_ref().unwrap().index);
    let color = distance_grid.background_color(root.as_ref().unwrap());
    assert_eq!(color, "rgb(255,255,255)");

    for row in cells.iter() {
        for cell in row.iter() {
            if let Some(cell) = cell {
                println!("{}", distance_grid.background_color(cell));
            }
        }
    }
}

fn run_mask() {
    let mut mask = Mask::new(5, 5);

    assert_eq!(mask.set(0, 2, false), Ok(()));
    assert_eq!(mask.set(1, 2, false), Ok(()));
    assert_eq!(mask.set(2, 2, false), Ok(()));
    assert_eq!(mask.set(3, 2, false), Ok(()));
    assert_eq!(mask.set(4, 2, false), Ok(()));
    println!("{}", mask.get(1, 2));
    println!("{:#?}", mask);
    println!("{}", mask.count());
    println!("{:?}", mask.rand_location(&mut SeededRng::new(3)));
}

fn run_masked_grid() {
    let mut mask = Mask::new(5, 5);

    mask.set(0, 2, false).unwrap();
    mask.set(1, 2, false).unwrap();
    mask.set(2, 2, false).unwrap();

    mask.set(0, 0, false).unwrap();
    mask.set(2, 0, false).unwrap();
    mask.set(3, 0, false).unwrap();

    mask.set(1, 4, false).unwrap();
    mask.set(2, 4, false).unwrap();
    mask.set(4, 4, false).unwrap();
    let mut masked_grid = MaskedGrid::new(mask);
    assert_eq!(
        RecursiveBacktracker.on(&mut masked_grid.grid, &mut SeededRng::new(5)),
        Ok(())
    );
    println!("{}", masked_grid.grid.to_string(&ConsoleGridFormatter));
}

fn run_basic_grid() {
    let grid = StandardGrid::new(5, 5);
    println!("{}", grid.to_string(&ConsoleGridFormatter));
}

#[test]
fn tests_aldous_broder() {
    test_std_grid(AldousBroder);
}

#[test]
fn tests_wilson() {
    test_std_grid(Wilson);
}

#[test]
fn tests_hunt_and_kill() {
    test_std_grid(HuntAndKill);
}

#[test]
fn tests_recursive_backtracker() {
    test_std_grid(RecursiveBacktracker);
}

#[test]
fn tests_colors() {
    run_colors();
}

#[test]
fn tests_mask() {
    run_mask();
}

#[test]
fn tests_masked_grid() {
    run_masked_grid();
}

#[test]
fn tests_basic_grid() {
    run_basic_grid();
}

#[test]
fn lib_aldous_broder() {
    test_std_grid(AldousBroder);
}

#[test]
fn lib_wilson() {
    test_std_grid(Wilson);
}

#[test]
fn lib_hunt_and_kill() {
    test_std_grid(HuntAndKill);
}

#[test]
fn lib_recursive_backtracker() {
    test_std_grid(RecursiveBacktracker);
}

#[test]
fn lib_colors() {
    run_colors();
}

#[test]
fn lib_mask() {
    run_mask();
}

#[test]
fn lib_masked_grid() {
    run_masked_grid();
}

#[test]
fn lib_basic_grid() {
    run_basic_grid();
}
