use territory::cell::{Cell, CellReadError, Color};
use territory::universe::{Universe, HEIGHT_UNIVERSE, N_NEUTRAL_BLOCKS, WIDTH_UNIVERSE};

fn assert_counts_sum(u: &Universe) {
    let (empty, red, blue, neutral) = u.get_cell_numbers();
    assert_eq!(
        empty + red + blue + neutral,
        WIDTH_UNIVERSE * HEIGHT_UNIVERSE
    );
}

#[test]
fn cell_to_color_mapping() {
    assert_eq!(Cell::Empty.to_color(), Color::Neither);
    assert_eq!(Cell::Neutral.to_color(), Color::Neither);
    assert_eq!(Cell::Red.to_color(), Color::Red);
    assert_eq!(Cell::Blue.to_color(), Color::Blue);
}

#[test]
fn default_cell_is_empty() {
    assert_eq!(Cell::default(), Cell::Empty);
}

#[test]
fn new_empty_grid() {
    let u = Universe::new_empty();
    assert_eq!(
        u.get_cell_numbers(),
        (WIDTH_UNIVERSE * HEIGHT_UNIVERSE, 0, 0, 0)
    );
    assert!(!u.is_finished());
    let cells = u.get_cells();
    assert_eq!(cells.len(), (WIDTH_UNIVERSE * HEIGHT_UNIVERSE) as usize);
    assert!(cells.iter().all(|c| *c == Cell::Empty));
    assert_counts_sum(&u);
}

#[test]
fn new_empty_sized_grid() {
    let u = Universe::new_empty_sized(4, 4);
    assert_eq!(u.get_cell_numbers(), (16, 0, 0, 0));
    assert_eq!(u.get_cells().len(), 16);
}

#[test]
fn get_index_row_major_and_bounds() {
    let u = Universe::new_empty();
    assert_eq!(u.get_index((0, 0)), Ok(0));
    assert_eq!(u.get_index((1, 2)), Ok(65));
    assert_eq!(u.get_index((31, 31)), Ok(1023));
    assert_eq!(u.get_index((32, 0)), Err(()));
    assert_eq!(u.get_index((0, 32)), Err(()));
}

#[test]
fn claim_succeeds_once_per_cell() {
    let mut u = Universe::new_empty();
    assert_eq!(u.set_cell(&Cell::Red, (3, 4)), Ok(true));
    let idx = u.get_index((3, 4)).unwrap();
    assert_eq!(u.get_cells()[idx], Cell::Red);
    assert_eq!(u.get_cell_numbers(), (1023, 1, 0, 0));
    // a cell once claimed never changes, whoever asks again
    assert_eq!(u.set_cell(&Cell::Blue, (3, 4)), Ok(false));
    assert_eq!(u.set_cell(&Cell::Red, (3, 4)), Ok(false));
    assert_eq!(u.get_cells()[idx], Cell::Red);
    assert_eq!(u.get_cell_numbers(), (1023, 1, 0, 0));
    assert_counts_sum(&u);
}

#[test]
fn claim_empty_kind_is_an_error() {
    let mut u = Universe::new_empty();
    assert_eq!(u.set_cell(&Cell::Empty, (0, 0)), Err(CellReadError));
    assert_eq!(u.get_cell_numbers(), (1024, 0, 0, 0));
}

#[test]
fn claim_out_of_bounds_is_silently_dropped() {
    let mut u = Universe::new_empty();
    assert_eq!(u.set_cell(&Cell::Red, (32, 0)), Ok(false));
    assert_eq!(u.set_cell(&Cell::Blue, (0, 99)), Ok(false));
    assert_eq!(u.get_cell_numbers(), (1024, 0, 0, 0));
}

#[test]
fn counts_sum_after_mixed_operations() {
    let mut u = Universe::new_empty();
    u.set_cell(&Cell::Red, (0, 0)).unwrap();
    u.set_cell(&Cell::Blue, (5, 5)).unwrap();
    u.set_cell(&Cell::Neutral, (9, 9)).unwrap();
    assert_eq!(u.get_cell_numbers(), (1021, 1, 1, 1));
    assert_counts_sum(&u);
    u.evolve();
    assert_counts_sum(&u);
    u.evolve();
    assert_counts_sum(&u);
}

#[test]
fn step_with_empty_frontier_is_a_noop() {
    let mut u = Universe::new_empty();
    let before_cells = u.get_cells();
    let before_counts = u.get_cell_numbers();
    u.evolve();
    assert_eq!(u.get_cells(), before_cells);
    assert_eq!(u.get_cell_numbers(), before_counts);
}

#[test]
fn step_with_empty_frontier_is_a_noop_on_random_grid() {
    let mut u = Universe::new_rand();
    let before_cells = u.get_cells();
    let before_counts = u.get_cell_numbers();
    u.evolve();
    assert_eq!(u.get_cells(), before_cells);
    assert_eq!(u.get_cell_numbers(), before_counts);
}

#[test]
fn corner_seed_fills_grid_in_bfs_depth_steps() {
    // a single corner seed on a 4x4 grid with no neutral cells reaches the
    // opposite corner after (width-1)+(height-1) steps
    let mut u = Universe::new_empty_sized(4, 4);
    assert_eq!(u.set_cell(&Cell::Red, (0, 0)), Ok(true));
    for _ in 0..5 {
        u.evolve();
    }
    assert!(!u.is_finished());
    assert_eq!(u.get_cell_numbers().0, 1);
    u.evolve();
    assert!(u.is_finished());
    assert_eq!(u.get_cell_numbers(), (0, 16, 0, 0));
    assert!(u.get_cells().iter().all(|c| *c == Cell::Red));
}

#[test]
fn spread_is_one_layer_per_step() {
    let mut u = Universe::new_empty_sized(4, 4);
    u.set_cell(&Cell::Red, (0, 0)).unwrap();
    u.evolve();
    // exactly the two 4-neighbours of the seed, nothing further out
    let cells = u.get_cells();
    assert_eq!(u.get_cell_numbers(), (13, 3, 0, 0));
    assert_eq!(cells[u.get_index((0, 1)).unwrap()], Cell::Red);
    assert_eq!(cells[u.get_index((1, 0)).unwrap()], Cell::Red);
    assert_eq!(cells[u.get_index((1, 1)).unwrap()], Cell::Empty);
    assert_eq!(cells[u.get_index((2, 0)).unwrap()], Cell::Empty);
}

#[test]
fn randomized_grid_is_best_effort_neutral() {
    let u = Universe::new_rand();
    let (empty, red, blue, neutral) = u.get_cell_numbers();
    assert_eq!(red, 0);
    assert_eq!(blue, 0);
    // the first draw always lands on a still-empty board
    assert!(neutral >= 1);
    assert!(neutral <= N_NEUTRAL_BLOCKS);
    assert_eq!(empty + neutral, WIDTH_UNIVERSE * HEIGHT_UNIVERSE);
    assert!(!u.is_finished());
    let cells = u.get_cells();
    let counted = cells.iter().filter(|c| **c == Cell::Neutral).count();
    assert_eq!(counted as u32, neutral);
    assert!(cells
        .iter()
        .all(|c| *c == Cell::Empty || *c == Cell::Neutral));
}

#[test]
fn neutral_cells_block_the_spread() {
    // a pre-set neutral cell is not in the frontier: it never spreads,
    // never changes, and the flood has to flow around it
    let mut cells = vec![Cell::Empty; 1024];
    cells[1] = Cell::Neutral;
    let mut u = Universe::_new_rand(cells, 1023, 1);
    u.set_cell(&Cell::Red, (0, 0)).unwrap();
    u.evolve();
    // one step on: only (0,1) claimed; (1,0) is blocked, (2,0) untouched
    let after_one = u.get_cells();
    assert_eq!(after_one[u.get_index((1, 0)).unwrap()], Cell::Neutral);
    assert_eq!(after_one[u.get_index((0, 1)).unwrap()], Cell::Red);
    assert_eq!(after_one[u.get_index((2, 0)).unwrap()], Cell::Empty);
    for _ in 0..3 {
        u.evolve();
    }
    // the flood reached (2, 0) around the block, which still stands
    let after_four = u.get_cells();
    assert_eq!(after_four[u.get_index((1, 0)).unwrap()], Cell::Neutral);
    assert_eq!(after_four[u.get_index((2, 0)).unwrap()], Cell::Red);
    assert_eq!(u.get_cell_numbers().3, 1);
}

#[test]
fn timer_is_recorded_for_display() {
    let mut u = Universe::new_empty();
    assert_eq!(u.get_timer(), 0);
    u.set_timer(1500);
    assert_eq!(u.get_timer(), 1500);
    assert_eq!(u.get_cell_numbers(), (1024, 0, 0, 0));
}

#[test]
fn winner_follows_the_counts() {
    let mut u = Universe::new_empty_sized(2, 2);
    assert_eq!(u.winner(), Color::Neither);
    u.set_cell(&Cell::Red, (0, 0)).unwrap();
    assert_eq!(u.winner(), Color::Red);
    u.set_cell(&Cell::Blue, (1, 0)).unwrap();
    assert_eq!(u.winner(), Color::Neither);
    u.set_cell(&Cell::Blue, (1, 1)).unwrap();
    assert_eq!(u.winner(), Color::Blue);
}

#[test]
fn clone_copies_the_whole_grid() {
    let mut u = Universe::new_empty_sized(2, 2);
    u.set_cell(&Cell::Red, (0, 1)).unwrap();
    let c = u.clone();
    assert_eq!(c.get_cells(), u.get_cells());
    assert_eq!(c.get_cell_numbers(), u.get_cell_numbers());
    assert_eq!(c.is_finished(), u.is_finished());
    // the copy is independent
    u.set_cell(&Cell::Blue, (1, 1)).unwrap();
    assert_eq!(c.get_cell_numbers(), (3, 1, 0, 0));
    assert_eq!(u.get_cell_numbers(), (2, 1, 1, 0));
}

#[test]
fn prefilled_grid_constructor_keeps_the_tally() {
    let mut cells = vec![Cell::Empty; 1024];
    cells[7] = Cell::Neutral;
    cells[9] = Cell::Neutral;
    let u = Universe::_new_rand(cells, 1022, 2);
    assert_eq!(u.get_cell_numbers(), (1022, 0, 0, 2));
    assert!(!u.is_finished());
    assert_counts_sum(&u);
}

#[test]
fn filling_claim_finishes_the_board() {
    let mut u = Universe::new_empty_sized(2, 1);
    assert_eq!(u.set_cell(&Cell::Red, (0, 0)), Ok(true));
    assert!(!u.is_finished());
    assert_eq!(u.set_cell(&Cell::Blue, (1, 0)), Ok(true));
    // the last empty cell is gone: finished reports the full board at once
    assert!(u.is_finished());
    assert_eq!(u.get_cell_numbers(), (0, 1, 1, 0));
}

#[test]
fn contested_cell_goes_to_the_first_frontier_entry() {
    // Red enters the frontier before Blue; both border the middle cell
    let mut u = Universe::new_empty_sized(3, 1);
    u.set_cell(&Cell::Red, (0, 0)).unwrap();
    u.set_cell(&Cell::Blue, (2, 0)).unwrap();
    u.evolve();
    let cells = u.get_cells();
    assert_eq!(cells[u.get_index((1, 0)).unwrap()], Cell::Red);
    assert!(u.is_finished());

    // the other order: Blue enters first and wins the same contest
    let mut v = Universe::new_empty_sized(3, 1);
    v.set_cell(&Cell::Blue, (2, 0)).unwrap();
    v.set_cell(&Cell::Red, (0, 0)).unwrap();
    v.evolve();
    let cells = v.get_cells();
    assert_eq!(cells[v.get_index((1, 0)).unwrap()], Cell::Blue);
}

#[test]
fn frontier_is_replaced_each_generation() {
    // after a step, none of the old frontier's positions is in the new
    // frontier: a cell spreads in exactly one generation
    let mut u = Universe::new_empty_sized(4, 1);
    u.set_cell(&Cell::Red, (0, 0)).unwrap();
    u.evolve();
    // (0,0) spread once; stepping again grows from (1,0) alone
    u.evolve();
    let cells = u.get_cells();
    assert_eq!(cells[u.get_index((2, 0)).unwrap()], Cell::Red);
    assert_eq!(cells[u.get_index((3, 0)).unwrap()], Cell::Empty);
    assert!(!u.is_finished());
}
