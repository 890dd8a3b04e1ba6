use game2048::game::{Direction, Game};

fn game_with(states: Vec<usize>) -> Game {
    let mut g = Game::from_size(4);
    g.set_states(states);
    g
}

#[test]
fn step_down_merges_columns() {
    let mut g = game_with(vec![2, 0, 0, 0, 2, 4, 0, 0, 8, 0, 0, 2, 8, 16, 4, 0]);
    let changed = g.step(&Direction::Down);
    assert!(changed);
    assert_eq!(
        g.get_states(),
        vec![0, 0, 0, 0, 0, 0, 0, 0, 4, 4, 0, 0, 16, 16, 4, 2]
    );
}

#[test]
fn step_down_merges_once_per_pass() {
    let mut g = game_with(vec![0, 0, 0, 0, 0, 2, 0, 4, 0, 0, 0, 4, 0, 0, 2, 4]);
    let changed = g.step(&Direction::Down);
    assert!(changed);
    assert_eq!(
        g.get_states(),
        vec![0, 0, 0, 0, 0, 0, 0, 0, 0, 0, 0, 4, 0, 2, 2, 8]
    );
}

#[test]
fn step_left_merges_rows() {
    let mut g = game_with(vec![2, 2, 0, 2, 8, 0, 0, 0, 4, 0, 4, 0, 0, 0, 0, 0]);
    let changed = g.step(&Direction::Left);
    assert!(changed);
    assert_eq!(
        g.get_states(),
        vec![4, 2, 0, 0, 8, 0, 0, 0, 8, 0, 0, 0, 0, 0, 0, 0]
    );
}

#[test]
fn step_on_empty_grid_changes_nothing() {
    for dir in [Direction::Up, Direction::Down, Direction::Left, Direction::Right] {
        let mut g = Game::from_size(4);
        let before = g.get_states();
        assert!(!g.step(&dir));
        assert_eq!(g.get_states(), before);
        assert_eq!(g.get_score(), 0);
    }
}

#[test]
fn step_on_blocked_grid_changes_nothing() {
    // full grid, no equal neighbours in any direction
    let blocked = vec![2, 4, 2, 4, 4, 2, 4, 2, 2, 4, 2, 4, 4, 2, 4, 2];
    for dir in [Direction::Up, Direction::Down, Direction::Left, Direction::Right] {
        let mut g = game_with(blocked.clone());
        assert!(!g.step(&dir));
        assert_eq!(g.get_states(), blocked);
        assert_eq!(g.get_score(), 0);
    }
}

#[test]
fn step_right_mirrors_left() {
    let mut g = game_with(vec![2, 2, 0, 2, 8, 0, 0, 0, 4, 0, 4, 0, 0, 0, 0, 0]);
    assert!(g.step(&Direction::Right));
    assert_eq!(
        g.get_states(),
        vec![0, 0, 2, 4, 0, 0, 0, 8, 0, 0, 0, 8, 0, 0, 0, 0]
    );
}

#[test]
fn step_up_mirrors_down() {
    let mut g = game_with(vec![2, 0, 0, 0, 2, 4, 0, 0, 8, 0, 0, 2, 8, 16, 4, 0]);
    assert!(g.step(&Direction::Up));
    assert_eq!(
        g.get_states(),
        vec![4, 4, 4, 2, 16, 16, 0, 0, 0, 0, 0, 0, 0, 0, 0, 0]
    );
}

#[test]
fn no_tile_merges_twice_in_one_step() {
    // 2,2,4 must become 4,4 — not 8
    let mut g = game_with(vec![2, 2, 4, 0, 0, 0, 0, 0, 0, 0, 0, 0, 0, 0, 0, 0]);
    assert!(g.step(&Direction::Left));
    assert_eq!(
        g.get_states(),
        vec![4, 4, 0, 0, 0, 0, 0, 0, 0, 0, 0, 0, 0, 0, 0, 0]
    );

    // four equal tiles merge pairwise, nearest the edge first
    let mut g = game_with(vec![2, 2, 2, 2, 0, 0, 0, 0, 0, 0, 0, 0, 0, 0, 0, 0]);
    assert!(g.step(&Direction::Left));
    assert_eq!(
        g.get_states(),
        vec![4, 4, 0, 0, 0, 0, 0, 0, 0, 0, 0, 0, 0, 0, 0, 0]
    );

    // three equal tiles: the pair nearest the edge merges
    let mut g = game_with(vec![2, 2, 2, 0, 0, 0, 0, 0, 0, 0, 0, 0, 0, 0, 0, 0]);
    assert!(g.step(&Direction::Left));
    assert_eq!(
        g.get_states(),
        vec![4, 2, 0, 0, 0, 0, 0, 0, 0, 0, 0, 0, 0, 0, 0, 0]
    );
}

#[test]
fn merge_happens_across_gaps() {
    let mut g = game_with(vec![2, 0, 0, 2, 0, 0, 0, 0, 0, 0, 0, 0, 0, 0, 0, 0]);
    assert!(g.step(&Direction::Left));
    assert_eq!(
        g.get_states(),
        vec![4, 0, 0, 0, 0, 0, 0, 0, 0, 0, 0, 0, 0, 0, 0, 0]
    );
}

#[test]
fn step_conserves_total_value() {
    let before = vec![2, 0, 0, 0, 2, 4, 0, 0, 8, 0, 0, 2, 8, 16, 4, 0];
    let total: usize = before.iter().sum();
    let mut g = game_with(before);
    g.step(&Direction::Down);
    let after: usize = g.get_states().iter().sum();
    assert_eq!(after, total);
}

#[test]
fn step_adds_merged_values_to_score() {
    // column 0 merges 8+8 and 2+2: the score grows by 16 + 4
    let mut g = game_with(vec![2, 0, 0, 0, 2, 4, 0, 0, 8, 0, 0, 2, 8, 16, 4, 0]);
    g.step(&Direction::Down);
    assert_eq!(g.get_score(), 20);

    // scores accumulate over moves: rows 4,4 and 16,16 merge next
    assert!(g.step(&Direction::Left));
    assert_eq!(g.get_score(), 20 + 8 + 32);
}

#[test]
fn step_leaves_rows_compacted() {
    let mut g = game_with(vec![2, 0, 4, 0, 0, 8, 0, 2, 0, 0, 0, 16, 4, 4, 2, 2]);
    g.step(&Direction::Left);
    for row in g.get_states().chunks(4) {
        let mut seen_zero = false;
        for &v in row {
            if v == 0 {
                seen_zero = true;
            } else {
                assert!(!seen_zero, "occupied cell after an empty one: {:?}", row);
            }
        }
    }
}

#[test]
fn step_works_on_other_sizes() {
    let mut g = Game::from_size(2);
    g.set_states(vec![2, 2, 0, 4]);
    assert!(g.step(&Direction::Left));
    assert_eq!(g.get_states(), vec![4, 0, 4, 0]);
    assert_eq!(g.get_score(), 4);
}

#[test]
fn blocked_in_one_direction_only() {
    // every row is compacted and unequal, so Left does nothing,
    // but the columns hold equal neighbours
    let grid = vec![2, 4, 0, 0, 2, 4, 0, 0, 0, 0, 0, 0, 0, 0, 0, 0];
    let mut g = game_with(grid.clone());
    assert!(!g.step(&Direction::Left));
    assert_eq!(g.get_states(), grid);
    let mut g = game_with(grid);
    assert!(g.step(&Direction::Up));
    assert_eq!(
        g.get_states(),
        vec![4, 8, 0, 0, 0, 0, 0, 0, 0, 0, 0, 0, 0, 0, 0, 0]
    );
    assert_eq!(g.get_score(), 12);
}

#[test]
fn states_round_trip() {
    let v = vec![2, 0, 0, 0, 2, 4, 0, 0, 8, 0, 0, 2, 8, 16, 4, 0];
    let mut g = Game::from_size(4);
    g.set_states(v.clone());
    assert_eq!(g.get_states(), v);
}

#[test]
fn seed_cell_places_two_or_four() {
    // seed 0 is divisible by 9: a 4 lands in the first empty cell
    let mut g = Game::from_size(4);
    assert!(g.seed_cell(0));
    let mut expected = vec![0; 16];
    expected[0] = 4;
    assert_eq!(g.get_states(), expected);

    // seed 1 is not: a 2 lands in the second empty cell
    let mut g = Game::from_size(4);
    assert!(g.seed_cell(1));
    let mut expected = vec![0; 16];
    expected[1] = 2;
    assert_eq!(g.get_states(), expected);

    // seed 9 is divisible by 9: a 4 in the tenth empty cell
    let mut g = Game::from_size(4);
    assert!(g.seed_cell(9));
    let mut expected = vec![0; 16];
    expected[9] = 4;
    assert_eq!(g.get_states(), expected);
}

#[test]
fn seed_cell_skips_occupied_cells() {
    // cells 0 and 1 are occupied, leaving 14 empty ones; seed 14 picks
    // the first of them, cell 2, and 14 is not divisible by 9
    let mut g = game_with(vec![2, 4, 0, 0, 0, 0, 0, 0, 0, 0, 0, 0, 0, 0, 0, 0]);
    assert!(g.seed_cell(14));
    let states = g.get_states();
    assert_eq!(states[2], 2);
}

#[test]
fn seed_cell_reports_full_board() {
    let full = vec![2; 16];
    let mut g = game_with(full.clone());
    assert!(!g.seed_cell(7));
    assert_eq!(g.get_states(), full);
}

#[test]
fn clear_resets_grid_and_score() {
    let mut g = game_with(vec![2, 2, 0, 0, 0, 0, 0, 0, 0, 0, 0, 0, 0, 0, 0, 0]);
    g.step(&Direction::Left);
    assert_eq!(g.get_score(), 4);
    g.set_best(3);
    g.clear();
    assert_eq!(g.get_states(), vec![0; 16]);
    assert_eq!(g.get_score(), 0);
    assert_eq!(g.get_best(), 4);
    assert!(!g.is_finished());
}

#[test]
fn clear_keeps_larger_best() {
    let mut g = Game::from_size(4);
    g.set_best(100);
    g.clear();
    assert_eq!(g.get_best(), 100);
}

#[test]
fn accessors_report_state() {
    let mut g = Game::from_size(5);
    assert_eq!(g.get_size(), 5);
    assert_eq!(g.get_score(), 0);
    assert_eq!(g.get_best(), 0);
    assert!(!g.is_finished());
    g.set_state(3, 2, 64);
    assert_eq!(g.get_state(3, 2), 64);
    g.double_state(3, 2);
    assert_eq!(g.get_state(3, 2), 128);
    g.set_best(42);
    assert_eq!(g.get_best(), 42);
}

#[test]
fn new_game_is_four_by_four() {
    let g = Game::new();
    assert_eq!(g.get_size(), 4);
    assert_eq!(g.get_states(), vec![0; 16]);
}

#[test]
fn tile_colors() {
    let mut g = Game::from_size(4);
    g.set_state(0, 0, 2);
    g.set_state(1, 0, 8);
    g.set_state(2, 0, 2048);
    g.set_state(3, 0, 4096);
    assert_eq!(g.foreground_color(0, 0), "#898077");
    assert_eq!(g.foreground_color(1, 0), "#f9f6f2");
    assert_eq!(g.background_color(0, 0), "#eee4da");
    assert_eq!(g.background_color(1, 0), "#f2b179");
    assert_eq!(g.background_color(2, 0), "#edc22e");
    assert_eq!(g.background_color(3, 0), "#3c3a32");
    assert_eq!(g.background_color(0, 1), "#f9f6f2");
}
