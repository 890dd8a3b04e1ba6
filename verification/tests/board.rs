use game2048::board::Board;
use game2048::game::Game;

#[test]
fn board_accessors() {
    let mut b = Board::from_size(4);
    assert_eq!(b.get_state(0, 0), 0);
    b.set_state(1, 2, 16);
    assert_eq!(b.get_state(1, 2), 16);
    b.double_state(1, 2);
    assert_eq!(b.get_state(1, 2), 32);
    assert_eq!(b.get_state(2, 1), 0);
}

#[test]
fn board_new_is_four_by_four() {
    let b = Board::new();
    for y in 0..4 {
        for x in 0..4 {
            assert_eq!(b.get_state(x, y), 0);
        }
    }
}

#[test]
fn render_one_cell_value_centred() {
    let mut b = Board::from_size(1);
    b.set_state(0, 0, 2048);
    let expected = "+-----------+\n|           |\n|           |\n|   2048    |\n|           |\n|           |\n+-----------+\n";
    assert_eq!(b.to_string(), expected);
}

#[test]
fn render_empty_cell_is_blank() {
    let b = Board::from_size(1);
    let expected = "+-----------+\n|           |\n|           |\n|           |\n|           |\n|           |\n+-----------+\n";
    assert_eq!(b.to_string(), expected);
}

#[test]
fn render_offsets_depend_on_digit_count() {
    let mut b = Board::from_size(2);
    b.set_state(0, 0, 2);
    b.set_state(1, 0, 16);
    b.set_state(0, 1, 128);
    b.set_state(1, 1, 32768);
    let expected = "+-----------+-----------+\n|           |           |\n|           |           |\n|     2     |    16     |\n|           |           |\n|           |           |\n+-----------+-----------+\n|           |           |\n|           |           |\n|    128    |   32768   |\n|           |           |\n|           |           |\n+-----------+-----------+\n";
    assert_eq!(b.to_string(), expected);
}

#[test]
fn game_renders_like_board() {
    let mut g = Game::from_size(1);
    g.set_state(0, 0, 2048);
    let mut b = Board::from_size(1);
    b.set_state(0, 0, 2048);
    assert_eq!(g.to_string(), b.to_string());
}
