use rustris::game::State;
use rustris::pieces::{Mino, Orientation, Shape};
use rustris::{Block, Game};

const YELLOW: [u8; 3] = [236, 217, 50];
const ORANGE: [u8; 3] = [235, 128, 32];
const GREEN: [u8; 3] = [82, 224, 82];
const RED: [u8; 3] = [229, 68, 46];
const PURPLE: [u8; 3] = [186, 35, 230];
const BLACK: [u8; 3] = [0, 0, 0];

fn cells(m: &Mino) -> Vec<(u8, u8)> {
    let mut v = vec![(m.center[0], m.center[1])];
    for c in m.cords.iter() {
        v.push((c[0], c[1]));
    }
    v
}

fn placed_block() -> Block {
    Block::with_state(State::Placed, [1, 2, 3])
}

/// Fills row `y` with resting cells, but for the listed columns.
fn fill_row_except(game: &mut Game, y: usize, gaps: &[usize]) {
    for x in 0..10 {
        if !gaps.contains(&x) {
            game.board[x][y] = placed_block();
        }
    }
}

/// Ticks until a piece lying on the stack comes to rest, dealing `w`.
fn tick_until_placed(game: &mut Game, w: u32) {
    for _ in 0..30 {
        game.fall_or_place_with(w);
    }
}

#[test]
fn word_selects_shape() {
    assert!(matches!(Mino::from_word(0).shape, Shape::ShapeO));
    assert!(matches!(Mino::from_word(1).shape, Shape::ShapeI));
    assert!(matches!(Mino::from_word(2).shape, Shape::ShapeS));
    assert!(matches!(Mino::from_word(3).shape, Shape::ShapeZ));
    assert!(matches!(Mino::from_word(4).shape, Shape::ShapeL));
    assert!(matches!(Mino::from_word(5).shape, Shape::ShapeJ));
    assert!(matches!(Mino::from_word(6).shape, Shape::ShapeT));
    assert!(matches!(Mino::from_word(13).shape, Shape::ShapeT));
    assert!(matches!(Mino::from_word(u32::MAX).shape, Shape::ShapeZ));
}

#[test]
fn dealt_piece_at_entry() {
    let m = Mino::from_word(1);
    assert!(matches!(m.ori, Orientation::OriD));
    assert_eq!(cells(&m), vec![(5, 20), (4, 20), (6, 20), (7, 20)]);
    let t = Mino::from_word(6);
    assert_eq!(cells(&t), vec![(5, 20), (4, 20), (5, 21), (6, 20)]);
}

#[test]
fn random_piece_is_a_valid_shape() {
    let m = Mino::new();
    assert!(matches!(m.ori, Orientation::OriD));
    assert_eq!(m.center, [5, 20]);
}

#[test]
fn new_game_draws_piece_and_shadow() {
    let game = Game::from_words(0, 1, 2, 3);
    assert!(matches!(game.current_piece().shape, Shape::ShapeO));
    assert_eq!(game.drop_ticks, 30);
    assert_eq!(game.lines, 0);
    assert_eq!(game.level(), 0);
    assert!(!game.is_holding());
    for (x, y) in [(5usize, 20usize), (6, 20), (5, 21), (6, 21)] {
        assert_eq!(game.board[x][y].state(), State::Falling);
        assert_eq!(game.board[x][y].color, YELLOW);
    }
    for (x, y) in [(5usize, 0usize), (6, 0), (5, 1), (6, 1)] {
        assert_eq!(game.board[x][y].state(), State::Phantom);
        assert_eq!(game.board[x][y].color, YELLOW);
    }
    assert_eq!(game.board[0][0].state(), State::Empty);
    assert_eq!(game.board[0][0].color, BLACK);
    assert_eq!(game.board[5][10].state(), State::Empty);
}

#[test]
fn new_game_shows_next_pieces() {
    let game = Game::from_words(0, 1, 2, 3);
    for (x, y) in [(1usize, 7usize), (0, 7), (2, 7), (3, 7)] {
        assert_eq!(game.next_board[x][y], ORANGE);
    }
    for (x, y) in [(1usize, 4usize), (0, 4), (1, 5), (2, 5)] {
        assert_eq!(game.next_board[x][y], GREEN);
    }
    for (x, y) in [(1usize, 1usize), (2, 1), (1, 2), (0, 2)] {
        assert_eq!(game.next_board[x][y], RED);
    }
    assert_eq!(game.next_board[0][0], BLACK);
    assert_eq!(game.next_board[3][9], BLACK);
    for x in 0..4 {
        for y in 0..4 {
            assert_eq!(game.held_board[x][y], BLACK);
        }
    }
}

#[test]
fn random_game_starts_well() {
    let game = Game::new();
    assert_eq!(game.drop_ticks, 30);
    assert_eq!(game.current_piece().center, [5, 20]);
}

#[test]
fn default_game_is_blank() {
    let game = Game::default();
    assert_eq!(game.drop_ticks, 0);
    assert_eq!(game.lines, 0);
    assert_eq!(game.score, 0);
    assert_eq!(game.time, 0);
    assert_eq!(game.board[3][3].state(), State::Empty);
    assert_eq!(game.board[3][3].color, BLACK);
    assert_eq!(game.current_piece().center, [0, 0]);
    assert_eq!(game.next_board[1][1], BLACK);
}

#[test]
fn block_default_and_builder() {
    let b = Block::default();
    assert_eq!(b.state(), State::Empty);
    assert_eq!(b.color, BLACK);
    assert!(!b.is_placed());
    let p = placed_block();
    assert!(p.is_placed());
    assert_eq!(p.color, [1, 2, 3]);
}

#[test]
fn shift_moves_and_stops_at_wall() {
    let mut game = Game::from_words(0, 1, 2, 3);
    game.shift(true);
    assert_eq!(cells(&game.current_piece()), vec![(6, 20), (7, 20), (6, 21), (7, 21)]);
    assert_eq!(game.board[7][20].state(), State::Falling);
    assert_eq!(game.board[5][20].state(), State::Empty);
    assert_eq!(game.board[5][20].color, BLACK);
    for _ in 0..10 {
        game.shift(true);
    }
    assert_eq!(game.current_piece().center[0], 8);
    for _ in 0..20 {
        game.shift(false);
    }
    assert_eq!(game.current_piece().center[0], 0);
    assert_eq!(game.board[0][0].state(), State::Phantom);
}

#[test]
fn shift_blocked_by_resting_cell() {
    let mut game = Game::from_words(0, 1, 2, 3);
    game.board[7][20] = placed_block();
    game.shift(true);
    assert_eq!(game.current_piece().center[0], 5);
    game.shift(false);
    assert_eq!(game.current_piece().center[0], 4);
}

#[test]
fn shift_there_and_back() {
    let mut game = Game::from_words(6, 1, 2, 3);
    let before = game.current_piece();
    game.shift(true);
    game.shift(false);
    assert_eq!(cells(&game.current_piece()), cells(&before));
}

#[test]
fn rotate_o_does_nothing() {
    let mut game = Game::from_words(0, 1, 2, 3);
    let before = game.current_piece();
    game.rotate();
    let after = game.current_piece();
    assert_eq!(cells(&after), cells(&before));
    assert!(matches!(after.ori, Orientation::OriD));
}

#[test]
fn rotate_t_quarter_clockwise() {
    let mut game = Game::from_words(6, 1, 2, 3);
    game.rotate();
    let m = game.current_piece();
    assert!(matches!(m.ori, Orientation::OriL));
    assert_eq!(cells(&m), vec![(5, 20), (5, 21), (6, 20), (5, 19)]);
    assert_eq!(game.board[5][19].state(), State::Falling);
    assert_eq!(game.board[5][19].color, PURPLE);
}

#[test]
fn rotate_t_four_times_is_identity() {
    let mut game = Game::from_words(6, 1, 2, 3);
    let before = game.current_piece();
    for _ in 0..4 {
        game.rotate();
    }
    let after = game.current_piece();
    assert_eq!(cells(&after), cells(&before));
    assert!(matches!(after.ori, Orientation::OriD));
}

#[test]
fn rotate_i_swaps_center() {
    let mut game = Game::from_words(1, 0, 0, 0);
    assert!(!game.rotation_leaves_board());
    game.rotate();
    let m = game.current_piece();
    assert!(matches!(m.ori, Orientation::OriL));
    assert_eq!(cells(&m), vec![(5, 20), (5, 21), (5, 19), (5, 18)]);
    game.rotate();
    let m = game.current_piece();
    assert!(matches!(m.ori, Orientation::OriU));
    assert_eq!(cells(&m), vec![(5, 20), (6, 20), (4, 20), (3, 20)]);
    assert!(game.rotation_leaves_board());
}

#[test]
fn rotate_blocked_by_wall() {
    let mut game = Game::from_words(1, 0, 0, 0);
    game.rotate();
    for _ in 0..10 {
        game.shift(false);
    }
    let before = game.current_piece();
    assert_eq!(before.center[0], 0);
    game.rotate();
    assert_eq!(cells(&game.current_piece()), cells(&before));
}

#[test]
fn drop_lands_on_floor() {
    let mut game = Game::from_words(0, 1, 2, 3);
    game.drop();
    assert_eq!(cells(&game.current_piece()), vec![(5, 0), (6, 0), (5, 1), (6, 1)]);
    assert_eq!(game.board[5][0].state(), State::Falling);
    assert_eq!(game.board[5][20].state(), State::Empty);
}

#[test]
fn drop_lands_on_resting_cells() {
    let mut game = Game::from_words(0, 1, 2, 3);
    game.board[6][4] = placed_block();
    game.drop();
    assert_eq!(cells(&game.current_piece()), vec![(5, 5), (6, 5), (5, 6), (6, 6)]);
    assert!(game.board[6][4].is_placed());
}

#[test]
fn tick_counts_down() {
    let mut game = Game::from_words(0, 1, 2, 3);
    let before = game.current_piece();
    game.fall_or_place_with(0);
    assert_eq!(game.drop_ticks, 29);
    assert_eq!(cells(&game.current_piece()), cells(&before));
}

#[test]
fn tick_falls_one_row() {
    let mut game = Game::from_words(0, 1, 2, 3);
    for _ in 0..30 {
        game.fall_or_place_with(0);
    }
    assert_eq!(game.current_piece().center, [5, 19]);
    assert_eq!(game.drop_ticks, 30);
    assert_eq!(game.board[5][21].state(), State::Empty);
    assert_eq!(game.board[5][19].state(), State::Falling);
}

#[test]
fn piece_comes_to_rest_and_next_enters() {
    let mut game = Game::from_words(0, 1, 2, 3);
    game.drop();
    for _ in 0..30 {
        game.fall_or_place_with(5);
    }
    assert!(game.board[5][0].is_placed());
    assert!(game.board[6][1].is_placed());
    assert_eq!(game.board[5][0].color, YELLOW);
    let m = game.current_piece();
    assert!(matches!(m.shape, Shape::ShapeI));
    assert_eq!(m.center, [5, 20]);
    assert!(matches!(game.next_piece(0).shape, Shape::ShapeS));
    assert!(matches!(game.next_piece(1).shape, Shape::ShapeZ));
    assert!(matches!(game.next_piece(2).shape, Shape::ShapeJ));
    assert_eq!(game.lines, 0);
    assert_eq!(game.drop_ticks, 30);
    assert_eq!(game.next_board[1][7], GREEN);
}

#[test]
fn full_row_is_cleared() {
    let mut game = Game::from_words(0, 1, 2, 3);
    fill_row_except(&mut game, 0, &[5, 6]);
    game.board[0][1] = placed_block();
    game.drop();
    for _ in 0..30 {
        game.fall_or_place_with(0);
    }
    assert_eq!(game.lines, 1);
    assert!(game.board[5][0].is_placed());
    assert!(game.board[6][0].is_placed());
    assert!(game.board[0][0].is_placed());
    assert!(!game.board[1][0].is_placed());
    assert!(!game.board[5][1].is_placed());
}

#[test]
fn two_rows_clear_and_level_rises() {
    let mut game = Game::from_words(0, 1, 2, 3);
    fill_row_except(&mut game, 0, &[5, 6]);
    fill_row_except(&mut game, 1, &[5, 6]);
    game.lines = 3;
    game.drop();
    tick_until_placed(&mut game, 0);
    assert_eq!(game.lines, 5);
    assert_eq!(game.level(), 1);
    assert_eq!(game.drop_ticks, 28);
    for x in 0..10 {
        assert!(!game.board[x][0].is_placed());
    }
}

#[test]
fn at_most_four_rows_clear_at_once() {
    let mut game = Game::from_words(1, 0, 0, 0);
    for y in 0..6 {
        fill_row_except(&mut game, y, &[]);
    }
    game.board[9][6] = placed_block();
    game.drop();
    assert_eq!(game.current_piece().center, [5, 6]);
    tick_until_placed(&mut game, 0);
    assert_eq!(game.lines, 4);
    assert_eq!(game.level(), 1);
    for x in 0..10 {
        assert!(game.board[x][0].is_placed());
        assert!(game.board[x][1].is_placed());
    }
    assert!(game.board[9][2].is_placed());
    assert!(game.board[5][2].is_placed());
    assert!(!game.board[0][2].is_placed());
}

#[test]
fn overflowing_line_count_is_detected() {
    let mut game = Game::from_words(0, 1, 2, 3);
    fill_row_except(&mut game, 0, &[5, 6]);
    game.drop();
    game.lines = u16::MAX;
    assert!(!game.tick_overflows());
    for _ in 0..29 {
        game.fall_or_place_with(0);
    }
    assert_eq!(game.drop_ticks, 1);
    assert!(game.tick_overflows());
    game.lines = u16::MAX - 1;
    assert!(!game.tick_overflows());
}

#[test]
fn hold_puts_piece_aside() {
    let mut game = Game::from_words(6, 1, 2, 3);
    game.shift(false);
    game.rotate();
    game.hold_with(4);
    assert!(game.is_holding());
    let held = game.held_piece();
    assert!(matches!(held.shape, Shape::ShapeT));
    assert!(matches!(held.ori, Orientation::OriL));
    assert_eq!(cells(&held), vec![(5, 20), (4, 20), (5, 21), (6, 20)]);
    assert!(matches!(game.current_piece().shape, Shape::ShapeI));
    assert!(matches!(game.next_piece(2).shape, Shape::ShapeL));
    assert_eq!(game.held_board[1][1], PURPLE);
    assert_eq!(game.held_board[0][1], PURPLE);
    assert_eq!(game.held_board[1][2], PURPLE);
    assert_eq!(game.held_board[2][1], PURPLE);
    assert_eq!(game.held_board[0][0], BLACK);
    assert_eq!(game.board[5][20].state(), State::Falling);
    assert_eq!(game.board[5][20].color, ORANGE);
}

#[test]
fn hold_twice_swaps_back() {
    let mut game = Game::from_words(6, 1, 2, 3);
    game.hold_with(0);
    game.shift(true);
    game.hold_with(0);
    let m = game.current_piece();
    assert!(matches!(m.shape, Shape::ShapeT));
    assert_eq!(cells(&m), vec![(5, 20), (4, 20), (5, 21), (6, 20)]);
    let h = game.held_piece();
    assert!(matches!(h.shape, Shape::ShapeI));
    assert_eq!(cells(&h), vec![(5, 20), (4, 20), (6, 20), (7, 20)]);
    assert!(matches!(game.next_piece(0).shape, Shape::ShapeS));
}

#[test]
fn random_tick_and_hold() {
    let mut game = Game::from_words(0, 1, 2, 3);
    game.fall_or_place();
    assert_eq!(game.drop_ticks, 29);
    game.hold();
    assert!(game.is_holding());
    assert!(matches!(game.current_piece().shape, Shape::ShapeI));
}

#[test]
fn update_pos_redraws() {
    let mut game = Game::from_words(0, 1, 2, 3);
    game.board[0][5] = Block::with_state(State::Falling, [9, 9, 9]);
    game.update_pos();
    assert_eq!(game.board[0][5].state(), State::Empty);
    assert_eq!(game.board[0][5].color, BLACK);
    assert_eq!(game.board[5][20].state(), State::Falling);
}

fn placed_count(game: &Game) -> usize {
    let mut n = 0;
    for x in 0..10 {
        for y in 0..22 {
            if game.board[x][y].is_placed() {
                n += 1;
            }
        }
    }
    n
}

#[test]
fn moves_keep_resting_cells() {
    let mut game = Game::from_words(6, 1, 2, 3);
    game.board[0][0] = placed_block();
    game.board[9][3] = placed_block();
    game.board[4][10] = placed_block();
    game.board[6][12] = placed_block();
    let before = placed_count(&game);
    game.shift(true);
    game.rotate();
    game.shift(false);
    game.shift(false);
    for _ in 0..30 {
        game.fall_or_place_with(0);
    }
    game.drop();
    assert_eq!(placed_count(&game), before);
    assert!(game.board[0][0].is_placed());
    assert!(game.board[9][3].is_placed());
    assert!(game.board[4][10].is_placed());
    assert!(game.board[6][12].is_placed());
}

#[test]
fn dropped_piece_rests_on_stack() {
    let mut game = Game::from_words(6, 1, 2, 3);
    game.board[5][7] = placed_block();
    game.drop();
    assert_eq!(cells(&game.current_piece()), vec![(5, 8), (4, 8), (5, 9), (6, 8)]);
    for _ in 0..30 {
        game.fall_or_place_with(0);
    }
    assert!(game.board[5][8].is_placed());
    assert!(game.board[4][8].is_placed());
    assert!(matches!(game.current_piece().shape, Shape::ShapeI));
}

#[test]
fn i_piece_out_of_step_drifts_over_four_turns() {
    let mut game = Game::from_words(1, 0, 0, 0);
    game.rotate();
    game.hold_with(0);
    game.hold_with(0);
    let m = game.current_piece();
    assert!(matches!(m.shape, Shape::ShapeI));
    assert!(matches!(m.ori, Orientation::OriL));
    assert_eq!(cells(&m), vec![(5, 20), (4, 20), (6, 20), (7, 20)]);
    for _ in 0..4 {
        assert!(!game.rotation_leaves_board());
        game.rotate();
    }
    let m = game.current_piece();
    assert!(matches!(m.ori, Orientation::OriL));
    assert_eq!(cells(&m), vec![(5, 18), (4, 18), (6, 18), (7, 18)]);
}

#[test]
fn level_rises_one_at_a_time_up_to_nineteen() {
    let mut game = Game::from_words(0, 0, 0, 0);
    game.lines = 1000;
    for round in 0..25usize {
        for x in 0..10 {
            for y in 0..22 {
                game.board[x][y] = Block::default();
            }
        }
        fill_row_except(&mut game, 0, &[5, 6]);
        game.drop();
        loop {
            let t = game.drop_ticks;
            game.fall_or_place_with(0);
            if t == 1 {
                break;
            }
        }
        let expected = if round + 1 < 19 { round + 1 } else { 19 };
        assert_eq!(game.level(), expected);
        assert_eq!(game.lines as usize, 1001 + round);
    }
    assert_eq!(game.drop_ticks, 1);
}

fn same_board(a: &Game, b: &Game) -> bool {
    for x in 0..10 {
        for y in 0..22 {
            if a.board[x][y].state() != b.board[x][y].state() || a.board[x][y].color != b.board[x][y].color {
                return false;
            }
        }
    }
    true
}

#[test]
fn redraw_twice_is_redraw_once() {
    let mut game = Game::from_words(1, 0, 0, 0);
    game.board[3][2] = placed_block();
    game.update_pos();
    let mut twice = Game::from_words(1, 0, 0, 0);
    twice.board[3][2] = placed_block();
    twice.update_pos();
    twice.update_pos();
    assert!(same_board(&game, &twice));
}

#[test]
fn drop_twice_is_drop_once() {
    let mut a = Game::from_words(6, 1, 2, 3);
    a.board[5][4] = placed_block();
    a.drop();
    let mut b = Game::from_words(6, 1, 2, 3);
    b.board[5][4] = placed_block();
    b.drop();
    b.drop();
    assert!(same_board(&a, &b));
    assert_eq!(cells(&a.current_piece()), cells(&b.current_piece()));
}

#[test]
fn shift_there_and_back_restores_board() {
    let mut a = Game::from_words(2, 1, 2, 3);
    a.board[1][6] = placed_block();
    a.board[4][3] = placed_block();
    a.update_pos();
    let mut b = Game::from_words(2, 1, 2, 3);
    b.board[1][6] = placed_block();
    b.board[4][3] = placed_block();
    b.update_pos();
    b.shift(false);
    b.shift(true);
    assert!(same_board(&a, &b));
}

fn t_piece_at(center: [u8; 2], cords: [[u8; 2]; 3]) -> Mino {
    Mino { shape: Shape::ShapeT, ori: Orientation::OriD, center, cords }
}

#[test]
fn drop_on_default_game_rests_on_cell() {
    let mut g = Game { curr_mino: t_piece_at([5, 20], [[4, 20], [5, 21], [6, 20]]), ..Default::default() };
    g.board[4][10].state = State::Placed;
    g.drop();
    assert_eq!(g.curr_mino.center, [5, 11]);
    assert_eq!(g.curr_mino.cords, [[4, 11], [5, 12], [6, 11]]);
    for (x, y) in [(5usize, 11usize), (4, 11), (5, 12), (6, 11)] {
        assert_eq!(g.board[x][y].state, State::Falling);
        assert_eq!(g.board[x][y].color, PURPLE);
    }
    assert_eq!(g.board[4][10].state, State::Placed);
    for x in 0..10usize {
        for y in 0..22usize {
            let piece = [(5usize, 11usize), (4, 11), (5, 12), (6, 11), (4, 10)].contains(&(x, y));
            if !piece {
                assert_eq!(g.board[x][y].state, State::Empty);
            }
        }
    }
}

#[test]
fn shift_at_left_wall_on_default_game() {
    let o = Mino { shape: Shape::ShapeO, ori: Orientation::OriD, center: [0, 5], cords: [[1, 5], [0, 6], [1, 6]] };
    let mut g = Game { curr_mino: o, ..Default::default() };
    g.board[3][3].color = [1, 2, 3];
    g.shift(false);
    assert_eq!(cells(&g.curr_mino), cells(&o));
    g.shift(true);
    assert_eq!(g.curr_mino.center, [1, 5]);
    assert_eq!(g.curr_mino.cords, [[2, 5], [1, 6], [2, 6]]);
    assert_eq!(g.board[3][3].color, [1, 2, 3]);
    assert_eq!(g.board[3][3].state, State::Empty);
}

#[test]
fn redraw_shows_shadow_over_earlier_cell() {
    let mut g = Game { curr_mino: t_piece_at([5, 1], [[4, 1], [5, 2], [6, 1]]), ..Default::default() };
    g.update_pos();
    assert_eq!(g.board[5][1].state, State::Phantom);
    for (x, y) in [(4usize, 1usize), (5, 2), (6, 1)] {
        assert_eq!(g.board[x][y].state, State::Falling);
    }
    for (x, y) in [(5usize, 0usize), (4, 0), (6, 0), (5, 1)] {
        assert_eq!(g.board[x][y].color, PURPLE);
    }
    for x in [4usize, 5, 6] {
        assert_eq!(g.board[x][0].state, State::Phantom);
    }
    assert_eq!(g.board[0][0].state, State::Empty);
}

#[test]
fn lowest_full_rows_removed_rows_between_kept() {
    let o = Mino { shape: Shape::ShapeO, ori: Orientation::OriD, center: [8, 4], cords: [[9, 4], [8, 5], [9, 5]] };
    let mut g = Game {
        curr_mino: o,
        next_minos: [Mino::from_word(1), Mino::from_word(2), Mino::from_word(3)],
        drop_ticks: 1,
        ..Default::default()
    };
    fill_row_except(&mut g, 0, &[]);
    fill_row_except(&mut g, 1, &[9]);
    fill_row_except(&mut g, 2, &[]);
    g.board[0][3] = placed_block();
    g.board[8][3] = placed_block();
    g.board[9][3] = placed_block();
    g.fall_or_place_with(6);
    assert_eq!(g.lines, 2);
    let rows: Vec<Vec<usize>> = (0..6)
        .map(|y| (0..10).filter(|&x| g.board[x][y].is_placed()).collect())
        .collect();
    assert_eq!(rows[0], vec![0, 1, 2, 3, 4, 5, 6, 7, 8]);
    assert_eq!(rows[1], vec![0, 8, 9]);
    assert_eq!(rows[2], vec![8, 9]);
    assert_eq!(rows[3], vec![8, 9]);
    assert!(rows[4].is_empty());
    assert!(rows[5].is_empty());
    assert!(matches!(g.curr_mino.shape, Shape::ShapeI));
}

#[test]
fn default_game_admits_moves_without_ticks() {
    let mut g = Game { curr_mino: Mino::from_word(6), ..Default::default() };
    assert_eq!(g.drop_ticks, 0);
    g.rotate();
    assert!(!matches!(g.curr_mino.ori, Orientation::OriD));
    g.hold_with(0);
    assert!(g.has_held);
}
