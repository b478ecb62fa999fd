use ergo::board::GoGame;
use ergo::stone::{Stone, BLACK, BORDER, EMPTY, WHITE};
use ergo::string::String as GoString;
use ergo::vertex::{Vertex, PASS_INDEX, VIRT_LEN, VIRT_SIZE};
use rand::SeedableRng;

fn v(x: i16, y: i16) -> Vertex {
    GoGame::vertex(x, y)
}

fn empty_neighbours(game: &GoGame, at: Vertex) -> u16 {
    let mut n = 0;
    for d in [-1i16, 1, -21, 21] {
        if game.stone_at(Vertex(at.0 + d)) == EMPTY {
            n += 1;
        }
    }
    n
}

// What the invariant promises of a position at rest, checked by hand.
fn check_position(game: &GoGame) {
    let size = game.size() as i16;
    let mut empties = 0;
    for y in 0..size {
        for x in 0..size {
            let at = v(x, y);
            let stone = game.stone_at(at);
            if stone == EMPTY {
                empties += 1;
                assert_eq!(empty_neighbours(game, at), game.num_pseudo_liberties(at));
                assert_eq!(0, game.group(at).len());
                continue;
            }
            let group = game.group(at);
            assert_eq!(at, group[0]);
            assert_eq!(group.len(), game.string(at).stones() as usize);
            assert_eq!(stone, game.string(at).color());
            let mut pseudo = 0;
            for member in group.iter() {
                assert_eq!(stone, game.stone_at(*member));
                pseudo += empty_neighbours(game, *member);
            }
            assert_eq!(pseudo, game.num_pseudo_liberties(at));
            assert!(pseudo > 0);
            let liberties = game.liberties(at);
            assert!(liberties.len() > 0);
            assert_eq!(liberties.len() == 1, game.string(at).in_atari());
        }
    }
    assert_eq!(empties, game.num_empty());
    assert_eq!(empties, game.empty_vertices().len());
}

#[test]
fn random_games_keep_the_invariant() {
    let mut rng = rand::StdRng::from_seed(&[7]);
    for size in [5usize, 9] {
        let mut game = GoGame::new(size);
        for _ in 0..3 {
            game.reset();
            let mut color = WHITE;
            let mut passes = 0;
            let mut moves = 0;
            while passes < 2 && moves < 400 {
                color = color.opponent();
                moves += 1;
                let at = game.random_move(color, &mut rng);
                if at.0 == PASS_INDEX {
                    passes += 1;
                } else {
                    assert!(game.can_play(color, at));
                    assert!(game.play(color, at));
                    passes = 0;
                }
                check_position(&game);
            }
        }
    }
}

#[test]
fn atari_test_agrees_with_liberties() {
    let mut game = GoGame::new(9);
    game.play(BLACK, v(4, 4));
    assert_eq!(false, game.string(v(4, 4)).in_atari());
    game.play(WHITE, v(3, 4));
    game.play(WHITE, v(5, 4));
    game.play(WHITE, v(4, 3));
    assert_eq!(vec![v(4, 5)], game.liberties(v(4, 4)));
    assert_eq!(true, game.string(v(4, 4)).in_atari());
    assert_eq!(1, game.num_pseudo_liberties(v(4, 4)));
    // two stones that share their only liberty
    let mut game = GoGame::new(9);
    game.play(BLACK, v(0, 0));
    game.play(BLACK, v(1, 1));
    game.play(WHITE, v(2, 0));
    game.play(WHITE, v(2, 1));
    game.play(WHITE, v(1, 2));
    game.play(WHITE, v(0, 2));
    game.play(BLACK, v(0, 1));
    assert_eq!(3, game.group(v(0, 0)).len());
    assert_eq!(vec![v(1, 0)], game.liberties(v(0, 0)));
    assert_eq!(2, game.num_pseudo_liberties(v(0, 0)));
    assert_eq!(true, game.string(v(0, 0)).in_atari());
}

#[test]
fn new_board_is_empty() {
    for size in [0usize, 2, 5, 9, 13, 19] {
        let game = GoGame::new(size);
        assert_eq!(size * size, game.possible_moves(BLACK).len());
        assert_eq!(size * size, game.possible_moves(WHITE).len());
        assert_eq!(0, game.chinese_score());
        assert_eq!(size * size, game.num_empty());
        assert_eq!(BLACK, game.side_to_move());
        assert_eq!(BLACK, game.to_play);
        assert_eq!(0, game.num_moves());
        assert_eq!(size, game.size());
    }
}

#[test]
fn single_cell_board_is_an_eye() {
    let game = GoGame::new(1);
    assert_eq!(1, game.num_empty());
    assert_eq!(0, game.possible_moves(BLACK).len());
    assert_eq!(1, game.chinese_score());
    assert_eq!(false, game.can_play(BLACK, v(0, 0)));
}

#[test]
fn empty_cells_are_listed_row_by_row() {
    let game = GoGame::new(3);
    let expected = vec![v(0, 0), v(1, 0), v(2, 0), v(0, 1), v(1, 1), v(2, 1), v(0, 2), v(1, 2), v(2, 2)];
    assert_eq!(expected, game.empty_vertices());
    assert_eq!(expected, game.possible_moves(BLACK));
}

#[test]
fn border_surrounds_the_board() {
    let game = GoGame::new(9);
    assert_eq!(BORDER, game.stone_at(v(-1, 0)));
    assert_eq!(BORDER, game.stone_at(v(9, 3)));
    assert_eq!(BORDER, game.stone_at(v(3, 9)));
    assert_eq!(BORDER, game.stone_at(v(19, 19)));
    assert_eq!(BORDER, game.stone_at(Vertex(-7)));
    assert_eq!(BORDER, game.stone_at(Vertex(441)));
    assert_eq!(EMPTY, game.stone_at(v(8, 8)));
    assert_eq!(false, game.can_play(BLACK, v(9, 0)));
    assert_eq!(false, game.can_play(BLACK, Vertex(-5)));
    assert_eq!(false, game.can_play(BLACK, Vertex(2000)));
    assert_eq!(true, game.can_play(BLACK, Vertex::pass()));
}

#[test]
fn illegal_move_changes_nothing() {
    let mut game = GoGame::new(9);
    assert_eq!(true, game.play(BLACK, v(2, 2)));
    assert_eq!(false, game.play(WHITE, v(2, 2)));
    assert_eq!(false, game.play(WHITE, v(9, 9)));
    assert_eq!(1, game.num_moves());
    assert_eq!(WHITE, game.side_to_move());
    assert_eq!(BLACK, game.stone_at(v(2, 2)));
    assert_eq!(80, game.num_empty());
    assert_eq!(v(2, 2), game.move_at(0));
}

#[test]
fn pass_is_recorded() {
    let mut game = GoGame::new(9);
    assert_eq!(true, game.play(BLACK, Vertex::pass()));
    assert_eq!(1, game.num_moves());
    assert_eq!(WHITE, game.side_to_move());
    assert_eq!(81, game.num_empty());
    assert_eq!(vec![Vertex::pass()], game.moves());
}

#[test]
fn eye_rule_counts_diagonals() {
    // an eye in the middle with one diagonal lost stays an eye
    let mut game = GoGame::new(9);
    for at in [v(4, 3), v(3, 4), v(5, 4), v(4, 5)] {
        game.play(BLACK, at);
    }
    game.play(WHITE, v(3, 3));
    assert_eq!(false, game.can_play(BLACK, v(4, 4)));
    // with two diagonals lost it is no eye any more, and filling it joins
    // strings that keep liberties
    game.play(WHITE, v(5, 5));
    assert_eq!(true, game.can_play(BLACK, v(4, 4)));
    // White may not play there: it would have no liberty and capture nothing
    assert_eq!(false, game.can_play(WHITE, v(4, 4)));
}

#[test]
fn suicide_is_forbidden_and_capture_allowed() {
    let mut game = GoGame::new(9);
    game.play(BLACK, v(1, 0));
    game.play(BLACK, v(0, 1));
    assert_eq!(false, game.can_play(WHITE, v(0, 0)));
    // once the two stones are in atari the same move captures
    game.play(WHITE, v(2, 0));
    game.play(WHITE, v(1, 1));
    game.play(WHITE, v(0, 2));
    assert_eq!(true, game.can_play(WHITE, v(0, 0)));
    assert_eq!(true, game.play(WHITE, v(0, 0)));
    assert_eq!(EMPTY, game.stone_at(v(1, 0)));
    assert_eq!(EMPTY, game.stone_at(v(0, 1)));
    assert_eq!(WHITE, game.stone_at(v(0, 0)));
    assert_eq!(2, game.num_pseudo_liberties(v(0, 0)));
}

#[test]
fn captured_stones_return_to_the_empty_list() {
    let mut game = GoGame::new(9);
    game.play(WHITE, v(3, 3));
    game.play(WHITE, v(4, 3));
    for at in [v(3, 2), v(4, 2), v(2, 3), v(5, 3), v(3, 4)] {
        game.play(BLACK, at);
    }
    assert_eq!(81 - 7, game.num_empty());
    assert_eq!(true, game.play(BLACK, v(4, 4)));
    assert_eq!(EMPTY, game.stone_at(v(3, 3)));
    assert_eq!(EMPTY, game.stone_at(v(4, 3)));
    assert_eq!(81 - 6, game.num_empty());
    let empties = game.empty_vertices();
    // the chain is read from the neighbour of the capturing stone on
    assert_eq!(v(4, 3), empties[empties.len() - 2]);
    assert_eq!(v(3, 3), empties[empties.len() - 1]);
    assert_eq!(6, game.chinese_score());
}

#[test]
fn simple_ko_is_forbidden_once() {
    let mut game = GoGame::new(9);
    for at in [v(1, 0), v(0, 1), v(1, 2)] {
        game.play(BLACK, at);
    }
    for at in [v(2, 0), v(3, 1), v(2, 2)] {
        game.play(WHITE, at);
    }
    game.play(BLACK, v(2, 1));
    // White takes the stone at (2,1) by playing into the eye at (1,1)
    assert_eq!(true, game.play(WHITE, v(1, 1)));
    assert_eq!(EMPTY, game.stone_at(v(2, 1)));
    // Black may not take back at once
    assert_eq!(false, game.can_play(BLACK, v(2, 1)));
    assert_eq!(false, game.play(BLACK, v(2, 1)));
    // after a move elsewhere the ko is open again
    assert_eq!(true, game.play(BLACK, v(7, 7)));
    assert_eq!(true, game.play(WHITE, v(7, 6)));
    assert_eq!(true, game.can_play(BLACK, v(2, 1)));
    assert_eq!(true, game.play(BLACK, v(2, 1)));
    assert_eq!(EMPTY, game.stone_at(v(1, 1)));
}

#[test]
fn pass_clears_the_ko() {
    let mut game = GoGame::new(9);
    for at in [v(1, 0), v(0, 1), v(1, 2)] {
        game.play(BLACK, at);
    }
    for at in [v(2, 0), v(3, 1), v(2, 2)] {
        game.play(WHITE, at);
    }
    game.play(BLACK, v(2, 1));
    game.play(WHITE, v(1, 1));
    assert_eq!(false, game.can_play(BLACK, v(2, 1)));
    game.play(BLACK, Vertex::pass());
    assert_eq!(true, game.can_play(BLACK, v(2, 1)));
}

#[test]
fn join_keeps_the_largest_string() {
    let mut game = GoGame::new(9);
    game.play(BLACK, v(2, 2));
    game.play(BLACK, v(3, 2));
    game.play(BLACK, v(5, 2));
    game.play(BLACK, v(4, 2));
    let group = game.group(v(4, 2));
    assert_eq!(4, group.len());
    assert_eq!(4, game.string(v(5, 2)).stones());
    assert_eq!(10, game.num_pseudo_liberties(v(5, 2)));
    let mut sorted = group.clone();
    sorted.sort();
    assert_eq!(vec![v(2, 2), v(3, 2), v(4, 2), v(5, 2)], sorted);
    assert_eq!(game.group(v(2, 2)).len(), 4);
}

#[test]
fn score_counts_stones_and_eyes() {
    let mut game = GoGame::new(9);
    for row in [0i16, 2, 4, 6, 8] {
        game.play(BLACK, v(0, row));
    }
    assert_eq!(5, game.chinese_score());
    game.play(WHITE, v(5, 5));
    game.play(WHITE, v(6, 5));
    assert_eq!(3, game.chinese_score());
    // a white eye in the corner
    game.play(WHITE, v(7, 8));
    game.play(WHITE, v(8, 7));
    assert_eq!(0, game.chinese_score());
    // a black eye on the edge
    game.play(BLACK, v(1, 1));
    assert_eq!(2, game.chinese_score());
}

#[test]
fn reset_gives_the_new_board() {
    let mut rng = rand::StdRng::from_seed(&[3]);
    let mut game = GoGame::new(9);
    let mut color = WHITE;
    for _ in 0..60 {
        color = color.opponent();
        let at = game.random_move(color, &mut rng);
        game.play(color, at);
    }
    game.reset();
    let fresh = GoGame::new(9);
    assert_eq!(fresh.possible_moves(BLACK), game.possible_moves(BLACK));
    assert_eq!(fresh.possible_moves(WHITE), game.possible_moves(WHITE));
    assert_eq!(fresh.chinese_score(), game.chinese_score());
    assert_eq!(fresh.side_to_move(), game.side_to_move());
    assert_eq!(fresh.num_moves(), game.num_moves());
    assert_eq!(fresh.empty_vertices(), game.empty_vertices());
    for cell in 0..VIRT_LEN as i16 {
        assert_eq!(fresh.stone_at(Vertex(cell)), game.stone_at(Vertex(cell)));
        assert_eq!(fresh.num_pseudo_liberties(Vertex(cell)), game.num_pseudo_liberties(Vertex(cell)));
    }
}

#[test]
fn undo_replays_the_earlier_moves() {
    let mut game = GoGame::new(9);
    game.play(BLACK, v(2, 2));
    game.play(WHITE, v(3, 3));
    game.play(BLACK, v(4, 4));
    assert_eq!(false, game.undo(4));
    assert_eq!(3, game.num_moves());
    assert_eq!(true, game.undo(1));
    assert_eq!(2, game.num_moves());
    assert_eq!(BLACK, game.stone_at(v(2, 2)));
    assert_eq!(WHITE, game.stone_at(v(3, 3)));
    assert_eq!(EMPTY, game.stone_at(v(4, 4)));
    assert_eq!(BLACK, game.side_to_move());
    assert_eq!(true, game.undo(2));
    assert_eq!(0, game.num_moves());
    assert_eq!(81, game.num_empty());
    assert_eq!(true, game.undo(0));
}

#[test]
fn replay_tries_the_moves_in_turn() {
    let mut game = GoGame::new(9);
    let moves = vec![v(0, 0), v(0, 0), v(1, 0), v(0, 1)];
    game.replay(&moves, 4);
    // the second move is illegal and is left out, so Black plays the fourth
    assert_eq!(BLACK, game.stone_at(v(0, 0)));
    assert_eq!(WHITE, game.stone_at(v(1, 0)));
    assert_eq!(BLACK, game.stone_at(v(0, 1)));
    assert_eq!(3, game.num_moves());
    game.replay(&moves, 1);
    assert_eq!(1, game.num_moves());
    assert_eq!(EMPTY, game.stone_at(v(1, 0)));
}

#[test]
fn first_legal_move_is_found_in_cyclic_order() {
    let mut game = GoGame::new(3);
    assert_eq!(v(1, 1), game.first_legal_from(BLACK, 4));
    assert_eq!(Vertex::pass(), game.first_legal_from(BLACK, 9));
    // fill the board but for two eyes
    for at in [v(1, 0), v(2, 0), v(0, 1), v(1, 1), v(2, 1), v(0, 2), v(1, 2)] {
        assert!(game.play(BLACK, at));
    }
    assert_eq!(vec![v(0, 0), v(2, 2)], game.empty_vertices());
    assert_eq!(Vertex::pass(), game.first_legal_from(BLACK, 0));
    assert_eq!(Vertex::pass(), game.first_legal_from(BLACK, 1));
    let mut rng = rand::StdRng::from_seed(&[42]);
    assert_eq!(Vertex::pass(), game.random_move(BLACK, &mut rng));
    // White can not play into the eyes either
    assert_eq!(Vertex::pass(), game.random_move(WHITE, &mut rng));
}

#[test]
fn random_move_is_a_legal_empty_cell() {
    let mut rng = rand::StdRng::from_seed(&[11]);
    let mut game = GoGame::new(9);
    game.play(BLACK, v(4, 4));
    for _ in 0..1000 {
        let at = game.random_move(WHITE, &mut rng);
        assert!(at.0 != PASS_INDEX);
        assert!(game.can_play(WHITE, at));
        assert_eq!(EMPTY, game.stone_at(at));
    }
}

#[test]
fn random_move_on_a_board_without_cells_is_the_pass() {
    let mut rng = rand::StdRng::from_seed(&[42]);
    let game = GoGame::new(0);
    assert_eq!(Vertex::pass(), game.random_move(BLACK, &mut rng));
}

#[test]
fn vertex_packs_coordinates() {
    assert_eq!(21, VIRT_SIZE);
    assert_eq!(441, VIRT_LEN);
    assert_eq!(Vertex(22), Vertex::new(0, 0));
    assert_eq!(Vertex(0), Vertex::new(-1, -1));
    assert_eq!(Vertex(440), Vertex::new(19, 19));
    assert_eq!(Vertex(3 + 1 + (5 + 1) * 21), Vertex::new(3, 5));
    assert_eq!((3, 5), Vertex::new(3, 5).to_coords());
    assert_eq!((-1, -1), Vertex(0).to_coords());
    assert_eq!((19, 19), Vertex(440).to_coords());
    assert_eq!((-2, -1), Vertex::pass().to_coords());
    assert_eq!((-2, -2), Vertex(-22).to_coords());
    assert_eq!(130, Vertex::new(3, 5).as_index());
    assert_eq!(-1, Vertex::pass().0);
    for x in 0..19i16 {
        for y in 0..19i16 {
            assert_eq!((x, y), Vertex::new(x, y).to_coords());
        }
    }
}

#[test]
fn string_counters_follow_the_liberties() {
    let mut s = GoString::new();
    assert_eq!(0, s.pseudo_liberties());
    assert_eq!(0, s.stones());
    assert_eq!(EMPTY, s.color());
    // no liberty at all passes the test for a single one
    assert_eq!(true, s.in_atari());
    s.add_liberty(Vertex(100));
    assert_eq!(true, s.in_atari());
    s.add_liberty(Vertex(100));
    assert_eq!(2, s.pseudo_liberties());
    assert_eq!(true, s.in_atari());
    s.add_liberty(Vertex(101));
    assert_eq!(false, s.in_atari());
    s.remove_liberty(Vertex(101));
    assert_eq!(true, s.in_atari());
    s.remove_liberty(Vertex(100));
    s.remove_liberty(Vertex(100));
    assert_eq!(0, s.pseudo_liberties());
    assert_eq!(0, s.num_pseudo_liberties);

    let mut a = GoString::new();
    a.set_stones(Stone::Black, 2);
    a.add_liberty(Vertex(30));
    let mut b = GoString::new();
    b.set_stones(Stone::Black, 3);
    b.add_liberty(Vertex(30));
    b.add_liberty(Vertex(440));
    a.merge(&b);
    assert_eq!(5, a.stones());
    assert_eq!(5, a.num_stones);
    assert_eq!(3, a.pseudo_liberties());
    assert_eq!(Stone::Black, a.color());
    assert_eq!(false, a.in_atari());
    a.remove_liberty(Vertex(440));
    assert_eq!(true, a.in_atari());

    let mut border = GoString::new();
    border.reset_border();
    assert_eq!(4, border.pseudo_liberties());
    assert_eq!(false, border.in_atari());
    border.remove_liberty(Vertex(22));
    assert_eq!(3, border.pseudo_liberties());
    assert_eq!(false, border.in_atari());
    border.reset();
    assert_eq!(0, border.pseudo_liberties());
}

#[test]
fn large_string_counters_do_not_wrap() {
    // every second row full of black stones, joined along the left edge
    let mut game = GoGame::new(19);
    for y in 0..19i16 {
        for x in 0..19i16 {
            if y % 2 == 0 || x == 0 {
                assert!(game.play(BLACK, v(x, y)));
            }
        }
    }
    let stones = 10 * 19 + 9;
    assert_eq!(stones, game.group(v(0, 0)).len());
    assert_eq!(stones as u16, game.string(v(0, 0)).stones());
    // each of the nine gaps has 18 empty cells, each below and above a stone,
    // and the first of them is also next to the edge stone
    assert_eq!(9 * (18 * 2 + 1), game.num_pseudo_liberties(v(0, 0)));
    assert_eq!(9 * 18, game.liberties(v(0, 0)).len());
    assert_eq!(false, game.string(v(0, 0)).in_atari());
    // no empty cell is an eye: each has an empty cell beside it
    assert_eq!(199, game.chinese_score());
}
