use ergo::board::GoGame;
use ergo::stone::{Stone, BLACK, EMPTY, WHITE};
use ergo::vertex::{diag_neighbours, neighbours, Vertex, MAX_SIZE, VIRT_LEN};
use rand::SeedableRng;

#[test]
fn stone_opponent() {
    assert_eq!(WHITE, BLACK.opponent());
    assert_eq!(BLACK, WHITE.opponent());
}

#[test]
fn vertex_neighbours() {
    for col in 0..MAX_SIZE as i16 {
        for row in 0..MAX_SIZE as i16 {
            let mut expected = vec![
                GoGame::vertex(col - 1, row),
                GoGame::vertex(col + 1, row),
                GoGame::vertex(col, row - 1),
                GoGame::vertex(col, row + 1),
            ]
            .clone();
            expected.sort();
            let mut got = neighbours(GoGame::vertex(col, row)).to_vec();
            got.sort();
            assert_eq!(expected, got);

            let mut expected = vec![
                GoGame::vertex(col - 1, row - 1),
                GoGame::vertex(col + 1, row - 1),
                GoGame::vertex(col - 1, row + 1),
                GoGame::vertex(col + 1, row + 1),
            ]
            .clone();
            expected.sort();
            let mut got = diag_neighbours(GoGame::vertex(col, row)).to_vec();
            got.sort();
            assert_eq!(expected, got);
        }
    }
}

#[test]
fn can_play_single_stone() {
    let mut game = GoGame::new(9);
    let v = GoGame::vertex(2, 2);
    game.play(BLACK, v);
    assert_eq!(4, game.num_pseudo_liberties(v));
    assert_eq!(false, game.can_play(BLACK, v));
}

#[test]
fn can_remove_liberties() {
    let mut game = GoGame::new(9);
    game.play(BLACK, GoGame::vertex(2, 2));
    game.play(WHITE, GoGame::vertex(3, 2));
    assert_eq!(3, game.num_pseudo_liberties(GoGame::vertex(2, 2)));
    assert_eq!(3, game.num_pseudo_liberties(GoGame::vertex(3, 2)));
}

#[test]
fn can_join_strings() {
    let mut game = GoGame::new(9);
    let v = GoGame::vertex(2, 2);
    game.play(BLACK, GoGame::vertex(2, 2));
    game.play(BLACK, GoGame::vertex(3, 2));
    assert_eq!(6, game.num_pseudo_liberties(v));
}

#[test]
fn can_capture_single_stone() {
    let mut game = GoGame::new(9);
    game.play(WHITE, GoGame::vertex(2, 2));
    game.play(BLACK, GoGame::vertex(1, 2));
    game.play(BLACK, GoGame::vertex(3, 2));
    game.play(BLACK, GoGame::vertex(2, 1));
    game.play(BLACK, GoGame::vertex(2, 3));
    assert_eq!(EMPTY, game.stone_at(GoGame::vertex(2, 2)));
}

#[test]
fn freedoms_after_capture() {
    let mut game = GoGame::new(9);
    game.play(WHITE, GoGame::vertex(0, 0));
    game.play(BLACK, GoGame::vertex(1, 0));
    game.play(BLACK, GoGame::vertex(1, 1));
    game.play(BLACK, GoGame::vertex(0, 1));
    assert_eq!(EMPTY, game.stone_at(GoGame::vertex(0, 0)));
    assert_eq!(6, game.num_pseudo_liberties(GoGame::vertex(0, 1)));
}

#[test]
fn initially_all_moves_possible() {
    let game = GoGame::new(9);
    assert_eq!(game.possible_moves(BLACK).len(), 81);
}

#[test]
fn forbid_filling_real_eye() {
    let mut game = GoGame::new(9);
    game.play(BLACK, GoGame::vertex(0, 0));
    game.play(BLACK, GoGame::vertex(0, 1));
    game.play(BLACK, GoGame::vertex(0, 2));
    game.play(BLACK, GoGame::vertex(1, 0));
    game.play(BLACK, GoGame::vertex(1, 2));
    game.play(BLACK, GoGame::vertex(2, 0));
    game.play(BLACK, GoGame::vertex(2, 1));
    assert_eq!(false, game.can_play(BLACK, GoGame::vertex(1, 1)));
}

#[test]
fn forbid_filling_real_eyes_of_split_group() {
    let mut game = GoGame::new(9);
    game.play(BLACK, GoGame::vertex(0, 0));
    game.play(BLACK, GoGame::vertex(0, 2));
    game.play(BLACK, GoGame::vertex(1, 1));
    game.play(BLACK, GoGame::vertex(1, 2));
    game.play(BLACK, GoGame::vertex(2, 0));
    game.play(BLACK, GoGame::vertex(2, 1));
    assert_eq!(false, game.can_play(BLACK, GoGame::vertex(0, 1)));
    assert_eq!(false, game.can_play(BLACK, GoGame::vertex(1, 0)));
}

#[test]
fn uniform_move_distribution() {
    let mut rng = rand::StdRng::from_seed(&[42]);
    let game = GoGame::new(9);
    let num_valid_moves = game.possible_moves(BLACK).len() as f64;
    let num_samples = 100000;
    let mut count = vec![0; VIRT_LEN];
    for _ in 0..num_samples {
        count[game.random_move(BLACK, &mut rng).as_index()] += 1;
    }
    for v in game.possible_moves(BLACK) {
        let frac = count[v.as_index()] as f64 / num_samples as f64 * num_valid_moves;
        assert!(frac > 0.9 && frac < 1.1, "{}", format!("{}", frac));
    }
}

#[test]
fn chinese_score_full_board() {
    let mut game = GoGame::new(9);
    for v in game.possible_moves(BLACK) {
        game.play(BLACK, v);
    }
    assert_eq!(9 * 9, game.chinese_score());
}

#[test]
fn reset_game() {
    let mut game = GoGame::new(9);
    assert_eq!(81, game.possible_moves(BLACK).len());
    game.play(BLACK, GoGame::vertex(0, 0));
    assert_eq!(80, game.possible_moves(BLACK).len());
    game.reset();
    assert_eq!(81, game.possible_moves(BLACK).len());
}

fn sorted(mut v: Vec<Vertex>) -> Vec<Vertex> {
    v.sort();
    v
}

#[test]
fn test_can_play_single_stone() {
    let mut game = GoGame::new(9);
    let v = GoGame::vertex(2, 2);
    game.play(Stone::Black, v);
    let mut expected = vec![GoGame::vertex(2, 1), GoGame::vertex(1, 2), GoGame::vertex(3, 2), GoGame::vertex(2, 3)];
    expected.sort();
    let mut got = game.liberties(v).clone();
    got.sort();
    assert_eq!(expected, got);
}

#[test]
fn test_can_remove_liberties() {
    let mut game = GoGame::new(9);
    game.play(Stone::Black, GoGame::vertex(2, 2));
    game.play(Stone::White, GoGame::vertex(3, 2));
    let mut expected = vec![GoGame::vertex(2, 1), GoGame::vertex(1, 2), GoGame::vertex(2, 3)];
    expected.sort();
    let mut got = game.liberties(GoGame::vertex(2, 2)).clone();
    got.sort();
    assert_eq!(expected, got);

    let mut expected = vec![GoGame::vertex(3, 1), GoGame::vertex(3, 3), GoGame::vertex(4, 2)];
    expected.sort();
    let mut got = game.liberties(GoGame::vertex(3, 2)).clone();
    got.sort();
    assert_eq!(expected, got);
}

#[test]
fn test_can_join_strings() {
    let mut game = GoGame::new(9);
    let v = GoGame::vertex(2, 2);
    game.play(Stone::Black, GoGame::vertex(2, 2));
    game.play(Stone::Black, GoGame::vertex(3, 2));
    let mut expected = vec![
        GoGame::vertex(2, 1),
        GoGame::vertex(1, 2),
        GoGame::vertex(2, 3),
        GoGame::vertex(3, 1),
        GoGame::vertex(3, 3),
        GoGame::vertex(4, 2),
    ];
    expected.sort();
    let mut got = game.liberties(v).clone();
    got.sort();
    assert_eq!(expected, got);
}

#[test]
fn test_can_capture_single_stone() {
    let mut game = GoGame::new(9);
    game.play(Stone::White, GoGame::vertex(2, 2));
    game.play(Stone::Black, GoGame::vertex(1, 2));
    game.play(Stone::Black, GoGame::vertex(3, 2));
    game.play(Stone::Black, GoGame::vertex(2, 1));
    game.play(Stone::Black, GoGame::vertex(2, 3));
    assert_eq!(Stone::Empty, game.stone_at(GoGame::vertex(2, 2)));
}

#[test]
fn test_freedoms_after_capture() {
    let mut game = GoGame::new(9);
    game.play(Stone::White, GoGame::vertex(0, 0));
    game.play(Stone::Black, GoGame::vertex(1, 0));
    game.play(Stone::Black, GoGame::vertex(1, 1));
    game.play(Stone::Black, GoGame::vertex(0, 1));
    assert_eq!(Stone::Empty, game.stone_at(GoGame::vertex(0, 0)));

    let mut expected = vec![
        GoGame::vertex(0, 0),
        GoGame::vertex(0, 2),
        GoGame::vertex(1, 2),
        GoGame::vertex(2, 0),
        GoGame::vertex(2, 1),
    ];
    expected.sort();
    let mut got = game.liberties(GoGame::vertex(0, 1)).clone();
    got.sort();
    assert_eq!(expected, got);
}

#[test]
fn test_initially_all_moves_possible() {
    let game = GoGame::new(9);
    assert_eq!(game.possible_moves(Stone::Black).len(), 81);
}

#[test]
fn test_forbid_filling_real_eye() {
    let mut game = GoGame::new(9);
    game.play(Stone::Black, GoGame::vertex(0, 0));
    game.play(Stone::Black, GoGame::vertex(0, 1));
    game.play(Stone::Black, GoGame::vertex(0, 2));
    game.play(Stone::Black, GoGame::vertex(1, 0));
    game.play(Stone::Black, GoGame::vertex(1, 2));
    game.play(Stone::Black, GoGame::vertex(2, 0));
    game.play(Stone::Black, GoGame::vertex(2, 1));
    assert_eq!(false, game.can_play(Stone::Black, GoGame::vertex(1, 1)));
}

#[test]
fn test_forbid_filling_real_eyes_of_split_group() {
    let mut game = GoGame::new(9);
    game.play(Stone::Black, GoGame::vertex(0, 0));
    game.play(Stone::Black, GoGame::vertex(0, 2));
    game.play(Stone::Black, GoGame::vertex(1, 1));
    game.play(Stone::Black, GoGame::vertex(1, 2));
    game.play(Stone::Black, GoGame::vertex(2, 0));
    game.play(Stone::Black, GoGame::vertex(2, 1));
    assert_eq!(false, game.can_play(Stone::Black, GoGame::vertex(0, 1)));
    assert_eq!(false, game.can_play(Stone::Black, GoGame::vertex(1, 0)));
}

#[test]
fn go_can_play_single_stone() {
    let mut game = GoGame::new(9);
    let v = GoGame::vertex(2, 2);
    game.play(Stone::Black, v);
    let expected = sorted(vec![GoGame::vertex(2, 1), GoGame::vertex(1, 2), GoGame::vertex(3, 2), GoGame::vertex(2, 3)]);
    let got = sorted(game.liberties(v).clone());
    assert_eq!(expected, got);
}

#[test]
fn go_can_remove_liberties() {
    let mut game = GoGame::new(9);
    game.play(Stone::Black, GoGame::vertex(2, 2));
    game.play(Stone::White, GoGame::vertex(3, 2));
    let expected = sorted(vec![GoGame::vertex(2, 1), GoGame::vertex(1, 2), GoGame::vertex(2, 3)]);
    let got = sorted(game.liberties(GoGame::vertex(2, 2)).clone());
    assert_eq!(expected, got);

    let expected = sorted(vec![GoGame::vertex(3, 1), GoGame::vertex(3, 3), GoGame::vertex(4, 2)]);
    let got = sorted(game.liberties(GoGame::vertex(3, 2)).clone());
    assert_eq!(expected, got);
}

#[test]
fn go_can_join_strings() {
    let mut game = GoGame::new(9);
    let v = GoGame::vertex(2, 2);
    game.play(Stone::Black, GoGame::vertex(2, 2));
    game.play(Stone::Black, GoGame::vertex(3, 2));
    let expected = sorted(vec![
        GoGame::vertex(2, 1),
        GoGame::vertex(1, 2),
        GoGame::vertex(2, 3),
        GoGame::vertex(3, 1),
        GoGame::vertex(3, 3),
        GoGame::vertex(4, 2),
    ]);
    let got = sorted(game.liberties(v).clone());
    assert_eq!(expected, got);
}

#[test]
fn go_can_capture_single_stone() {
    let mut game = GoGame::new(9);
    game.play(Stone::White, GoGame::vertex(2, 2));
    game.play(Stone::Black, GoGame::vertex(1, 2));
    game.play(Stone::Black, GoGame::vertex(3, 2));
    game.play(Stone::Black, GoGame::vertex(2, 1));
    game.play(Stone::Black, GoGame::vertex(2, 3));
    assert_eq!(0, game.liberties(GoGame::vertex(2, 2)).len());
    assert_eq!(Stone::Empty, game.stone_at(GoGame::vertex(2, 2)));
}

#[test]
fn go_freedoms_after_capture() {
    let mut game = GoGame::new(9);
    game.play(Stone::White, GoGame::vertex(0, 0));
    game.play(Stone::Black, GoGame::vertex(1, 0));
    game.play(Stone::Black, GoGame::vertex(1, 1));
    game.play(Stone::Black, GoGame::vertex(0, 1));
    assert_eq!(0, game.liberties(GoGame::vertex(0, 0)).len());
    assert_eq!(Stone::Empty, game.stone_at(GoGame::vertex(0, 0)));

    let expected = sorted(vec![
        GoGame::vertex(0, 0),
        GoGame::vertex(0, 2),
        GoGame::vertex(1, 2),
        GoGame::vertex(2, 0),
        GoGame::vertex(2, 1),
    ]);
    assert_eq!(expected, game.liberties(GoGame::vertex(0, 1)).clone());
}

#[test]
fn clone_test() {
    let mut a = GoGame::new(19);
    let b = a.clone();
    a.play(Stone::Black, GoGame::vertex(0, 0));
    assert_eq!(0, b.num_moves());
    assert_eq!(Stone::Empty, b.stone_at(GoGame::vertex(0, 0)));
    let c = a.clone();
    a.play(Stone::White, GoGame::vertex(1, 0));
    assert_eq!(0, c.liberties(GoGame::vertex(1, 0)).len());
    assert_eq!(Stone::Black, c.stone_at(GoGame::vertex(0, 0)));
    assert_eq!(Stone::Empty, c.stone_at(GoGame::vertex(1, 0)));
}
