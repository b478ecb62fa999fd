use ergo::board::GoGame;
use ergo::mcts::{black_wins, score_wins, Controller, Node, EXPANSION_THRESHOLD, NODE_PRIOR};
use ergo::stone::{Stone, BLACK, EMPTY, WHITE};
use ergo::text::ParseError;
use ergo::vertex::Vertex;
use ergo::zobrist::{BoardHasher, PosHash};
use rand::SeedableRng;
use std::collections::HashMap;

fn v(x: i16, y: i16) -> Vertex {
    GoGame::vertex(x, y)
}

fn same_stones(a: &GoGame, b: &GoGame) -> bool {
    (0..441i16).all(|cell| a.stone_at(Vertex(cell)) == b.stone_at(Vertex(cell)))
}

fn generate_hashes(depth: usize, hasher: &BoardHasher, game: &mut GoGame, seen: &mut HashMap<PosHash, GoGame>) {
    if depth <= 0 {
        return;
    }

    for v in game.possible_moves(game.to_play) {
        let c = game.to_play;
        game.play(c, v);

        let hash = hasher.hash(&game);
        if seen.contains_key(&hash) {
            assert!(same_stones(game, seen.get(&hash).unwrap()));
        }

        seen.insert(hash, game.clone());

        generate_hashes(depth - 1, hasher, game, seen);

        game.undo(1);
    }
}

#[test]
fn hash_collision() {
    let mut rng = rand::StdRng::from_seed(&[42]);
    let hasher = BoardHasher::new(&mut rng);
    let mut game = GoGame::new(9);
    let mut seen = HashMap::<PosHash, GoGame>::new();

    generate_hashes(2, &hasher, &mut game, &mut seen);
}

#[test]
fn hash_combines_the_keys_of_the_cells() {
    let mut rng = rand::StdRng::from_seed(&[5]);
    let hasher = BoardHasher::new(&mut rng);
    let mut game = GoGame::new(2);
    let mut expected = PosHash::none();
    for at in [v(0, 0), v(1, 0), v(0, 1), v(1, 1)] {
        expected = expected.bitxor(hasher.hash_for(at, EMPTY));
    }
    assert_eq!(expected, hasher.hash(&game));
    game.play(BLACK, v(1, 0));
    let expected = expected.bitxor(hasher.hash_for(v(1, 0), EMPTY)).bitxor(hasher.hash_for(v(1, 0), BLACK));
    assert_eq!(expected, hasher.hash(&game));
    assert!(hasher.hash_for(v(1, 0), BLACK) != hasher.hash_for(v(1, 0), WHITE));
    assert!(hasher.hash_for(v(1, 0), BLACK) != hasher.hash_for(v(0, 1), BLACK));
    assert!(hasher.hash_for(v(-1, 0), Stone::Border) != hasher.hash_for(v(19, 19), Stone::Border));
    // the same stones in another order of play hash alike
    let mut a = GoGame::new(9);
    a.play(BLACK, v(2, 2));
    a.play(WHITE, v(3, 3));
    let mut b = GoGame::new(9);
    b.play(WHITE, v(3, 3));
    b.play(BLACK, v(2, 2));
    assert_eq!(hasher.hash(&a), hasher.hash(&b));
    assert_eq!(hasher.hash(&a), a.position_hash(&hasher));
    assert!(hasher.hash(&a) != hasher.hash(&game));
}

#[test]
fn hash_value_round_trips() {
    assert_eq!(0, PosHash::none().bits());
    assert_eq!(77, PosHash::new(77).bits());
    assert_eq!(77, PosHash::new(77).as_index());
    assert_eq!(PosHash::new(0b0110), PosHash::new(0b0101).bitxor(PosHash::new(0b0011)));
}

#[test]
fn score_needs_more_than_the_komi() {
    assert_eq!(false, score_wins(6));
    assert_eq!(true, score_wins(7));
    assert_eq!(false, score_wins(0));
    assert_eq!(false, score_wins(-361));
    assert_eq!(true, score_wins(361));
}

#[test]
fn new_node_starts_with_the_prior() {
    let node = Node::new(BLACK);
    assert_eq!(10, NODE_PRIOR);
    assert_eq!(18, EXPANSION_THRESHOLD);
    assert_eq!(BLACK, node.player);
    assert_eq!(10, node.num_plays);
    assert_eq!(5, node.num_wins);
    assert_eq!(0, node.num_rave_plays);
    assert_eq!(0, node.num_rave_wins);
    assert_eq!(0, node.children.len());
    assert_eq!(Vertex::pass(), node.vertex);
}

fn node_with(plays: u32, wins: u32, rave_plays: u32, rave_wins: u32) -> Node {
    let mut node = Node::new(BLACK);
    node.num_plays = plays;
    node.num_wins = wins;
    node.num_rave_plays = rave_plays;
    node.num_rave_wins = rave_wins;
    node
}

#[test]
fn urgency_blends_the_win_rates() {
    // without rave visits the urgency is the win rate
    assert_eq!((3500 * 5, 3500 * 10), Node::new(BLACK).rave_urgency());
    let node = node_with(20, 8, 10, 9);
    let (num, den) = node.rave_urgency();
    assert_eq!(3500 * 9 + (3500 + 10) * 8, num);
    assert_eq!(3500 * 10 + 3500 * 20 + 10 * 20, den);
    let beta = 10.0 / (10.0 + 20.0 + 10.0 * 20.0 / 3500.0);
    let blend = beta * 9.0 / 10.0 + (1.0 - beta) * 8.0 / 20.0;
    assert!((num as f64 / den as f64 - blend).abs() < 1e-12);
    assert_eq!(true, node_with(20, 8, 10, 9).is_more_urgent_than(&node_with(20, 8, 10, 8)));
    assert_eq!(false, node_with(20, 8, 10, 8).is_more_urgent_than(&node_with(20, 8, 10, 9)));
    assert_eq!(false, node_with(20, 8, 0, 0).is_more_urgent_than(&node_with(10, 4, 0, 0)));
    assert_eq!(true, node_with(20, 9, 0, 0).is_more_urgent_than(&node_with(10, 4, 0, 0)));
}

fn small_tree() -> Controller {
    let mut tree = Controller::new();
    let game = GoGame::new(2);
    tree.expand_node(0, &game);
    tree
}

#[test]
fn expansion_lists_the_legal_moves() {
    let tree = small_tree();
    assert_eq!(5, tree.nodes.len());
    assert_eq!(WHITE, tree.root().player);
    let moves: Vec<Vertex> = tree.nodes[0].children.iter().map(|c| c.0).collect();
    assert_eq!(GoGame::new(2).possible_moves(BLACK), moves);
    for (position, child) in tree.nodes[0].children.iter().enumerate() {
        assert_eq!(position + 1, child.1);
        assert_eq!(BLACK, tree.nodes[child.1].player);
        assert_eq!(child.0, tree.nodes[child.1].vertex);
        assert_eq!(0, tree.nodes[child.1].parent);
        assert_eq!(10, tree.nodes[child.1].num_plays);
    }
}

#[test]
fn best_move_is_the_first_most_visited() {
    let mut tree = small_tree();
    tree.nodes[2].num_plays = 14;
    tree.nodes[4].num_plays = 14;
    tree.nodes[3].num_plays = 12;
    let best = tree.nodes[0].best_move(&tree.nodes);
    assert_eq!((v(1, 0), 2), best);
    tree.nodes[4].num_plays = 15;
    assert_eq!((v(1, 1), 4), tree.nodes[0].best_move(&tree.nodes));
    assert_eq!(vec![(v(1, 1), 15)], tree.principal_variation());
}

#[test]
fn best_child_is_the_first_most_urgent() {
    let mut tree = small_tree();
    assert_eq!((v(0, 0), 1), tree.nodes[0].best_child(&tree.nodes));
    tree.nodes[3].num_wins = 6;
    assert_eq!((v(0, 1), 3), tree.nodes[0].best_child(&tree.nodes));
    tree.nodes[2].num_rave_plays = 4;
    tree.nodes[2].num_rave_wins = 4;
    assert_eq!((v(1, 0), 2), tree.nodes[0].best_child(&tree.nodes));
}

#[test]
fn propagation_counts_visits_wins_and_rave() {
    let mut tree = small_tree();
    let mut amaf = vec![EMPTY; 441];
    amaf[v(1, 0).as_index()] = BLACK;
    amaf[v(0, 1).as_index()] = WHITE;
    let path = vec![0, 2];
    tree.propagate(&path, true, &amaf);
    assert_eq!(1, tree.simulations);
    // the root stands for White, who lost
    assert_eq!(11, tree.nodes[0].num_plays);
    assert_eq!(5, tree.nodes[0].num_wins);
    assert_eq!(11, tree.nodes[2].num_plays);
    assert_eq!(6, tree.nodes[2].num_wins);
    assert_eq!(10, tree.nodes[1].num_plays);
    // only the child whose move its own player made first gets the rave visit
    assert_eq!(1, tree.nodes[2].num_rave_plays);
    assert_eq!(1, tree.nodes[2].num_rave_wins);
    assert_eq!(0, tree.nodes[3].num_rave_plays);
    assert_eq!(0, tree.nodes[1].num_rave_plays);
    tree.propagate(&path, false, &amaf);
    assert_eq!(12, tree.nodes[0].num_plays);
    assert_eq!(6, tree.nodes[0].num_wins);
    assert_eq!(6, tree.nodes[2].num_wins);
    assert_eq!(2, tree.nodes[2].num_rave_plays);
    assert_eq!(1, tree.nodes[2].num_rave_wins);
}

#[test]
fn descent_keeps_the_children_and_marks_the_move() {
    let mut rng = rand::StdRng::from_seed(&[9]);
    let mut tree = small_tree();
    let mut game = GoGame::new(2);
    let mut amaf = vec![EMPTY; 441];
    let before: Vec<(Vertex, usize)> = tree.nodes[0].children.clone();
    let path = tree.descend(&mut game, &mut rng, &mut amaf);
    assert_eq!(2, path.len());
    assert_eq!(0, path[0]);
    let mut after = tree.nodes[0].children.clone();
    after.sort();
    assert_eq!(before, after);
    let played = tree.nodes[path[1]].vertex;
    assert_eq!(BLACK, game.stone_at(played));
    assert_eq!(BLACK, amaf[played.as_index()]);
    assert_eq!(1, game.num_moves());
}

#[test]
fn descent_breaks_ties_at_random() {
    let mut rng = rand::StdRng::from_seed(&[13]);
    let mut tree = small_tree();
    let mut chosen = Vec::new();
    let mut orders = Vec::new();
    for _ in 0..40 {
        let mut game = GoGame::new(2);
        let mut amaf = vec![EMPTY; 441];
        let path = tree.descend(&mut game, &mut rng, &mut amaf);
        if !chosen.contains(&path[1]) {
            chosen.push(path[1]);
        }
        let order: Vec<usize> = tree.nodes[0].children.iter().map(|c| c.1).collect();
        if !orders.contains(&order) {
            orders.push(order);
        }
        // the chosen child comes first among the equally urgent children
        assert_eq!(tree.nodes[0].children[0].1, path[1]);
    }
    assert_eq!(4, chosen.len());
    assert!(orders.len() > 4);
}

#[test]
fn descent_follows_the_most_urgent_child() {
    let mut rng = rand::StdRng::from_seed(&[17]);
    let mut tree = small_tree();
    tree.nodes[3].num_wins = 7;
    for _ in 0..10 {
        let mut game = GoGame::new(2);
        let mut amaf = vec![EMPTY; 441];
        let path = tree.descend(&mut game, &mut rng, &mut amaf);
        assert_eq!(vec![0, 3], path);
        assert_eq!(BLACK, game.stone_at(v(0, 1)));
    }
}

#[test]
fn rollout_ends_with_a_score() {
    let mut rng = rand::StdRng::from_seed(&[21]);
    let mut wins = 0;
    for _ in 0..50 {
        let mut game = GoGame::new(5);
        let mut amaf = vec![EMPTY; 441];
        let black = black_wins(&mut game, WHITE, &mut rng, &mut amaf);
        if black {
            wins += 1;
            assert!(2 * game.chinese_score() > 13);
        }
        assert!(game.num_moves() > 0);
        for cell in 0..441i16 {
            let stone = game.stone_at(Vertex(cell));
            if stone == BLACK || stone == WHITE {
                assert!(amaf[cell as usize] != EMPTY);
            }
        }
    }
    assert!(wins > 0 && wins < 50);
}

#[test]
fn one_simulation_counts_once_at_the_root() {
    let mut rng = rand::StdRng::from_seed(&[2]);
    let mut tree = small_tree();
    let mut game = GoGame::new(2);
    for round in 1..=80u32 {
        game.reset();
        tree.run_rollout(&mut game, &mut rng);
        assert_eq!(round, tree.simulations);
        assert_eq!(10 + round, tree.nodes[0].num_plays);
        let visits: u32 = tree.nodes[0].children.iter().map(|c| tree.nodes[c.1].num_plays - 10).sum();
        assert_eq!(round, visits);
    }
    // a child visited often enough has got children of its own
    assert!(tree.nodes.len() > 5);
    for (index, node) in tree.nodes.iter().enumerate() {
        assert!(node.num_wins <= node.num_plays);
        assert!(node.num_rave_wins <= node.num_rave_plays);
        assert!(node.num_rave_plays <= 80);
        for child in node.children.iter() {
            assert!(child.1 > index);
            assert_eq!(index, tree.nodes[child.1].parent);
            assert_eq!(node.player.opponent(), tree.nodes[child.1].player);
        }
    }
}

#[test]
fn gen_move_gives_a_legal_move() {
    let mut rng = rand::StdRng::from_seed(&[42]);
    let mut tree = Controller::new();
    let mut game = GoGame::new(5);
    game.play(BLACK, v(2, 2));
    let before = game.empty_vertices();
    let chosen = tree.gen_move(&game, 200, &mut rng);
    assert!(game.can_play(WHITE, chosen));
    assert!(chosen != Vertex::pass());
    assert_eq!(before, game.empty_vertices());
    assert_eq!(1, game.num_moves());
    assert_eq!(200, tree.simulations);
    assert_eq!(210, tree.root().num_plays);
    assert_eq!(BLACK, tree.root().player);
    assert_eq!(chosen, tree.root().best_move(&tree.nodes).0);
    assert_eq!(chosen, tree.principal_variation()[0].0);
}

#[test]
fn gen_move_takes_the_stones_in_atari() {
    let mut rng = rand::StdRng::from_seed(&[1]);
    let mut tree = Controller::new();
    let mut game = GoGame::new(3);
    // Black holds the board but for the corner, and White's capture at the
    // last liberty is the only move that is not lost
    for (color, at) in [(BLACK, v(1, 1)), (WHITE, v(0, 0)), (BLACK, v(1, 0)), (WHITE, Vertex::pass()), (BLACK, v(0, 1))] {
        assert!(game.play(color, at));
    }
    assert_eq!(EMPTY, game.stone_at(v(0, 0)));
    let chosen = tree.gen_move(&game, 300, &mut rng);
    assert!(game.can_play(WHITE, chosen));
}

#[test]
fn gen_move_passes_without_a_legal_move() {
    let mut rng = rand::StdRng::from_seed(&[42]);
    let mut tree = Controller::new();
    let mut game = GoGame::new(3);
    for at in [v(1, 0), v(2, 0), v(0, 1), v(1, 1), v(2, 1), v(0, 2), v(1, 2)] {
        assert!(game.play(BLACK, at));
    }
    game.to_play = BLACK;
    assert_eq!(Vertex::pass(), tree.gen_move(&game, 50, &mut rng));
    assert_eq!(1, tree.nodes.len());
    assert_eq!(0, tree.simulations);
}

#[test]
fn stones_are_read_from_text() {
    for text in ["b", "black", "B", "BLACK"] {
        assert_eq!(Ok(Stone::Black), Stone::from_str(text));
    }
    for text in ["w", "white", "W", "WHITE"] {
        assert_eq!(Ok(Stone::White), Stone::from_str(text));
    }
    for text in ["", "x", "Black", "blac", "blackk", "empty", "whitE"] {
        assert_eq!(Err(ParseError::UnknownColor), Stone::from_str(text));
    }
    assert_eq!("black", Stone::Black.name());
    assert_eq!("white", Stone::White.name());
    assert_eq!("empty", Stone::Empty.name());
    assert_eq!("border", Stone::Border.name());
}

#[test]
fn vertices_are_read_from_text() {
    assert_eq!(Ok(Vertex::pass()), Vertex::from_str("pass"));
    assert_eq!(Ok(Vertex::pass()), Vertex::from_str("PASS"));
    assert_eq!(Ok(Vertex::pass()), Vertex::from_str("Pass"));
    assert_eq!(Ok(v(0, 0)), Vertex::from_str("A1"));
    assert_eq!(Ok(v(7, 8)), Vertex::from_str("H9"));
    assert_eq!(Ok(v(8, 8)), Vertex::from_str("J9"));
    assert_eq!(Ok(v(18, 18)), Vertex::from_str("T19"));
    assert_eq!(Ok(v(3, 9)), Vertex::from_str("D10"));
    assert_eq!(Ok(v(3, 4)), Vertex::from_str("D05"));
    assert_eq!(Ok(v(3, 4)), Vertex::from_str("D+5"));
    assert_eq!(Err(ParseError::BadFormat), Vertex::from_str("A"));
    assert_eq!(Err(ParseError::BadFormat), Vertex::from_str(""));
    assert_eq!(Err(ParseError::BadFormat), Vertex::from_str("A100"));
    assert_eq!(Err(ParseError::BadColumn), Vertex::from_str("I5"));
    assert_eq!(Err(ParseError::BadColumn), Vertex::from_str("a1"));
    assert_eq!(Err(ParseError::BadColumn), Vertex::from_str("U1"));
    assert_eq!(Err(ParseError::BadColumn), Vertex::from_str("11"));
    assert_eq!(Err(ParseError::BadRow), Vertex::from_str("Ax"));
    assert_eq!(Err(ParseError::BadRow), Vertex::from_str("A1x"));
    assert_eq!(Err(ParseError::BadRow), Vertex::from_str("A+"));
    assert_eq!(Err(ParseError::BadRow), Vertex::from_str("A--"));
    assert_eq!("unknown color", ParseError::UnknownColor.message());
    assert_eq!("expected Vertex of format A1", ParseError::BadFormat.message());
    assert_eq!("column must be A - T", ParseError::BadColumn.message());
    assert_eq!("row must be integer", ParseError::BadRow.message());
}

#[test]
fn vertices_are_written_as_text() {
    assert_eq!("PASS", Vertex::pass().label());
    assert_eq!("A1", v(0, 0).label());
    assert_eq!("J9", v(8, 8).label());
    assert_eq!("T19", v(18, 18).label());
    assert_eq!("D10", v(3, 9).label());
    assert_eq!("a0", v(-1, -1).label());
    assert_eq!("u20", v(19, 19).label());
    for x in 0..19i16 {
        for y in 0..19i16 {
            assert_eq!(Ok(v(x, y)), Vertex::from_str(&v(x, y).label()));
        }
    }
    assert_eq!("0", ergo::text::decimal_text(0));
    assert_eq!("1560", ergo::text::decimal_text(1560));
    assert_eq!("65535", ergo::text::decimal_text(65535));
}
