use mcc4::ai_player::{
    best_scored, fast_range, last_max, outcome_score, simulate_game, ChildScore, SearchTree,
};
use mcc4::{ConnectFour, MonteCarloPlayer, Player, TreeSearchPlayer, Winner};
use rand_xoshiro::rand_core::SeedableRng;
use rand_xoshiro::Xoshiro256StarStar;

/// UCB1 with exploration constant 5, scaled to an integer.
struct Ucb1;

impl ChildScore for Ucb1 {
    fn score_of(&self, parent_visits: u64, wins: u64, child_visits: u64) -> u64 {
        let (n, w, v) = (parent_visits as f64, wins as f64, child_visits as f64);
        ((w / v + (5.0 * n.ln() / v).sqrt()) * 1e15) as u64
    }

    fn score(&self, parent_visits: u64, wins: u64, child_visits: u64) -> u64 {
        self.score_of(parent_visits, wins, child_visits)
    }
}

/// Player 1 holds the three bottom cells of columns 0, 1 and 2 and is to move: only column 3
/// wins at once.
fn forced_win() -> ConnectFour {
    let mut game = ConnectFour::new(7, 6).unwrap();
    for move_ in [0, 6, 1, 6, 2, 5] {
        assert_eq!(game.play(move_).unwrap(), None);
    }
    game
}

#[test]
fn expands_correct_number_of_times_before_it_recurses() {
    let game = ConnectFour::new(7, 6).unwrap();
    let mut tree = SearchTree::new(&game);
    let mut rng = Xoshiro256StarStar::seed_from_u64(1);
    for _ in 0..7 {
        tree.step(game.current_player(), game.clone(), &mut rng, &Ucb1);
    }
    for (_, child) in tree.child_visits().iter() {
        assert!(child.is_some());
    }
    assert_eq!(
        tree.child_visits().iter().map(|(move_, _)| *move_).collect::<Vec<_>>(),
        (0..7).collect::<Vec<_>>()
    );
}

#[test]
fn root_visits_equal_the_budget_and_children_share_them() {
    let game = ConnectFour::new(7, 6).unwrap();
    let mut tree = SearchTree::new(&game);
    let mut rng = Xoshiro256StarStar::seed_from_u64(2);
    let move_ = tree.select_move(game.current_player(), &game, &mut rng, &Ucb1, 500);
    assert!(move_ < 7);
    assert_eq!(tree.visits(), 500);
    let children = tree.child_visits();
    let sum: u64 = children.iter().map(|(_, v)| v.unwrap_or(0)).sum();
    assert_eq!(sum, 500);
    let most = children.iter().map(|(_, v)| v.unwrap_or(0)).max().unwrap();
    let first = children.iter().position(|(_, v)| v.unwrap_or(0) == most).unwrap();
    assert_eq!(move_, children[first].0);
}

#[test]
fn an_ended_root_counts_every_step_at_the_root_only() {
    let mut game = ConnectFour::new(7, 6).unwrap();
    for move_ in [0, 1, 0, 1, 0, 1, 0] {
        game.play(move_).unwrap();
    }
    assert_eq!(game.winner(), Some(Player(1)));
    let mut tree = SearchTree::new(&game);
    let mut rng = Xoshiro256StarStar::seed_from_u64(3);
    let move_ = tree.select_move(game.current_player(), &game, &mut rng, &Ucb1, 10);
    assert_eq!(tree.visits(), 10);
    assert!(tree.child_visits().iter().all(|(_, v)| v.is_none()));
    assert_eq!(move_, 0);
}

#[test]
fn tree_search_finds_the_only_winning_move() {
    let game = forced_win();
    let player = TreeSearchPlayer::with_simulations(5000);
    let mut rng = Xoshiro256StarStar::seed_from_u64(42);
    assert_eq!(player.make_move(&game, &mut rng, &Ucb1), 3);
}

#[test]
fn flat_monte_carlo_finds_the_only_winning_move() {
    let game = forced_win();
    let player = MonteCarloPlayer::with_simulations(300);
    let mut rng = Xoshiro256StarStar::seed_from_u64(7);
    assert_eq!(player.make_move(&game, &mut rng), 3);
    assert_eq!(player.score_move(&game, 3, &mut rng), 600);
}

#[test]
fn fast_range_takes_the_high_bits_of_the_product() {
    assert_eq!(fast_range(7, 0), 0);
    assert_eq!(fast_range(7, u32::MAX), 6);
    assert_eq!(fast_range(10, 1 << 31), 5);
    assert_eq!(fast_range(6, 0x8000_0001), 3);
    assert_eq!(fast_range(0, 12345), 0);
}

#[test]
fn outcomes_score_two_for_a_win_minus_two_for_a_loss_one_for_a_draw() {
    assert_eq!(outcome_score(Some(Player(1)), Player(1)), 2);
    assert_eq!(outcome_score(Some(Player(2)), Player(1)), -2);
    assert_eq!(outcome_score(None, Player(2)), 1);
}

#[test]
fn ties_go_to_the_last_best_score_and_key() {
    assert_eq!(best_scored(&vec![(0, 5), (1, 7), (2, 7), (3, 1)]), 2);
    assert_eq!(best_scored(&vec![(4, -3)]), 0);
    assert_eq!(last_max(&vec![3, 9, 9, 2]), 2);
    assert_eq!(last_max(&vec![8, 1]), 0);
}

#[test]
fn a_playout_from_an_ended_game_returns_its_outcome() {
    let mut game = ConnectFour::new(7, 6).unwrap();
    for move_ in [0, 1, 0, 1, 0, 1, 0] {
        game.play(move_).unwrap();
    }
    let mut rng = Xoshiro256StarStar::seed_from_u64(4);
    assert_eq!(simulate_game(game, &mut rng), Some(Player(1)));
}

#[test]
fn playouts_end_in_a_win_or_a_draw() {
    let game = ConnectFour::new(7, 6).unwrap();
    let mut rng = Xoshiro256StarStar::seed_from_u64(5);
    let mut outcomes = [0usize; 3];
    for _ in 0..200 {
        match simulate_game(game, &mut rng) {
            None => outcomes[0] += 1,
            Some(Player(p)) => outcomes[p as usize] += 1,
        }
    }
    assert!(outcomes[1] > 0 && outcomes[2] > 0);
}

#[test]
fn two_monte_carlo_players_play_a_game_to_its_end() {
    let game = ConnectFour::new(4, 4).unwrap();
    let players = vec![MonteCarloPlayer::with_simulations(20), MonteCarloPlayer::with_simulations(20)];
    let mut moves = game.iter(players);
    let mut rng = Xoshiro256StarStar::seed_from_u64(6);
    let mut count = 0;
    let mut last = None;
    while let Some((_, player, _, winner)) = moves.next(&mut rng) {
        assert_eq!(player, Player(1 + (count % 2) as u8));
        count += 1;
        last = Some(winner);
    }
    assert!(count <= 16);
    match last.unwrap() {
        Winner::Winner(_) => {}
        Winner::Draw => assert_eq!(count, 16),
        Winner::NotFinishedYet => panic!("the game ended without an outcome"),
    }
}
