//! Move choice by random playouts: flat Monte Carlo and Monte Carlo tree search.
use vstd::prelude::*;
use rand_xoshiro::Xoshiro256StarStar;
use crate::connect_four::{
    is_player, lemma_drop_frees_one, lemma_game_wf, lemma_plays_out_extend,
    lemma_plays_out_prepend, lemma_valid_prefix, plays_out, ConnectFour, Move, Player,
};

verus! {

/// Simulations per decision.
pub const SIMULATIONS: usize = 100_000;

#[verifier::external_type_specification]
#[verifier::external_body]
pub struct ExXoshiro256StarStar(Xoshiro256StarStar);

/// Relies on `RngCore::next_u32` of rand_xoshiro's `Xoshiro256StarStar`: the next 32 bits of
/// the generator's stream; nothing is known of their value.
#[verifier::external_body]
fn next_u32(rng: &mut Xoshiro256StarStar) -> (r: u32) {
    rand_xoshiro::rand_core::RngCore::next_u32(rng)
}

/// The high 32 bits of `upper * random`: a 32-bit `random` mapped onto `0..upper`.
pub open spec fn scaled(upper: int, random: int) -> int {
    (upper * random) / 0x1_0000_0000
}

/// Maps a 32-bit `random` onto `0..upper` by a multiplication and a shift instead of a
/// division: the high 32 bits of `upper * random`.
pub fn fast_range(upper: u32, random: u32) -> (r: u32)
    ensures
        r == scaled(upper as int, random as int),
        upper > 0 ==> r < upper,
{
    assert(upper as int * random as int <= u64::MAX) by (nonlinear_arith)
        requires
            upper < 0x1_0000_0000,
            random < 0x1_0000_0000,
    ;
    let product = upper as u64 * random as u64;
    proof {
        assert(product >> 32 == product / 0x1_0000_0000) by (bit_vector);
        assert(product / 0x1_0000_0000 < upper || upper == 0) by (nonlinear_arith)
            requires
                product == upper as int * random as int,
                random < 0x1_0000_0000,
        ;
    }
    (product >> 32) as u32
}

/// A random `r` with `0 <= r < upper`, nearly uniform: the bias is negligible for small
/// `upper`.
fn rand_in_range(upper: u32, rng: &mut Xoshiro256StarStar) -> (r: u32)
    ensures
        exists|random: u32| r == scaled(upper as int, random as int),
        upper > 0 ==> r < upper,
        upper == 0 ==> r == 0,
{
    let random = next_u32(rng);
    proof {
        if upper == 0 {
            assert(upper as int * random as int == 0);
        }
    }
    fast_range(upper, random)
}

/// One element of `ts`, picked at random.
fn pick<'a, T>(rng: &mut Xoshiro256StarStar, ts: &'a Vec<T>) -> (r: &'a T)
    requires
        0 < ts@.len() <= u32::MAX,
    ensures
        exists|random: u32| *r == ts@[scaled(ts@.len() as int, random as int)],
        exists|i: int| 0 <= i < ts@.len() && *r == ts@[i],
{
    let i = rand_in_range(ts.len() as u32, rng);
    proof {
        let random = choose|random: u32| i == #[trigger] scaled(ts@.len() as u32 as int, random as int);
        assert(*&ts@[i as int] == ts@[scaled(ts@.len() as int, random as int)]);
    }
    &ts[i as usize]
}

/// `outcome` is how some line of play from `game` ends: the winner, or `None` for a draw.
pub open spec fn is_outcome(game: ConnectFour, outcome: Option<Player>) -> bool {
    exists|moves: Seq<Move>, end: ConnectFour|
        plays_out(game, moves, end) && end.ended() && outcome == end.winner_spec()
}

/// Plays uniformly random moves from `game` until a move wins or the board is full, and
/// returns the winner, or `None` for a draw. A game that has ended already gives its outcome.
fn random_playout(rng: &mut Xoshiro256StarStar, game: ConnectFour) -> (r: Option<Player>)
    requires
        game.wf(),
    ensures
        is_outcome(game, r),
        game.ended() ==> r == game.winner_spec(),
        game.ended() ==> *final(rng) == *old(rng),
        r matches Some(p) ==> is_player(p),
{
    proof {
        lemma_game_wf(game);
    }
    if game.winner().is_some() {
        proof {
            assert(plays_out(game, Seq::<Move>::empty(), game));
        }
        return game.winner();
    }
    let mut g = game;
    let ghost mut trace: Seq<Move> = Seq::empty();
    let mut valid_moves: Vec<Move> = Vec::new();
    loop
        invariant
            g.wf(),
            g.winner_spec() is None,
            game.ended() ==> g == game,
            game.ended() ==> *rng == *old(rng),
            plays_out(game, trace, g),
        decreases g.board().free_cells(),
    {
        g.valid_moves_fast(&mut valid_moves);
        if valid_moves.len() == 0 {
            return None;
        }
        proof {
            lemma_game_wf(g);
            lemma_valid_prefix(g.board(), g.board().columns_spec() as int);
        }
        let column = *pick(rng, &valid_moves);
        let ghost pre = g;
        let played = g.play(column);
        proof {
            assert(played is Ok);
            lemma_drop_frees_one(pre.board(), g.board(), column as int, pre.current());
            lemma_plays_out_extend(game, trace, pre, column);
            trace = trace.push(column);
        }
        if let Ok(Some(winner)) = played {
            return Some(winner);
        }
    }
}

/// The outcome of one random playout from `game`, drawn with the worker's generator `rng`.
pub fn simulate_game(game: ConnectFour, rng: &mut Xoshiro256StarStar) -> (r: Option<Player>)
    requires
        game.wf(),
    ensures
        is_outcome(game, r),
        game.ended() ==> r == game.winner_spec(),
        game.ended() ==> *final(rng) == *old(rng),
        r matches Some(p) ==> is_player(p),
{
    random_playout(rng, game)
}

/// What one playout is worth to `me`: 2 for a win, -2 for a loss, 1 for a draw.
pub open spec fn outcome_value(outcome: Option<Player>, me: Player) -> int {
    match outcome {
        Some(p) => if p == me {
            2
        } else {
            -2
        },
        None => 1,
    }
}

/// The summed worth of `outcomes` to `me`.
pub open spec fn total_value(outcomes: Seq<Option<Player>>, me: Player) -> int
    decreases outcomes.len(),
{
    if outcomes.len() == 0 {
        0
    } else {
        total_value(outcomes.drop_last(), me) + outcome_value(outcomes.last(), me)
    }
}

/// `score` sums, for the player to move in `game`, the worth of `simulations` outcomes of
/// lines of play that follow a stone in `column`.
pub open spec fn is_move_score(game: ConnectFour, column: Move, score: int, simulations: nat) -> bool {
    exists|outcomes: Seq<Option<Player>>|
        outcomes.len() == simulations && (forall|i: int|
            0 <= i < outcomes.len() ==> is_outcome(game.after(column as int), #[trigger] outcomes[i]))
            && score == total_value(outcomes, game.current())
}

/// What one playout is worth to `me`: 2 for a win, -2 for a loss, 1 for a draw.
pub fn outcome_score(outcome: Option<Player>, me: Player) -> (r: i64)
    ensures
        r == outcome_value(outcome, me),
{
    match outcome {
        Some(player) if player == me => 2,
        Some(_) => -2,
        None => 1,
    }
}

/// `i` is the last position of a largest score in `scores`.
pub open spec fn is_last_best(scores: Seq<(Move, i64)>, i: int) -> bool {
    &&& 0 <= i < scores.len()
    &&& forall|j: int| 0 <= j < scores.len() ==> #[trigger] scores[j].1 <= scores[i].1
    &&& forall|j: int| i < j < scores.len() ==> #[trigger] scores[j].1 < scores[i].1
}

/// The position of the last largest score.
pub fn best_scored(scores: &Vec<(Move, i64)>) -> (r: usize)
    requires
        scores@.len() > 0,
    ensures
        is_last_best(scores@, r as int),
{
    let mut best: usize = 0;
    let mut i: usize = 1;
    while i < scores.len()
        invariant
            0 <= best < i <= scores@.len(),
            forall|j: int| 0 <= j < i ==> #[trigger] scores@[j].1 <= scores@[best as int].1,
            forall|j: int| best < j < i ==> #[trigger] scores@[j].1 < scores@[best as int].1,
        decreases scores@.len() - i,
    {
        if scores[i].1 >= scores[best].1 {
            best = i;
        }
        i = i + 1;
    }
    best
}

/// Flat Monte Carlo: plays each legal move once, runs a fixed number of random playouts
/// after it, and takes the move whose playouts scored best.
#[derive(Copy, Clone, Debug)]
pub struct MonteCarloPlayer {
    simulations: usize,
}

impl Default for MonteCarloPlayer {
    /// A player that runs `SIMULATIONS` playouts per candidate move.
    fn default() -> (r: MonteCarloPlayer)
        ensures
            r.simulations_spec() == SIMULATIONS,
    {
        MonteCarloPlayer { simulations: SIMULATIONS }
    }
}

impl MonteCarloPlayer {
    /// Playouts run after each candidate move.
    pub closed spec fn simulations_spec(&self) -> nat {
        self.simulations as nat
    }

    /// The scores of the playouts fit an `i64`.
    pub open spec fn wf(&self) -> bool {
        2 * self.simulations_spec() <= i64::MAX
    }

    /// A player that runs `SIMULATIONS` playouts per candidate move.
    pub fn new() -> (r: MonteCarloPlayer)
        ensures
            r.wf(),
            r.simulations_spec() == SIMULATIONS,
    {
        Self::default()
    }

    /// A player that runs `simulations` playouts per candidate move.
    pub fn with_simulations(simulations: usize) -> (r: MonteCarloPlayer)
        requires
            2 * simulations <= i64::MAX,
        ensures
            r.wf(),
            r.simulations_spec() == simulations,
    {
        MonteCarloPlayer { simulations }
    }

    /// The summed playout scores, for the player to move in `game`, of dropping a stone into
    /// `column`.
    pub fn score_move(&self, game: &ConnectFour, column: Move, rng: &mut Xoshiro256StarStar) -> (r:
        i64)
        requires
            self.wf(),
            game.wf(),
            game.board().valid_columns().contains(column),
        ensures
            is_move_score(*game, column, r as int, self.simulations_spec()),
            -2 * self.simulations_spec() <= r <= 2 * self.simulations_spec(),
    {
        proof {
            lemma_game_wf(*game);
            lemma_valid_prefix(game.board(), game.board().columns_spec() as int);
        }
        let me = game.current_player();
        let mut initial_game = *game;
        let played = initial_game.play(column);
        proof {
            assert(played is Ok);
        }
        let n = self.simulations;
        let mut score: i64 = 0;
        let mut i: usize = 0;
        let ghost mut outcomes: Seq<Option<Player>> = Seq::empty();
        while i < n
            invariant
                i <= n,
                2 * n <= i64::MAX,
                -2 * i <= score <= 2 * i,
                initial_game.wf(),
                initial_game == game.after(column as int),
                me == game.current(),
                outcomes.len() == i,
                forall|j: int| 0 <= j < outcomes.len() ==> is_outcome(initial_game, #[trigger] outcomes[j]),
                score == total_value(outcomes, me),
            decreases n - i,
        {
            let outcome = simulate_game(initial_game, rng);
            score = score + outcome_score(outcome, me);
            proof {
                assert(outcomes.push(outcome).drop_last() =~= outcomes);
                outcomes = outcomes.push(outcome);
            }
            i = i + 1;
        }
        score
    }

    /// Each legal move of `game`, in order, with its summed playout score.
    fn simulate(&self, game: &ConnectFour, rng: &mut Xoshiro256StarStar) -> (r: Vec<
        (Move, i64),
    >)
        requires
            self.wf(),
            game.wf(),
        ensures
            r@.len() == game.board().valid_columns().len(),
            forall|i: int|
                0 <= i < r@.len() ==> #[trigger] r@[i].0 == game.board().valid_columns()[i]
                    && is_move_score(*game, r@[i].0, r@[i].1 as int, self.simulations_spec()),
    {
        let moves = game.valid_moves();
        let mut scores: Vec<(Move, i64)> = Vec::with_capacity(moves.len());
        let mut i: usize = 0;
        while i < moves.len()
            invariant
                self.wf(),
                game.wf(),
                moves@ == game.board().valid_columns(),
                i <= moves@.len(),
                scores@.len() == i,
                forall|j: int|
                    0 <= j < i ==> #[trigger] scores@[j].0 == moves@[j] && is_move_score(
                        *game,
                        scores@[j].0,
                        scores@[j].1 as int,
                        self.simulations_spec(),
                    ),
            decreases moves@.len() - i,
        {
            let column = moves[i];
            let score = self.score_move(game, column, rng);
            scores.push((column, score));
            i = i + 1;
        }
        scores
    }

    /// The legal move of `game` whose playouts scored best for the player to move; the last
    /// one where several tie.
    pub fn make_move(&self, game: &ConnectFour, rng: &mut Xoshiro256StarStar) -> (r: Move)
        requires
            self.wf(),
            game.wf(),
            game.board().valid_columns().len() > 0,
        ensures
            game.board().valid_columns().contains(r),
            exists|scores: Seq<(Move, i64)>, best: int|
                {
                    &&& scores.len() == game.board().valid_columns().len()
                    &&& forall|i: int|
                        0 <= i < scores.len() ==> #[trigger] scores[i].0
                            == game.board().valid_columns()[i] && is_move_score(
                            *game,
                            scores[i].0,
                            scores[i].1 as int,
                            self.simulations_spec(),
                        )
                    &&& is_last_best(scores, best)
                    &&& r == scores[best].0
                },
    {
        let scores = self.simulate(game, rng);
        let best = best_scored(&scores);
        let r = scores[best].0;
        proof {
            assert(game.board().valid_columns()[best as int] == r);
        }
        r
    }
}

/// How promising a child of a fully expanded node looks to the player choosing there, from
/// the node's visits, the child's wins as that player counts them, and the child's visits.
/// An upper confidence bound such as UCB1 is the usual choice.
/// `score_of` is the score as a function of its arguments, and `score` returns it: the search
/// relies on the same arguments always giving the same score.
pub trait ChildScore {
    spec fn score_of(&self, parent_visits: u64, wins: u64, child_visits: u64) -> u64;

    fn score(&self, parent_visits: u64, wins: u64, child_visits: u64) -> (r: u64)
        ensures
            r == self.score_of(parent_visits, wins, child_visits),
    ;
}

/// A node of the search tree: one entry per legal move, each with its subtree once expanded,
/// and the outcomes of the simulations that passed through the node. Wins are counted for the
/// player fixed when the search started.
#[derive(Debug)]
pub struct SearchTree {
    children: Vec<(Move, Option<SearchTree>)>,
    visits: u64,
    wins: u64,
    draws: u64,
}

/// The visits of a child entry; zero while it is not expanded.
pub open spec fn entry_visits(e: (Move, Option<SearchTree>)) -> int {
    match e.1 {
        Some(child) => child.visits_spec() as int,
        None => 0,
    }
}

/// The wins of a child entry; zero while it is not expanded.
pub open spec fn entry_wins(e: (Move, Option<SearchTree>)) -> int {
    match e.1 {
        Some(child) => child.wins_spec() as int,
        None => 0,
    }
}

/// The draws of a child entry; zero while it is not expanded.
pub open spec fn entry_draws(e: (Move, Option<SearchTree>)) -> int {
    match e.1 {
        Some(child) => child.draws_spec() as int,
        None => 0,
    }
}

/// The sum of the visits of the expanded children.
pub open spec fn visits_sum(children: Seq<(Move, Option<SearchTree>)>) -> int
    decreases children.len(),
{
    if children.len() == 0 {
        0
    } else {
        visits_sum(children.drop_last()) + entry_visits(children.last())
    }
}

/// The sum of the wins of the expanded children.
pub open spec fn wins_sum(children: Seq<(Move, Option<SearchTree>)>) -> int
    decreases children.len(),
{
    if children.len() == 0 {
        0
    } else {
        wins_sum(children.drop_last()) + entry_wins(children.last())
    }
}

/// The sum of the draws of the expanded children.
pub open spec fn draws_sum(children: Seq<(Move, Option<SearchTree>)>) -> int
    decreases children.len(),
{
    if children.len() == 0 {
        0
    } else {
        draws_sum(children.drop_last()) + entry_draws(children.last())
    }
}

/// The score `scorer` gives a child entry of a node with `parent_visits` visits, its wins
/// credited for the player choosing there; zero while it is not expanded.
pub open spec fn child_key<S: ChildScore>(
    scorer: S,
    parent_visits: u64,
    e: (Move, Option<SearchTree>),
    for_me: bool,
) -> u64 {
    match e.1 {
        Some(child) => scorer.score_of(
            parent_visits,
            credited_wins(
                child.wins_spec() as int,
                child.draws_spec() as int,
                child.visits_spec() as int,
                for_me,
            ) as u64,
            child.visits_spec() as u64,
        ),
        None => 0,
    }
}

/// The scores of all child entries, in order.
pub open spec fn child_keys<S: ChildScore>(
    scorer: S,
    parent_visits: u64,
    children: Seq<(Move, Option<SearchTree>)>,
    for_me: bool,
) -> Seq<u64> {
    children.map_values(|e: (Move, Option<SearchTree>)| child_key(scorer, parent_visits, e, for_me))
}

/// Replacing one entry changes each sum by the difference of the two entries.
proof fn lemma_visits_sum_update(
    children: Seq<(Move, Option<SearchTree>)>,
    i: int,
    e: (Move, Option<SearchTree>),
)
    requires
        0 <= i < children.len(),
    ensures
        visits_sum(children.update(i, e)) == visits_sum(children) - entry_visits(children[i])
            + entry_visits(e),
        wins_sum(children.update(i, e)) == wins_sum(children) - entry_wins(children[i])
            + entry_wins(e),
        draws_sum(children.update(i, e)) == draws_sum(children) - entry_draws(children[i])
            + entry_draws(e),
    decreases children.len(),
{
    let u = children.update(i, e);
    if i < children.len() - 1 {
        assert(u.drop_last() == children.drop_last().update(i, e));
        lemma_visits_sum_update(children.drop_last(), i, e);
    } else {
        assert(u.drop_last() == children.drop_last());
    }
}

/// Some child entry is not expanded yet.
pub open spec fn has_unexpanded(children: Seq<(Move, Option<SearchTree>)>) -> bool {
    exists|i: int| 0 <= i < children.len() && #[trigger] children[i].1 is None
}

/// `after` is `before` with the unexpanded entry `i` expanded into a node with one visit,
/// grown for the game after its move, whose own children are all unexpanded.
pub open spec fn expanded_at(
    before: Seq<(Move, Option<SearchTree>)>,
    after: Seq<(Move, Option<SearchTree>)>,
    i: int,
    game: ConnectFour,
) -> bool {
    &&& 0 <= i < before.len()
    &&& before[i].1 is None
    &&& after.len() == before.len()
    &&& forall|j: int| 0 <= j < before.len() && j != i ==> #[trigger] after[j] == before[j]
    &&& after[i].0 == before[i].0
    &&& match after[i].1 {
        Some(child) => {
            &&& child.visits_spec() == 1
            &&& child.moves() == game.after(before[i].0 as int).board().valid_columns()
            &&& forall|k: int|
                0 <= k < child.children_spec().len() ==> #[trigger] child.children_spec()[k].1 is None
        },
        None => false,
    }
}

/// `after` is `before` with only the expanded entry `i` changed, gaining one visit.
pub open spec fn stepped_at(
    before: Seq<(Move, Option<SearchTree>)>,
    after: Seq<(Move, Option<SearchTree>)>,
    i: int,
) -> bool {
    &&& 0 <= i < before.len()
    &&& before[i].1 is Some
    &&& after[i].1 is Some
    &&& after.len() == before.len()
    &&& forall|j: int| 0 <= j < before.len() && j != i ==> #[trigger] after[j] == before[j]
    &&& after[i].0 == before[i].0
    &&& entry_visits(after[i]) == entry_visits(before[i]) + 1
}

/// One where `r` is a win for `me`, else zero.
pub open spec fn win_count(r: Option<Player>, me: Player) -> int {
    if r == Some(me) {
        1
    } else {
        0
    }
}

/// One where `r` is a draw, else zero.
pub open spec fn draw_count(r: Option<Player>) -> int {
    if r is None {
        1
    } else {
        0
    }
}

/// `i` is the first position of a most visited child.
pub open spec fn is_most_visited(children: Seq<(Move, Option<SearchTree>)>, i: int) -> bool {
    &&& 0 <= i < children.len()
    &&& forall|j: int|
        0 <= j < children.len() ==> #[trigger] entry_visits(children[j]) <= entry_visits(children[i])
    &&& forall|j: int| 0 <= j < i ==> #[trigger] entry_visits(children[j]) < entry_visits(children[i])
}

/// `i` is the last position of a largest key.
pub open spec fn is_last_max(keys: Seq<u64>, i: int) -> bool {
    &&& 0 <= i < keys.len()
    &&& forall|j: int| 0 <= j < keys.len() ==> #[trigger] keys[j] <= keys[i]
    &&& forall|j: int| i < j < keys.len() ==> #[trigger] keys[j] < keys[i]
}

/// The position of the last largest key.
pub fn last_max(keys: &Vec<u64>) -> (r: usize)
    requires
        keys@.len() > 0,
    ensures
        is_last_max(keys@, r as int),
{
    let mut best: usize = 0;
    let mut i: usize = 1;
    while i < keys.len()
        invariant
            0 <= best < i <= keys@.len(),
            forall|j: int| 0 <= j < i ==> #[trigger] keys@[j] <= keys@[best as int],
            forall|j: int| best < j < i ==> #[trigger] keys@[j] < keys@[best as int],
        decreases keys@.len() - i,
    {
        if keys[i] >= keys[best] {
            best = i;
        }
        i = i + 1;
    }
    best
}

impl SearchTree {
    pub closed spec fn visits_spec(&self) -> nat {
        self.visits as nat
    }

    pub closed spec fn wins_spec(&self) -> nat {
        self.wins as nat
    }

    pub closed spec fn draws_spec(&self) -> nat {
        self.draws as nat
    }

    pub closed spec fn children_spec(&self) -> Seq<(Move, Option<SearchTree>)> {
        self.children@
    }

    /// The moves of the children, in order.
    pub open spec fn moves(&self) -> Seq<Move> {
        self.children_spec().map_values(|e: (Move, Option<SearchTree>)| e.0)
    }

    /// The tree was grown from `game`: its children are the legal moves of `game`, each
    /// expanded child was grown from the game after its move and has no more visits than the
    /// node, and wins and draws together never exceed visits.
    pub closed spec fn grown_from(&self, game: ConnectFour) -> bool
        decreases self,
    {
        &&& self.moves() == game.board().valid_columns()
        &&& self.wins + self.draws <= self.visits
        &&& forall|i: int|
            0 <= i < self.children@.len() ==> match #[trigger] self.children@[i].1 {
                Some(child) => {
                    &&& child.visits <= self.visits
                    &&& child.wins + child.draws <= child.visits
                    &&& child.grown_from(game.after(self.children@[i].0 as int))
                },
                None => true,
            }
    }

    /// A node for `game` with every legal move unexpanded and nothing counted yet.
    pub fn new(game: &ConnectFour) -> (r: SearchTree)
        requires
            game.wf(),
        ensures
            r.grown_from(*game),
            r.moves() == game.board().valid_columns(),
            r.visits_spec() == 0,
            r.wins_spec() == 0,
            r.draws_spec() == 0,
            forall|i: int| 0 <= i < r.children_spec().len() ==> #[trigger] r.children_spec()[i].1 is None,
            visits_sum(r.children_spec()) == 0,
            wins_sum(r.children_spec()) == 0,
            draws_sum(r.children_spec()) == 0,
    {
        let moves = game.valid_moves();
        let mut children: Vec<(Move, Option<SearchTree>)> = Vec::with_capacity(moves.len());
        let mut i: usize = 0;
        while i < moves.len()
            invariant
                i <= moves@.len(),
                children@.len() == i,
                forall|j: int| 0 <= j < i ==> #[trigger] children@[j] == (moves@[j], None::<SearchTree>),
            decreases moves@.len() - i,
        {
            children.push((moves[i], None));
            i = i + 1;
        }
        let r = SearchTree { children, visits: 0, wins: 0, draws: 0 };
        proof {
            assert(r.moves() =~= moves@);
            lemma_visits_sum_unexpanded(r.children@);
        }
        r
    }

    /// Counts one simulation through this node that ended with `winner`.
    fn visited(&mut self, me: Player, winner: Option<Player>)
        requires
            old(self).visits < u64::MAX,
            old(self).wins + old(self).draws <= old(self).visits,
        ensures
            final(self).children == old(self).children,
            final(self).visits == old(self).visits + 1,
            final(self).draws == old(self).draws + (if winner is None {
                1int
            } else {
                0int
            }),
            final(self).wins == old(self).wins + (if winner == Some(me) {
                1int
            } else {
                0int
            }),
    {
        self.visits = self.visits + 1;
        match winner {
            None => {
                self.draws = self.draws + 1;
            },
            Some(w) => {
                if w == me {
                    self.wins = self.wins + 1;
                }
            },
        }
    }
}

/// The wins a child is credited with by the player choosing at its parent: wins plus half
/// the draws where that player is the one the tree counts for, else the opponent's view of
/// the same, visits less wins less half the draws.
pub open spec fn credited_wins(wins: int, draws: int, visits: int, for_me: bool) -> int {
    if for_me {
        wins + draws / 2
    } else {
        visits - wins - draws / 2
    }
}

impl SearchTree {
    /// The wins this node is credited with by the player choosing at its parent.
    fn effective_wins(&self, for_me: bool) -> (r: u64)
        requires
            self.wins + self.draws <= self.visits,
        ensures
            r == credited_wins(self.wins as int, self.draws as int, self.visits as int, for_me),
    {
        if for_me {
            self.wins + self.draws / 2
        } else {
            self.visits - self.wins - self.draws / 2
        }
    }

    /// The position of the child that `scorer` rates highest, the last one where several tie.
    fn best_move<S: ChildScore>(&self, me: Player, game: &ConnectFour, scorer: &S) -> (r: usize)
        requires
            self.grown_from(*game),
            self.children@.len() > 0,
            forall|i: int| 0 <= i < self.children@.len() ==> #[trigger] self.children@[i].1 is Some,
        ensures
            is_last_max(
                child_keys(*scorer, self.visits, self.children@, game.current() == me),
                r as int,
            ),
    {
        let for_me = game.current_player() == me;
        let mut keys: Vec<u64> = Vec::with_capacity(self.children.len());
        let mut i: usize = 0;
        while i < self.children.len()
            invariant
                self.grown_from(*game),
                forall|j: int| 0 <= j < self.children@.len() ==> #[trigger] self.children@[j].1 is Some,
                i <= self.children@.len(),
                keys@.len() == i,
                for_me == (game.current() == me),
                forall|j: int|
                    0 <= j < i ==> #[trigger] keys@[j] == child_key(
                        *scorer,
                        self.visits,
                        self.children@[j],
                        for_me,
                    ),
            decreases self.children@.len() - i,
        {
            let key = match &self.children[i].1 {
                Some(child) => {
                    proof {
                        assert(match self.children@[i as int].1 {
                            Some(c) => c.wins + c.draws <= c.visits,
                            None => true,
                        });
                    }
                    scorer.score(self.visits, child.effective_wins(for_me), child.visits)
                },
                None => 0,
            };
            keys.push(key);
            i = i + 1;
        }
        proof {
            assert(keys@ =~= child_keys(*scorer, self.visits, self.children@, for_me));
        }
        last_max(&keys)
    }

    /// One simulation: where `game` has ended, counts its outcome; else expands a random
    /// unexpanded move and counts the outcome of a random playout after it; else descends into
    /// the child that `scorer` rates highest. Every node on the path counts the outcome, which
    /// is returned.
    pub fn step<S: ChildScore>(
        &mut self,
        me: Player,
        game: ConnectFour,
        rng: &mut Xoshiro256StarStar,
        scorer: &S,
    ) -> (r: Option<Player>)
        requires
            game.wf(),
            old(self).grown_from(game),
            old(self).visits_spec() < u64::MAX,
        ensures
            final(self).grown_from(game),
            final(self).visits_spec() == old(self).visits_spec() + 1,
            final(self).wins_spec() == old(self).wins_spec() + win_count(r, me),
            final(self).draws_spec() == old(self).draws_spec() + draw_count(r),
            visits_sum(final(self).children_spec()) == visits_sum(old(self).children_spec()) + (if game.ended() {
                0int
            } else {
                1int
            }),
            !game.ended() ==> wins_sum(final(self).children_spec()) == wins_sum(
                old(self).children_spec(),
            ) + win_count(r, me),
            !game.ended() ==> draws_sum(final(self).children_spec()) == draws_sum(
                old(self).children_spec(),
            ) + draw_count(r),
            game.ended() ==> final(self).children_spec() == old(self).children_spec(),
            !game.ended() && has_unexpanded(old(self).children_spec()) ==> exists|i: int|
                expanded_at(old(self).children_spec(), final(self).children_spec(), i, game),
            !game.ended() && !has_unexpanded(old(self).children_spec()) ==> exists|i: int|
                is_last_max(
                    child_keys(
                        *scorer,
                        old(self).visits_spec() as u64,
                        old(self).children_spec(),
                        game.current() == me,
                    ),
                    i,
                ) && stepped_at(old(self).children_spec(), final(self).children_spec(), i),
            is_outcome(game, r),
            game.ended() ==> r == game.winner_spec(),
            r matches Some(p) ==> is_player(p),
        decreases game.board().free_cells(),
    {
        proof {
            lemma_game_wf(game);
            lemma_valid_prefix(game.board(), game.board().columns_spec() as int);
        }
        if game.has_ended() {
            let winner = game.winner();
            self.visited(me, winner);
            proof {
                assert(plays_out(game, Seq::<Move>::empty(), game));
            }
            return winner;
        }
        let ghost before = *self;
        let mut expandable: Vec<(usize, Move)> = Vec::new();
        let mut i: usize = 0;
        while i < self.children.len()
            invariant
                *self == before,
                i <= self.children@.len(),
                expandable@.len() <= i,
                forall|k: int|
                    0 <= k < expandable@.len() ==> {
                        let (j, m) = #[trigger] expandable@[k];
                        &&& j < self.children@.len()
                        &&& self.children@[j as int].1 is None
                        &&& self.children@[j as int].0 == m
                    },
                expandable@.len() == 0 ==> forall|j: int|
                    0 <= j < i ==> #[trigger] self.children@[j].1 is Some,
            decreases self.children@.len() - i,
        {
            if self.children[i].1.is_none() {
                expandable.push((i, self.children[i].0));
            }
            i = i + 1;
        }
        let ghost g0 = game;
        let mut game = game;
        if expandable.len() > 0 {
            let (index, random_move) = *pick(rng, &expandable);
            proof {
                assert(self.moves()[index as int] == random_move);
            }
            let played = game.play(random_move);
            proof {
                assert(played is Ok);
            }
            let mut child = SearchTree::new(&game);
            let ghost fresh = child;
            let result = random_playout(rng, game);
            child.visited(me, result);
            proof {
                lemma_recount(fresh, child, game);
            }
            let ghost old_children = self.children@;
            self.children.set(index, (random_move, Some(child)));
            let ghost placed = *self;
            proof {
                lemma_visits_sum_update(old_children, index as int, (random_move, Some(child)));
            }
            self.visited(me, result);
            proof {
                let grown = SearchTree {
                    children: before.children,
                    visits: self.visits,
                    wins: self.wins,
                    draws: self.draws,
                };
                lemma_recount(before, grown, g0);
                lemma_replace_child(grown, *self, g0, index as int, child);
                let (moves, end) = choose|moves: Seq<Move>, end: ConnectFour|
                    plays_out(game, moves, end) && end.ended() && result == end.winner_spec();
                lemma_plays_out_prepend(g0, random_move, moves, end);
                assert(self.children@[index as int] == (random_move, Some(child)));
                assert(expanded_at(before.children@, self.children@, index as int, g0));
            }
            return result;
        }
        let best = self.best_move(me, &game, scorer);
        let column = self.children[best].0;
        proof {
            assert(self.moves()[best as int] == column);
        }
        let ghost pre_game = game;
        let played = game.play(column);
        proof {
            assert(played is Ok);
            lemma_drop_frees_one(pre_game.board(), game.board(), column as int, pre_game.current());
        }
        let mut taken: (Move, Option<SearchTree>) = (column, None);
        let ghost old_children = self.children@;
        std::mem::swap(&mut taken, &mut self.children[best]);
        let mut child = taken.1.unwrap();
        let result = child.step(me, game, rng, scorer);
        let ghost stepped = child;
        self.children.set(best, (column, Some(child)));
        proof {
            assert(self.children@ == old_children.update(best as int, (column, Some(stepped))));
            lemma_visits_sum_update(old_children, best as int, (column, Some(stepped)));
        }
        self.visited(me, result);
        proof {
            assert(self.moves() =~= before.moves());
            let (moves, end) = choose|moves: Seq<Move>, end: ConnectFour|
                plays_out(game, moves, end) && end.ended() && result == end.winner_spec();
            lemma_plays_out_prepend(pre_game, column, moves, end);
            assert(stepped_at(before.children@, self.children@, best as int));
        }
        result
    }
}

impl SearchTree {
    /// Runs `simulations` steps from `game` and returns the move of the most visited child, the
    /// first one where several tie. Each step counts once at this node, and each step from a
    /// game that has not ended counts once at one of its children.
    pub fn select_move<S: ChildScore>(
        &mut self,
        me: Player,
        game: &ConnectFour,
        rng: &mut Xoshiro256StarStar,
        scorer: &S,
        simulations: usize,
    ) -> (r: Move)
        requires
            game.wf(),
            old(self).grown_from(*game),
            old(self).visits_spec() + simulations <= u64::MAX,
            game.board().valid_columns().len() > 0,
        ensures
            final(self).grown_from(*game),
            final(self).visits_spec() == old(self).visits_spec() + simulations,
            visits_sum(final(self).children_spec()) == visits_sum(old(self).children_spec()) + (if game.ended() {
                0int
            } else {
                simulations as int
            }),
            !game.ended() ==> wins_sum(final(self).children_spec()) - final(self).wins_spec()
                == wins_sum(old(self).children_spec()) - old(self).wins_spec(),
            !game.ended() ==> draws_sum(final(self).children_spec()) - final(self).draws_spec()
                == draws_sum(old(self).children_spec()) - old(self).draws_spec(),
            exists|i: int|
                is_most_visited(final(self).children_spec(), i) && r == final(self).children_spec()[i].0,
            game.board().valid_columns().contains(r),
    {
        let ghost start = *self;
        let mut n: usize = 0;
        while n < simulations
            invariant
                game.wf(),
                self.grown_from(*game),
                n <= simulations,
                self.visits == start.visits + n,
                start.visits + simulations <= u64::MAX,
                visits_sum(self.children@) == visits_sum(start.children@) + (if game.ended() {
                    0int
                } else {
                    n as int
                }),
                !game.ended() ==> wins_sum(self.children@) - self.wins == wins_sum(start.children@)
                    - start.wins,
                !game.ended() ==> draws_sum(self.children@) - self.draws == draws_sum(
                    start.children@,
                ) - start.draws,
            decreases simulations - n,
        {
            self.step(me, *game, rng, scorer);
            n = n + 1;
        }
        let mut best: usize = 0;
        let mut best_visits: u64 = self.child_visits_at(0);
        let mut i: usize = 1;
        while i < self.children.len()
            invariant
                self.grown_from(*game),
                self.children@.len() > 0,
                0 <= best < i <= self.children@.len(),
                best_visits == entry_visits(self.children@[best as int]),
                forall|j: int|
                    0 <= j < i ==> #[trigger] entry_visits(self.children@[j]) <= best_visits,
                forall|j: int| 0 <= j < best ==> #[trigger] entry_visits(self.children@[j]) < best_visits,
            decreases self.children@.len() - i,
        {
            let v = self.child_visits_at(i);
            if v > best_visits {
                best = i;
                best_visits = v;
            }
            i = i + 1;
        }
        let r = self.children[best].0;
        proof {
            assert(is_most_visited(self.children@, best as int));
            assert(self.moves()[best as int] == r);
        }
        r
    }

    /// The visits of child `i`; zero while it is not expanded.
    fn child_visits_at(&self, i: usize) -> (r: u64)
        requires
            i < self.children@.len(),
        ensures
            r == entry_visits(self.children@[i as int]),
    {
        match &self.children[i].1 {
            Some(child) => child.visits,
            None => 0,
        }
    }

    /// Simulations counted at this node.
    pub fn visits(&self) -> (r: u64)
        ensures
            r == self.visits_spec(),
    {
        self.visits
    }

    /// Each child's move, in order, with its visits once it is expanded.
    pub fn child_visits(&self) -> (r: Vec<(Move, Option<u64>)>)
        ensures
            r@.len() == self.children_spec().len(),
            forall|i: int|
                0 <= i < r@.len() ==> {
                    let e = #[trigger] self.children_spec()[i];
                    &&& r@[i].0 == e.0
                    &&& r@[i].1 == match e.1 {
                        Some(child) => Some(child.visits_spec() as u64),
                        None => None,
                    }
                },
    {
        let mut r: Vec<(Move, Option<u64>)> = Vec::with_capacity(self.children.len());
        let mut i: usize = 0;
        while i < self.children.len()
            invariant
                i <= self.children@.len(),
                r@.len() == i,
                forall|j: int|
                    0 <= j < i ==> {
                        let e = #[trigger] self.children@[j];
                        &&& r@[j].0 == e.0
                        &&& r@[j].1 == match e.1 {
                            Some(child) => Some(child.visits),
                            None => None,
                        }
                    },
            decreases self.children@.len() - i,
        {
            let visits = match &self.children[i].1 {
                Some(child) => Some(child.visits),
                None => None,
            };
            r.push((self.children[i].0, visits));
            i = i + 1;
        }
        r
    }
}

/// Monte Carlo tree search: grows a fresh tree for every decision and plays the move of the
/// most visited child.
#[derive(Copy, Clone, Debug)]
pub struct TreeSearchPlayer {
    simulations: usize,
}

impl TreeSearchPlayer {
    /// Simulations per decision.
    pub closed spec fn simulations_spec(&self) -> nat {
        self.simulations as nat
    }

    /// A player that runs `SIMULATIONS` simulations per decision.
    pub fn new(_game: &ConnectFour) -> (r: TreeSearchPlayer)
        ensures
            r.simulations_spec() == SIMULATIONS,
    {
        TreeSearchPlayer { simulations: SIMULATIONS }
    }

    /// A player that runs `simulations` simulations per decision.
    pub fn with_simulations(simulations: usize) -> (r: TreeSearchPlayer)
        ensures
            r.simulations_spec() == simulations,
    {
        TreeSearchPlayer { simulations }
    }

    /// The move that a search of `simulations` steps from `game` chooses, for the player to
    /// move there.
    pub fn make_move<S: ChildScore>(
        &self,
        game: &ConnectFour,
        rng: &mut Xoshiro256StarStar,
        scorer: &S,
    ) -> (r: Move)
        requires
            game.wf(),
            game.board().valid_columns().len() > 0,
        ensures
            game.board().valid_columns().contains(r),
            exists|tree: SearchTree, i: int|
                {
                    &&& tree.grown_from(*game)
                    &&& tree.visits_spec() == self.simulations_spec()
                    &&& !game.ended() ==> {
                        &&& visits_sum(tree.children_spec()) == tree.visits_spec()
                        &&& wins_sum(tree.children_spec()) == tree.wins_spec()
                        &&& draws_sum(tree.children_spec()) == tree.draws_spec()
                    }
                    &&& is_most_visited(tree.children_spec(), i)
                    &&& r == tree.children_spec()[i].0
                },
    {
        let mut tree = SearchTree::new(game);
        let r = tree.select_move(game.current_player(), game, rng, scorer, self.simulations);
        proof {
            let i = choose|i: int| is_most_visited(tree.children_spec(), i) && r == tree.children_spec()[i].0;
            assert(tree.grown_from(*game) && tree.visits_spec() == self.simulations_spec() && (
            !game.ended() ==> {
                &&& visits_sum(tree.children_spec()) == tree.visits_spec()
                &&& wins_sum(tree.children_spec()) == tree.wins_spec()
                &&& draws_sum(tree.children_spec()) == tree.draws_spec()
            }) && is_most_visited(tree.children_spec(), i) && r == tree.children_spec()[i].0);
        }
        r
    }
}

/// Counts that grow without breaking `wins + draws <= visits` keep a tree grown from `game`.
proof fn lemma_recount(a: SearchTree, b: SearchTree, game: ConnectFour)
    requires
        a.grown_from(game),
        b.children == a.children,
        b.visits >= a.visits,
        b.wins + b.draws <= b.visits,
    ensures
        b.grown_from(game),
{
    assert forall|i: int| 0 <= i < b.children@.len() implies match #[trigger] b.children@[i].1 {
        Some(child) => {
            &&& child.visits <= b.visits
            &&& child.wins + child.draws <= child.visits
            &&& child.grown_from(game.after(b.children@[i].0 as int))
        },
        None => true,
    } by {
        assert(a.children@[i] == b.children@[i]);
    }
}

/// Putting at `i` a child grown from the game after its move keeps a tree grown from `game`.
proof fn lemma_replace_child(a: SearchTree, b: SearchTree, game: ConnectFour, i: int, child: SearchTree)
    requires
        a.grown_from(game),
        0 <= i < a.children@.len(),
        b.children@ == a.children@.update(i, (a.children@[i].0, Some(child))),
        b.visits == a.visits,
        b.wins == a.wins,
        b.draws == a.draws,
        child.visits <= b.visits,
        child.wins + child.draws <= child.visits,
        child.grown_from(game.after(a.children@[i].0 as int)),
    ensures
        b.grown_from(game),
{
    assert(b.moves() =~= a.moves());
    assert forall|j: int| 0 <= j < b.children@.len() implies match #[trigger] b.children@[j].1 {
        Some(c) => {
            &&& c.visits <= b.visits
            &&& c.wins + c.draws <= c.visits
            &&& c.grown_from(game.after(b.children@[j].0 as int))
        },
        None => true,
    } by {
        if j != i {
            assert(a.children@[j] == b.children@[j]);
        }
    }
}

/// A sequence of unexpanded entries has no visits.
proof fn lemma_visits_sum_unexpanded(children: Seq<(Move, Option<SearchTree>)>)
    requires
        forall|i: int| 0 <= i < children.len() ==> #[trigger] children[i].1 is None,
    ensures
        visits_sum(children) == 0,
        wins_sum(children) == 0,
        draws_sum(children) == 0,
    decreases children.len(),
{
    if children.len() > 0 {
        lemma_visits_sum_unexpanded(children.drop_last());
    }
}

} // verus!
