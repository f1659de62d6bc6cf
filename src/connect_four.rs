//! The Connect Four board packed into two bit masks, and the game played on it.
use vstd::prelude::*;
use crate::lines::{
    bit, cell_index, has_line, lemma_winning_mask, lemma_zero_no_bit, occupied, sentinels_clear,
    shifted, winning_mask,
};
use vstd::arithmetic::div_mod::lemma_fundamental_div_mod_converse;
use vstd::array::spec_array_update;
use rand_xoshiro::Xoshiro256StarStar;
use crate::ai_player::MonteCarloPlayer;

verus! {

/// A column number.
pub type Move = usize;

/// `Player(0)` marks an empty cell; `Player(1)` and `Player(2)` are the two players.
#[derive(Copy, Clone, Debug, PartialEq, Eq, Structural)]
pub struct Player(pub u8);

/// One of the two players, as opposed to the empty marker.
pub open spec fn is_player(p: Player) -> bool {
    p.0 == 1 || p.0 == 2
}

/// How the game stands after a move.
#[derive(Copy, Clone, Debug, PartialEq, Eq, Structural)]
pub enum Winner {
    Winner(Player),
    Draw,
    NotFinishedYet,
}

/// Why a move was refused.
#[derive(Copy, Clone, Debug, PartialEq, Eq, Structural)]
pub enum InvalidMove {
    InvalidColumn(usize),
    ColumnFull(usize),
}

/// `x >> s`, and zero once `s` reaches 64.
fn shift_right(x: u64, s: u64) -> (r: u64)
    ensures
        r == shifted(x, s),
{
    if s < 64 {
        x >> s
    } else {
        0
    }
}

proof fn lemma_set_bit(x: u64, k: u64, i: u64)
    by (bit_vector)
    requires
        k < 64,
        i < 64,
    ensures
        ((x | (1u64 << k)) >> i) & 1 == 1 <==> ((x >> i) & 1 == 1 || i == k),
{
}

proof fn lemma_get_bit(x: u64, k: u64)
    by (bit_vector)
    requires
        k < 64,
    ensures
        (x >> k) & 1 == 1 || (x >> k) & 1 == 0,
{
}

/// The stones of one player: bit `column * (rows + 1) + row` is the cell in `column` and `row`.
#[derive(Copy, Clone, Debug)]
pub struct BitBoard(u64);

impl View for BitBoard {
    type V = u64;

    closed spec fn view(&self) -> u64 {
        self.0
    }
}

impl BitBoard {
    /// Whether four of the stones stand in a line, in constant time: a run of four spaced `s`
    /// apart shows as a set bit of `p & (p >> 2s)` where `p = x & (x >> s)`.
    #[inline(always)]
    fn has_winner(&self, rows: u8) -> (won: bool)
        requires
            sentinels_clear(self@, rows as int),
        ensures
            won == has_line(self@, rows as int),
    {
        let x = self.0;
        let r = rows as u64;
        let vertical = x & shift_right(x, 1);
        let horizontal = x & shift_right(x, r + 1);
        let diagonal_ud = x & shift_right(x, r);
        let diagonal_du = x & shift_right(x, r + 2);
        let w = (vertical & shift_right(vertical, 2)) | (horizontal & shift_right(
            horizontal,
            2 * (r + 1),
        )) | (diagonal_ud & shift_right(diagonal_ud, 2 * r)) | (diagonal_du & shift_right(
            diagonal_du,
            2 * (r + 2),
        ));
        proof {
            assert(w == winning_mask(x, r));
            lemma_winning_mask(x, r);
        }
        w != 0
    }

    #[inline(always)]
    fn get_bit(&self, column: u8, row: u8, rows: u8) -> (r: u8)
        requires
            cell_index(column as int, row as int, rows as int) < 64,
        ensures
            r == (if bit(self@, cell_index(column as int, row as int, rows as int)) { 1u8 } else { 0u8 }),
    {
        let k = column as u64 * (rows as u64 + 1) + row as u64;
        proof {
            lemma_get_bit(self.0, k);
        }
        ((self.0 >> k) & 1) as u8
    }

    #[inline(always)]
    fn set_bit(&mut self, column: u8, row: u8, rows: u8)
        requires
            cell_index(column as int, row as int, rows as int) < 64,
        ensures
            final(self)@ == old(self)@ | (1u64 << (cell_index(
                column as int,
                row as int,
                rows as int,
            ) as u64)),
            forall|i: int|
                bit(final(self)@, i) <==> (bit(old(self)@, i) || i == cell_index(
                    column as int,
                    row as int,
                    rows as int,
                )),
    {
        let k = column as u64 * (rows as u64 + 1) + row as u64;
        let ghost x = self.0;
        self.0 = self.0 | (1u64 << k);
        proof {
            assert forall|i: int| bit(self@, i) <==> (bit(x, i) || i == k) by {
                if 0 <= i < 64 {
                    lemma_set_bit(x, k, i as u64);
                }
            }
        }
    }
}

/// The board: one mask per player, the free cells left in each column, and the last mover.
#[derive(Copy, Clone, Debug)]
pub struct BitState {
    state: [BitBoard; 2],
    empty_per_column: [u8; 12],
    columns: u8,
    rows: usize,
    last_player: Player,
    last_column: u8,
}

/// A board of `columns` columns and `rows` rows fits the 64-bit masks.
pub open spec fn fits(columns: int, rows: int) -> bool {
    columns <= 12 && columns * (rows + 1) <= 64
}

impl BitState {
    pub closed spec fn columns_spec(&self) -> nat {
        self.columns as nat
    }

    pub closed spec fn rows_spec(&self) -> nat {
        self.rows as nat
    }

    /// Free cells left in `column`.
    pub closed spec fn remaining(&self, column: int) -> nat {
        self.empty_per_column@[column] as nat
    }

    /// The stones of `Player(k + 1)`.
    pub closed spec fn mask(&self, k: int) -> u64 {
        self.state@[k]@
    }

    pub closed spec fn last_player_spec(&self) -> Player {
        self.last_player
    }

    pub closed spec fn last_column_spec(&self) -> int {
        self.last_column as int
    }

    /// The board after `player` drops a stone into the free `column`.
    pub closed spec fn after(&self, column: int, player: Player) -> BitState {
        let k = player.0 - 1;
        let idx = cell_index(column, self.remaining(column) - 1, self.rows as int);
        BitState {
            state: spec_array_update(
                self.state,
                k,
                BitBoard(self.state@[k].0 | (1u64 << (idx as u64))),
            ),
            empty_per_column: spec_array_update(
                self.empty_per_column,
                column,
                (self.empty_per_column@[column] - 1) as u8,
            ),
            last_player: player,
            last_column: column as u8,
            ..*self
        }
    }

    /// Who holds the cell in `column` and `row`; `Player(0)` for a free cell and off the board.
    /// Row `0` is the top row: a column fills from row `rows - 1` upwards.
    pub open spec fn cell(&self, column: int, row: int) -> Player {
        if 0 <= column < self.columns_spec() && 0 <= row < self.rows_spec() {
            if occupied(self.mask(0), self.rows_spec() as int, column, row) {
                Player(1)
            } else if occupied(self.mask(1), self.rows_spec() as int, column, row) {
                Player(2)
            } else {
                Player(0)
            }
        } else {
            Player(0)
        }
    }

    /// Stones in `column`: its cells from row `remaining(column)` down are the occupied ones.
    pub open spec fn filled(&self, column: int) -> int {
        self.rows_spec() - self.remaining(column)
    }

    /// Four cells of `p` from (`column`, `row`) in steps of (`dc`, `dr`).
    pub open spec fn four_of(&self, p: Player, column: int, row: int, dc: int, dr: int) -> bool {
        &&& self.cell(column, row) == p
        &&& self.cell(column + dc, row + dr) == p
        &&& self.cell(column + 2 * dc, row + 2 * dr) == p
        &&& self.cell(column + 3 * dc, row + 3 * dr) == p
    }

    /// `p` has four in a line from (`column`, `row`): down the column, along the row, or along
    /// either diagonal.
    pub open spec fn line_of(&self, p: Player, column: int, row: int) -> bool {
        ||| self.four_of(p, column, row, 0, 1)
        ||| self.four_of(p, column, row, 1, 0)
        ||| self.four_of(p, column, row, 1, -1)
        ||| self.four_of(p, column, row, 1, 1)
    }

    /// `p` has four in a line somewhere on the board.
    pub open spec fn wins(&self, p: Player) -> bool {
        is_player(p) && exists|column: int, row: int| self.line_of(p, column, row)
    }

    /// The columns below `n` that still take a stone, in increasing order.
    pub open spec fn valid_prefix(&self, n: int) -> Seq<usize>
        decreases n,
    {
        if n <= 0 {
            seq![]
        } else if self.remaining(n - 1) > 0 {
            self.valid_prefix(n - 1).push((n - 1) as usize)
        } else {
            self.valid_prefix(n - 1)
        }
    }

    /// The columns that still take a stone, in increasing order.
    pub open spec fn valid_columns(&self) -> Seq<usize> {
        self.valid_prefix(self.columns_spec() as int)
    }

    /// Free cells in the columns below `n`.
    pub open spec fn free_prefix(&self, n: int) -> nat
        decreases n,
    {
        if n <= 0 {
            0
        } else {
            self.free_prefix(n - 1) + self.remaining(n - 1)
        }
    }

    /// Free cells on the board.
    pub open spec fn free_cells(&self) -> nat {
        self.free_prefix(self.columns_spec() as int)
    }

    /// The masks hold the stones of a board that fits them: only cells have bits, no cell has
    /// two owners, and each column is filled from the bottom with as many stones as its counter
    /// says.
    pub closed spec fn wf(&self) -> bool {
        let rows = self.rows as int;
        let columns = self.columns as int;
        &&& fits(columns, rows)
        &&& self.last_player.0 <= 2
        &&& forall|c: int| 0 <= c < columns ==> #[trigger] self.empty_per_column@[c] <= rows
        &&& forall|k: int|
            0 <= k < 2 ==> sentinels_clear(#[trigger] self.mask(k), rows)
        &&& forall|k: int, i: int|
            0 <= k < 2 && #[trigger] bit(self.mask(k), i) ==> i < columns * (rows + 1)
        &&& forall|i: int| !(#[trigger] bit(self.mask(0), i) && bit(self.mask(1), i))
        &&& forall|c: int, r: int|
            0 <= c < columns && 0 <= r < rows ==> ((#[trigger] self.cell(c, r) != Player(0)) <==> r
                >= self.empty_per_column@[c])
    }

    /// An empty board, or `Err` where `columns * (rows + 1)` exceeds 64 or `columns` exceeds 12.
    pub fn new(columns: usize, rows: usize) -> (r: Result<Self, ()>)
        ensures
            r is Ok <==> fits(columns as int, rows as int),
            r matches Ok(s) ==> {
                &&& s.wf()
                &&& s.columns_spec() == columns
                &&& s.rows_spec() == rows
                &&& forall|c: int| 0 <= c < columns ==> #[trigger] s.remaining(c) == rows
                &&& forall|c: int, r: int| #[trigger] s.cell(c, r) == Player(0)
                &&& s.last_player_spec() == Player(0)
            },
    {
        let fits_masks = if columns > 12 {
            false
        } else if columns == 0 {
            true
        } else if rows > 63 {
            assert(columns * (rows + 1) > 64) by (nonlinear_arith)
                requires
                    columns > 0,
                    rows > 63,
            ;
            false
        } else {
            assert(columns * (rows + 1) <= 12 * 64) by (nonlinear_arith)
                requires
                    columns <= 12,
                    rows <= 63,
            ;
            columns * (rows + 1) <= 64
        };
        if !fits_masks {
            Err(())
        } else {
            let fill: u8 = if columns == 0 {
                0
            } else {
                rows as u8
            };
            let s = BitState {
                state: [BitBoard(0), BitBoard(0)],
                empty_per_column: [fill; 12],
                columns: columns as u8,
                rows: rows,
                last_player: Player(0),
                last_column: 255,
            };
            proof {
                assert forall|k: int, i: int| 0 <= k < 2 implies !#[trigger] bit(s.mask(k), i) by {
                    if 0 <= i < 64 {
                        lemma_zero_no_bit(i as u64);
                    }
                }
            }
            Ok(s)
        }
    }

    /// Who holds the cell in `column` and `row`.
    pub fn get(&self, column: usize, row: usize) -> (r: Player)
        requires
            self.wf(),
            column < self.columns_spec(),
            row < self.rows_spec(),
        ensures
            r == self.cell(column as int, row as int),
    {
        proof {
            lemma_cell_index_bound(column as int, row as int, self.columns as int, self.rows as int);
        }
        let b1 = self.state[1].get_bit(column as u8, row as u8, self.rows as u8);
        let b0 = self.state[0].get_bit(column as u8, row as u8, self.rows as u8);
        proof {
            let i = cell_index(column as int, row as int, self.rows as int);
            assert(!(bit(self.mask(0), i) && bit(self.mask(1), i)));
        }
        Player(2 * b1 + b0)
    }

    /// Puts a stone of `player` on the free cell in `column` and `row`.
    fn set(&mut self, column: usize, row: usize, player: Player)
        requires
            old(self).wf(),
            column < old(self).columns_spec(),
            row < old(self).rows_spec(),
            is_player(player),
        ensures
            final(self).empty_per_column == old(self).empty_per_column,
            final(self).columns == old(self).columns,
            final(self).rows == old(self).rows,
            final(self).last_player == old(self).last_player,
            final(self).last_column == old(self).last_column,
            final(self).state@ == old(self).state@.update(
                player.0 - 1,
                BitBoard(
                    old(self).state@[player.0 - 1].0 | (1u64 << (cell_index(
                        column as int,
                        row as int,
                        old(self).rows as int,
                    ) as u64)),
                ),
            ),
            forall|k: int, i: int|
                0 <= k < 2 ==> (#[trigger] bit(final(self).mask(k), i) <==> (bit(old(self).mask(k), i)
                    || (k == player.0 - 1 && i == cell_index(
                    column as int,
                    row as int,
                    old(self).rows as int,
                )))),
    {
        proof {
            lemma_cell_index_bound(column as int, row as int, self.columns as int, self.rows as int);
        }
        let k: usize = player.0 as usize - 1;
        let mut board = self.state[k];
        board.set_bit(column as u8, row as u8, self.rows as u8);
        self.state[k] = board;
        proof {
            assert(self.mask(k as int) == board@);
            assert(self.mask(1 - k as int) == old(self).mask(1 - k as int));
        }
    }

    /// `Ok` where `column` is on the board and not full; else the error that says which.
    fn validate_move(&self, column_number: usize) -> (r: Result<(), InvalidMove>)
        requires
            self.wf(),
        ensures
            r == (if column_number >= self.columns_spec() {
                Err(InvalidMove::InvalidColumn(column_number))
            } else if self.remaining(column_number as int) == 0 {
                Err(InvalidMove::ColumnFull(column_number))
            } else {
                Ok(())
            }),
    {
        let max_column = self.size().0;
        if column_number >= max_column {
            Err(InvalidMove::InvalidColumn(column_number))
        } else if self.empty_per_column[column_number] == 0 {
            Err(InvalidMove::ColumnFull(column_number))
        } else {
            Ok(())
        }
    }

    /// Drops a stone of `player` into `column`; the board is left as it was on an error.
    pub fn play(&mut self, column: usize, player: Player) -> (r: Result<(), InvalidMove>)
        requires
            old(self).wf(),
            is_player(player),
        ensures
            final(self).wf(),
            r == (if column >= old(self).columns_spec() {
                Err(InvalidMove::InvalidColumn(column))
            } else if old(self).remaining(column as int) == 0 {
                Err(InvalidMove::ColumnFull(column))
            } else {
                Ok(())
            }),
            r is Ok ==> drops(*old(self), *final(self), column as int, player),
            r is Ok ==> old(self).cell(column as int, old(self).remaining(column as int) - 1) == Player(
                0,
            ),
            r is Ok ==> *final(self) == old(self).after(column as int, player),
            r is Err ==> *final(self) == *old(self),
    {
        match self.validate_move(column) {
            Err(e) => {
                return Err(e);
            },
            Ok(()) => {},
        }
        let ghost pre = *self;
        let row = self.empty_per_column[column] as usize - 1;
        self.set(column, row, player);
        let ghost mid = *self;
        self.empty_per_column[column] = self.empty_per_column[column] - 1;
        self.last_player = player;
        self.last_column = column as u8;
        proof {
            assert(self.state == mid.state);
            assert forall|k: int, i: int| 0 <= k < 2 implies (#[trigger] bit(self.mask(k), i) <==> (
            bit(pre.mask(k), i) || (k == player.0 - 1 && i == cell_index(
                column as int,
                row as int,
                pre.rows as int,
            )))) by {
                assert(self.mask(k) == mid.mask(k));
                assert(bit(mid.mask(k), i) <==> (bit(pre.mask(k), i) || (k == player.0 - 1 && i
                    == cell_index(column as int, row as int, pre.rows as int))));
            }
            lemma_drop_effect(pre, *self, column as int, row as int, player);
            lemma_after_matches(pre, *self, column as int, player);
        }
        Ok(())
    }

    /// Whether the player who moved last has four in a line.
    pub fn has_just_won(&self) -> (r: bool)
        requires
            self.wf(),
        ensures
            r == self.wins(self.last_player_spec()),
    {
        let Player(p) = self.last_player;
        if p == 0 {
            false
        } else {
            let k: usize = p as usize - 1;
            proof {
                assert(sentinels_clear(self.mask(k as int), self.rows as int));
                lemma_mask_lines(*self, k as int);
            }
            if self.columns == 0 {
                proof {
                    assert forall|c: int, r: int| !self.line_of(Player(p), c, r) by {}
                }
                false
            } else {
                proof {
                    assert(self.rows <= 63) by (nonlinear_arith)
                        requires
                            self.columns >= 1,
                            self.columns * (self.rows + 1) <= 64,
                    ;
                }
                self.state[k].has_winner(self.rows as u8)
            }
        }
    }

    /// Appends to the emptied `valid_moves` the columns that still take a stone, in order.
    #[inline(always)]
    pub fn valid_moves_fast(&self, valid_moves: &mut Vec<usize>)
        requires
            self.wf(),
        ensures
            final(valid_moves)@ == self.valid_columns(),
    {
        valid_moves.clear();
        let columns = self.columns as usize;
        let mut i: usize = 0;
        while i < columns
            invariant
                columns == self.columns_spec(),
                i <= columns,
                columns <= 12,
                valid_moves@ == self.valid_prefix(i as int),
            decreases columns - i,
        {
            if self.empty_per_column[i] != 0 {
                valid_moves.push(i);
            }
            i = i + 1;
        }
    }

    /// The columns that still take a stone, in order.
    pub fn valid_moves(&self) -> (r: Vec<usize>)
        requires
            self.wf(),
        ensures
            r@ == self.valid_columns(),
    {
        let columns = self.size().0;
        let mut moves = Vec::with_capacity(columns);
        self.valid_moves_fast(&mut moves);
        moves
    }

    /// The cells of `row` from the first column to the last; `None` below the board.
    pub fn row(&self, row: usize) -> (r: Option<Vec<Player>>)
        requires
            self.wf(),
        ensures
            r is None <==> row >= self.rows_spec(),
            r matches Some(v) ==> v@.len() == self.columns_spec() && forall|c: int|
                0 <= c < v@.len() ==> #[trigger] v@[c] == self.cell(c, row as int),
    {
        if row >= self.size().1 {
            return None;
        }
        let columns = self.size().0;
        let mut cells: Vec<Player> = Vec::with_capacity(columns);
        let mut column: usize = 0;
        while column < columns
            invariant
                self.wf(),
                columns == self.columns_spec(),
                row < self.rows_spec(),
                column <= columns,
                cells@.len() == column,
                forall|c: int| 0 <= c < column ==> #[trigger] cells@[c] == self.cell(c, row as int),
            decreases columns - column,
        {
            cells.push(self.get(column, row));
            column = column + 1;
        }
        Some(cells)
    }

    /// The number of columns and of rows.
    pub fn size(&self) -> (r: (usize, usize))
        ensures
            r == (self.columns_spec() as usize, self.rows_spec() as usize),
    {
        (self.columns as usize, self.rows)
    }
}

/// A game: the board, whose turn it is, and the winner once there is one.
#[derive(Copy, Clone, Debug)]
pub struct ConnectFour {
    state: BitState,
    current_player: Player,
    winner: Option<Player>,
}

/// The other of the two players.
pub open spec fn opponent(p: Player) -> Player {
    Player((3 - p.0) as u8)
}

/// `post` is `pre` after the player to move drops a stone into `column`: the turn passes, and
/// the mover becomes the winner where the stone completes a line of four.
pub open spec fn advances(pre: ConnectFour, post: ConnectFour, column: int) -> bool {
    let p = pre.current();
    &&& drops(pre.board(), post.board(), column, p)
    &&& post.current() == opponent(p)
    &&& post.winner_spec() == (if post.board().wins(p) {
        Some(p)
    } else {
        pre.winner_spec()
    })
}

impl ConnectFour {
    pub closed spec fn board(&self) -> BitState {
        self.state
    }

    pub closed spec fn current(&self) -> Player {
        self.current_player
    }

    pub closed spec fn winner_spec(&self) -> Option<Player> {
        self.winner
    }

    /// The board is well formed, one of the two players is to move, and the winner is the
    /// player with four in a line, if any.
    pub closed spec fn wf(&self) -> bool {
        &&& self.state.wf()
        &&& is_player(self.current_player)
        &&& match self.winner {
            None => !self.state.wins(Player(1)) && !self.state.wins(Player(2)),
            Some(w) => is_player(w) && self.state.wins(w),
        }
    }

    /// The game after the player to move drops a stone into the free `column`.
    pub closed spec fn after(&self, column: int) -> ConnectFour {
        let p = self.current_player;
        let state = self.state.after(column, p);
        ConnectFour {
            state: state,
            current_player: opponent(p),
            winner: if state.wins(p) {
                Some(p)
            } else {
                self.winner
            },
        }
    }

    /// No move is left, or someone has won.
    pub open spec fn ended(&self) -> bool {
        self.board().valid_columns().len() == 0 || self.winner_spec() is Some
    }

    /// A new game on an empty board with `Player(1)` to move; `Err` where the board does not
    /// fit the masks.
    pub fn new(columns: usize, rows: usize) -> (r: Result<ConnectFour, ()>)
        ensures
            r is Ok <==> fits(columns as int, rows as int),
            r matches Ok(g) ==> {
                &&& g.wf()
                &&& g.board().columns_spec() == columns
                &&& g.board().rows_spec() == rows
                &&& forall|c: int| 0 <= c < columns ==> #[trigger] g.board().remaining(c) == rows
                &&& forall|c: int, r: int| #[trigger] g.board().cell(c, r) == Player(0)
                &&& g.current() == Player(1)
                &&& g.winner_spec() is None
            },
    {
        let state = match BitState::new(columns, rows) {
            Ok(state) => state,
            Err(e) => {
                return Err(e);
            },
        };
        proof {
            assert(!state.wins(Player(1)) && !state.wins(Player(2))) by {
                assert forall|p: Player, c: int, r: int| !state.line_of(p, c, r) || p == Player(0) by {}
            }
        }
        Ok(ConnectFour { current_player: Player(1), state: state, winner: None })
    }

    /// The number of columns and of rows.
    pub fn size(&self) -> (r: (usize, usize))
        ensures
            r == (self.board().columns_spec() as usize, self.board().rows_spec() as usize),
    {
        self.state.size()
    }

    /// The player who is not to move.
    pub fn other_player(&self) -> (r: Player)
        requires
            self.wf(),
        ensures
            r == opponent(self.current()),
    {
        let Player(p) = self.current_player();
        Player(3 - p)
    }

    /// No move is left, or someone has won.
    pub fn has_ended(&self) -> (r: bool)
        requires
            self.wf(),
        ensures
            r == self.ended(),
    {
        self.valid_moves().len() == 0 || self.winner().is_some()
    }

    /// The player to move drops a stone into `column_number`. Returns the mover where the stone
    /// completes a line of four; the game is left as it was on an error.
    pub fn play(&mut self, column_number: Move) -> (r: Result<Option<Player>, InvalidMove>)
        requires
            old(self).wf(),
        ensures
            final(self).wf(),
            r is Err ==> *final(self) == *old(self),
            r matches Err(e) ==> e == (if column_number >= old(self).board().columns_spec() {
                InvalidMove::InvalidColumn(column_number)
            } else {
                InvalidMove::ColumnFull(column_number)
            }),
            r is Ok <==> column_number < old(self).board().columns_spec() && old(self).board().remaining(
                column_number as int,
            ) > 0,
            r is Ok ==> advances(*old(self), *final(self), column_number as int),
            r is Ok ==> *final(self) == old(self).after(column_number as int),
            r matches Ok(w) ==> w == (if final(self).board().wins(old(self).current()) {
                Some(old(self).current())
            } else {
                None
            }),
    {
        let player = self.current_player();
        let ghost pre = *self;
        match self.state.play(column_number, player) {
            Err(e) => {
                return Err(e);
            },
            Ok(()) => {},
        }
        self.next_player();
        proof {
            lemma_drop_keeps_other(pre.state, self.state, column_number as int, player, opponent(player));
            if let Some(w) = pre.winner {
                if w == player {
                    lemma_drop_keeps_own(pre.state, self.state, column_number as int, player);
                }
            }
        }
        if self.state.has_just_won() {
            self.winner = Some(player);
            Ok(self.winner)
        } else {
            Ok(None)
        }
    }

    /// The winner, once there is one.
    pub fn winner(&self) -> (r: Option<Player>)
        ensures
            r == self.winner_spec(),
    {
        self.winner
    }

    /// The columns that still take a stone, in order.
    pub fn valid_moves(&self) -> (r: Vec<Move>)
        requires
            self.wf(),
        ensures
            r@ == self.board().valid_columns(),
    {
        self.state.valid_moves()
    }

    /// Appends to the emptied `valid_moves` the columns that still take a stone, in order.
    pub fn valid_moves_fast(&self, valid_moves: &mut Vec<Move>)
        requires
            self.wf(),
        ensures
            final(valid_moves)@ == self.board().valid_columns(),
    {
        self.state.valid_moves_fast(valid_moves);
    }

    /// The board.
    pub fn state(&self) -> (r: &BitState)
        ensures
            *r == self.board(),
    {
        &self.state
    }

    /// The player to move.
    pub fn current_player(&self) -> (r: Player)
        ensures
            r == self.current(),
    {
        self.current_player
    }

    /// Passes the turn.
    fn next_player(&mut self)
        requires
            is_player(old(self).current_player),
        ensures
            final(self).current_player == opponent(old(self).current_player),
            final(self).state == old(self).state,
            final(self).winner == old(self).winner,
    {
        self.current_player = Player(3 - self.current_player.0);
    }
}

impl ConnectFour {
    /// The game played out by `players` taking turns, the first of them moving first.
    pub fn iter(self, players: Vec<MonteCarloPlayer>) -> (r: Moves)
        requires
            self.wf(),
            players@.len() > 0,
            forall|i: int| 0 <= i < players@.len() ==> #[trigger] players@[i].wf(),
        ensures
            r.wf(),
            r.game_spec() == self,
            r.players_spec() == players@,
            r.turn() == 0,
    {
        Moves::new(self, players)
    }
}

/// A game in progress between players that take turns.
pub struct Moves {
    game: ConnectFour,
    players: Vec<MonteCarloPlayer>,
    current_player_index: usize,
}

impl Moves {
    pub closed spec fn game_spec(&self) -> ConnectFour {
        self.game
    }

    pub closed spec fn players_spec(&self) -> Seq<MonteCarloPlayer> {
        self.players@
    }

    /// The position in `players_spec()` of the player whose turn it is.
    pub closed spec fn turn(&self) -> nat {
        self.current_player_index as nat
    }

    /// The game is well formed and the player whose turn it is exists.
    pub closed spec fn wf(&self) -> bool {
        &&& self.game.wf()
        &&& self.current_player_index < self.players@.len()
        &&& forall|i: int| 0 <= i < self.players@.len() ==> #[trigger] self.players@[i].wf()
    }

    fn new(game: ConnectFour, players: Vec<MonteCarloPlayer>) -> (r: Moves)
        requires
            game.wf(),
            players@.len() > 0,
            forall|i: int| 0 <= i < players@.len() ==> #[trigger] players@[i].wf(),
        ensures
            r.wf(),
            r.game_spec() == game,
            r.players_spec() == players@,
            r.turn() == 0,
    {
        Moves { game: game, players: players, current_player_index: 0 }
    }

    /// The next move: the player whose turn it is chooses a column with `rng` and plays it.
    /// Returns the board after it, the mover, the column and how the game stands; `None` once
    /// the game has ended.
    pub fn next(&mut self, rng: &mut Xoshiro256StarStar) -> (r: Option<(BitState, Player, Move, Winner)>)
        requires
            old(self).wf(),
        ensures
            final(self).wf(),
            r is None <==> old(self).game_spec().ended(),
            r is None ==> final(self).game_spec() == old(self).game_spec() && final(self).turn()
                == old(self).turn(),
            final(self).players_spec() == old(self).players_spec(),
            r is Some ==> final(self).turn() == (old(self).turn() + 1) % old(self).players_spec().len(),
            r matches Some((state, player, column, winner)) ==> {
                &&& advances(old(self).game_spec(), final(self).game_spec(), column as int)
                &&& state == final(self).game_spec().board()
                &&& player == old(self).game_spec().current()
                &&& winner == if state.wins(player) {
                    Winner::Winner(player)
                } else if final(self).game_spec().ended() {
                    Winner::Draw
                } else {
                    Winner::NotFinishedYet
                }
            },
    {
        if self.game.has_ended() || self.game.valid_moves().len() == 0 {
            return None;
        }
        let num_players = self.players.len();
        let player = self.game.current_player();
        let column = self.players[self.current_player_index].make_move(&self.game, rng);
        proof {
            lemma_game_wf(self.game);
            lemma_valid_prefix(self.game.board(), self.game.board().columns_spec() as int);
        }
        let played = self.game.play(column);
        let maybe_winner = played.unwrap();
        self.current_player_index = (self.current_player_index + 1) % num_players;
        let winner = match maybe_winner {
            Some(winner) => Winner::Winner(winner),
            None => if self.game.has_ended() {
                Winner::Draw
            } else {
                Winner::NotFinishedYet
            },
        };
        Some((*self.game.state(), player, column, winner))
    }
}

/// Playing `moves` one after another from `game` leads to `end`: each is played while the
/// game is still on, into a column that takes a stone.
pub open spec fn plays_out(game: ConnectFour, moves: Seq<Move>, end: ConnectFour) -> bool
    decreases moves.len(),
{
    if moves.len() == 0 {
        end == game
    } else {
        &&& !game.ended()
        &&& game.board().valid_columns().contains(moves[0])
        &&& plays_out(game.after(moves[0] as int), moves.drop_first(), end)
    }
}

/// One more move, played while the game is on, extends a line of play.
pub proof fn lemma_plays_out_extend(game: ConnectFour, moves: Seq<Move>, end: ConnectFour, column: Move)
    requires
        plays_out(game, moves, end),
        !end.ended(),
        end.board().valid_columns().contains(column),
    ensures
        plays_out(game, moves.push(column), end.after(column as int)),
    decreases moves.len(),
{
    let longer = moves.push(column);
    if moves.len() > 0 {
        assert(longer.drop_first() =~= moves.drop_first().push(column));
        assert(longer[0] == moves[0]);
        lemma_plays_out_extend(game.after(moves[0] as int), moves.drop_first(), end, column);
    } else {
        assert(longer.drop_first() =~= Seq::<Move>::empty());
        assert(longer[0] == column);
        assert(plays_out(end.after(column as int), Seq::<Move>::empty(), end.after(column as int)));
    }
}

/// A move played while the game is on, followed by a line of play, is a line of play.
pub proof fn lemma_plays_out_prepend(game: ConnectFour, column: Move, moves: Seq<Move>, end: ConnectFour)
    requires
        !game.ended(),
        game.board().valid_columns().contains(column),
        plays_out(game.after(column as int), moves, end),
    ensures
        plays_out(game, seq![column] + moves, end),
{
    assert((seq![column] + moves).drop_first() =~= moves);
}

/// `post` is `pre` with a stone of `player` dropped into `column`: it lands on the lowest
/// free cell, row `remaining(column) - 1`, and nothing else on the board changes.
pub open spec fn drops(pre: BitState, post: BitState, column: int, player: Player) -> bool {
    let landing = pre.remaining(column) - 1;
    &&& 0 <= column < pre.columns_spec()
    &&& pre.remaining(column) > 0
    &&& post.columns_spec() == pre.columns_spec()
    &&& post.rows_spec() == pre.rows_spec()
    &&& post.remaining(column) == pre.remaining(column) - 1
    &&& forall|c: int|
        0 <= c < pre.columns_spec() && c != column ==> #[trigger] post.remaining(c) == pre.remaining(c)
    &&& post.cell(column, landing) == player
    &&& forall|c: int, r: int|
        !(c == column && r == landing) ==> #[trigger] post.cell(c, r) == pre.cell(c, r)
    &&& post.last_player_spec() == player
    &&& post.last_column_spec() == column
}

/// `q`'s cells are the same before and after `p` drops a stone, for `q` other than `p`.
proof fn lemma_drop_keeps_other(pre: BitState, post: BitState, column: int, p: Player, q: Player)
    requires
        pre.wf(),
        drops(pre, post, column, p),
        is_player(q),
        q != p,
    ensures
        post.wins(q) == pre.wins(q),
{
    let landing = pre.remaining(column) - 1;
    assert(pre.cell(column, landing) == Player(0)) by {
        assert(pre.cell(column, landing) != Player(0) <==> landing >= pre.empty_per_column@[column]);
    }
    assert forall|c: int, r: int| #[trigger] post.cell(c, r) == q <==> pre.cell(c, r) == q by {
        if c == column && r == landing {
        }
    }
    if pre.wins(q) {
        let (c, r) = choose|c: int, r: int| pre.line_of(q, c, r);
        assert(post.line_of(q, c, r));
    }
    if post.wins(q) {
        let (c, r) = choose|c: int, r: int| post.line_of(q, c, r);
        assert(pre.line_of(q, c, r));
    }
}

/// A line of four of `p` stays when `p` drops another stone.
proof fn lemma_drop_keeps_own(pre: BitState, post: BitState, column: int, p: Player)
    requires
        drops(pre, post, column, p),
        pre.wins(p),
    ensures
        post.wins(p),
{
    let landing = pre.remaining(column) - 1;
    assert forall|c: int, r: int| pre.cell(c, r) == p implies #[trigger] post.cell(c, r) == p by {
        if c == column && r == landing {
        }
    }
    let (c, r) = choose|c: int, r: int| pre.line_of(p, c, r);
    assert(post.line_of(p, c, r));
}

/// Distinct cells have distinct bits.
proof fn lemma_cell_index_injective(c1: int, r1: int, c2: int, r2: int, rows: int)
    requires
        rows >= 0,
        0 <= r1 <= rows,
        0 <= r2 <= rows,
        cell_index(c1, r1, rows) == cell_index(c2, r2, rows),
    ensures
        c1 == c2,
        r1 == r2,
{
    let x = cell_index(c1, r1, rows);
    lemma_fundamental_div_mod_converse(x, rows + 1, c1, r1);
    lemma_fundamental_div_mod_converse(x, rows + 1, c2, r2);
}

/// A cell of a board that fits the masks has its bit below `columns * (rows + 1) <= 64`.
proof fn lemma_cell_index_bound(column: int, row: int, columns: int, rows: int)
    requires
        fits(columns, rows),
        0 <= column < columns,
        0 <= row < rows,
    ensures
        0 <= cell_index(column, row, rows) < columns * (rows + 1),
        columns * (rows + 1) <= 64,
        rows <= 63,
        cell_index(column, row, rows) % (rows + 1) == row,
{
    assert(0 <= cell_index(column, row, rows) < columns * (rows + 1)) by (nonlinear_arith)
        requires
            0 <= column < columns,
            0 <= row < rows,
    ;
    assert(rows <= 63) by (nonlinear_arith)
        requires
            columns >= 1,
            columns * (rows + 1) <= 64,
    ;
    lemma_fundamental_div_mod_converse(cell_index(column, row, rows), rows + 1, column, row);
}

/// What a well-formed board guarantees: it fits the masks, no column counts more free cells
/// than it has rows, and a cell is occupied exactly when its row is at or below the column's
/// free cells.
pub proof fn lemma_board_wf(s: BitState)
    requires
        s.wf(),
    ensures
        fits(s.columns_spec() as int, s.rows_spec() as int),
        forall|c: int| 0 <= c < s.columns_spec() ==> #[trigger] s.remaining(c) <= s.rows_spec(),
        forall|c: int, r: int|
            0 <= c < s.columns_spec() && 0 <= r < s.rows_spec() ==> ((#[trigger] s.cell(c, r)
                != Player(0)) <==> r >= s.remaining(c)),
{
}

/// What a well-formed game guarantees of its parts.
pub proof fn lemma_game_wf(g: ConnectFour)
    requires
        g.wf(),
    ensures
        g.board().wf(),
        is_player(g.current()),
        g.board().columns_spec() <= 12,
        g.winner_spec() matches Some(w) ==> is_player(w),
{
}

/// The columns below `n` that `valid_prefix` lists are those below `n` that take a stone, in
/// increasing order.
pub proof fn lemma_valid_prefix(s: BitState, n: int)
    requires
        n <= 0xff,
    ensures
        s.valid_prefix(n).len() <= if n < 0 {
            0
        } else {
            n
        },
        forall|j: int|
            0 <= j < s.valid_prefix(n).len() ==> {
                let c = #[trigger] s.valid_prefix(n)[j];
                &&& c < n
                &&& s.remaining(c as int) > 0
            },
        forall|c: int|
            0 <= c < n && s.remaining(c) > 0 ==> #[trigger] s.valid_prefix(n).contains(c as usize),
        forall|a: int, b: int|
            0 <= a < b < s.valid_prefix(n).len() ==> s.valid_prefix(n)[a] < s.valid_prefix(n)[b],
    decreases n,
{
    if n > 0 {
        lemma_valid_prefix(s, n - 1);
        let p = s.valid_prefix(n - 1);
        if s.remaining(n - 1) > 0 {
            assert(s.valid_prefix(n) == p.push((n - 1) as usize));
            assert forall|c: int| 0 <= c < n && s.remaining(c) > 0 implies #[trigger] s.valid_prefix(
                n,
            ).contains(c as usize) by {
                if c < n - 1 {
                    assert(p.contains(c as usize));
                    let j = choose|j: int| 0 <= j < p.len() && p[j] == c as usize;
                    assert(p.push((n - 1) as usize)[j] == c as usize);
                } else {
                    assert(s.valid_prefix(n)[p.len() as int] == c as usize);
                }
            }
        }
    }
}

/// Dropping a stone takes one free cell off the columns below `n`, where the stone fell there.
proof fn lemma_drop_frees_prefix(pre: BitState, post: BitState, column: int, p: Player, n: int)
    requires
        drops(pre, post, column, p),
        n <= pre.columns_spec(),
    ensures
        post.free_prefix(n) == pre.free_prefix(n) - (if column < n {
            1int
        } else {
            0int
        }),
    decreases n,
{
    if n > 0 {
        lemma_drop_frees_prefix(pre, post, column, p, n - 1);
    }
}

/// Dropping a stone takes one free cell off the board.
pub proof fn lemma_drop_frees_one(pre: BitState, post: BitState, column: int, p: Player)
    requires
        drops(pre, post, column, p),
    ensures
        post.free_cells() == pre.free_cells() - 1,
{
    lemma_drop_frees_prefix(pre, post, column, p, pre.columns_spec() as int);
}

/// A column takes a stone exactly when it is on the board and holds fewer than `rows` stones.
pub proof fn lemma_valid_iff_not_full(s: BitState, column: usize)
    requires
        s.wf(),
    ensures
        s.valid_columns().contains(column) <==> (column < s.columns_spec() && s.filled(
            column as int,
        ) < s.rows_spec()),
{
    lemma_valid_prefix(s, s.columns_spec() as int);
    if s.valid_columns().contains(column) {
        let j = choose|j: int| 0 <= j < s.valid_columns().len() && s.valid_columns()[j] == column;
        assert(s.valid_columns()[j] < s.columns_spec());
    }
    if column < s.columns_spec() && s.remaining(column as int) > 0 {
        assert(s.valid_prefix(s.columns_spec() as int).contains((column as int) as usize));
    }
}

/// How many of the first `n` entries of `columns` are `column`.
pub open spec fn count_of(columns: Seq<int>, column: int, n: int) -> int
    decreases n,
{
    if n <= 0 {
        0
    } else {
        count_of(columns, column, n - 1) + (if columns[n - 1] == column {
            1int
        } else {
            0int
        })
    }
}

/// Stones dropped one by one on a well-formed board, into any columns: once `rows` of them
/// went into `column`, that column no longer takes a stone.
pub proof fn lemma_column_fills_up(
    boards: Seq<BitState>,
    columns: Seq<int>,
    players: Seq<Player>,
    column: int,
)
    requires
        boards.len() == columns.len() + 1,
        players.len() == columns.len(),
        boards[0].wf(),
        0 <= column < boards[0].columns_spec(),
        forall|k: int|
            0 <= k < columns.len() ==> drops(
                #[trigger] boards[k],
                boards[k + 1],
                columns[k],
                players[k],
            ),
        count_of(columns, column, columns.len() as int) == boards[0].rows_spec(),
    ensures
        !boards.last().valid_columns().contains(column as usize),
{
    let n = columns.len() as int;
    lemma_fill_count(boards, columns, players, column, n);
    let last = boards[n];
    assert(boards[0].empty_per_column@[column] <= boards[0].rows);
    assert(last.remaining(column) == 0);
    lemma_valid_prefix(last, last.columns_spec() as int);
    if last.valid_columns().contains(column as usize) {
        let j = choose|j: int|
            0 <= j < last.valid_columns().len() && last.valid_columns()[j] == column as usize;
        assert(last.valid_columns()[j] == column);
    }
}

proof fn lemma_fill_count(
    boards: Seq<BitState>,
    columns: Seq<int>,
    players: Seq<Player>,
    column: int,
    k: int,
)
    requires
        boards.len() == columns.len() + 1,
        0 <= column < boards[0].columns_spec(),
        forall|k: int|
            0 <= k < columns.len() ==> drops(
                #[trigger] boards[k],
                boards[k + 1],
                columns[k],
                players[k],
            ),
        0 <= k <= columns.len(),
    ensures
        boards[k].remaining(column) == boards[0].remaining(column) - count_of(columns, column, k),
        boards[k].columns_spec() == boards[0].columns_spec(),
    decreases k,
{
    if k > 0 {
        lemma_fill_count(boards, columns, players, column, k - 1);
        assert(drops(boards[k - 1], boards[k], columns[k - 1], players[k - 1]));
    }
}

/// Four stones of a player in a line, in any of the four directions, are a win for that
/// player, whatever else stands on the board.
pub proof fn lemma_four_in_line_wins(s: BitState, p: Player, column: int, row: int, dc: int, dr: int)
    requires
        is_player(p),
        (dc == 0 && dr == 1) || (dc == 1 && dr == 0) || (dc == 1 && dr == -1) || (dc == 1 && dr == 1),
        s.four_of(p, column, row, dc, dr),
    ensures
        s.wins(p),
{
    assert(s.line_of(p, column, row));
}

/// A player whose stones are at most three cells has not won.
pub proof fn lemma_three_stones_no_win(s: BitState, p: Player, a: (int, int), b: (int, int), c: (int, int))
    requires
        forall|x: int, y: int| #[trigger] s.cell(x, y) == p ==> (x, y) == a || (x, y) == b || (x, y) == c,
    ensures
        !s.wins(p),
{
    if s.wins(p) {
        let (x, y) = choose|x: int, y: int| s.line_of(p, x, y);
        assert(s.cell(x, y) == p);
    }
}

/// After `play` succeeds, the landing cell holds the mover and every other cell is as before.
pub proof fn lemma_play_then_get(pre: BitState, post: BitState, column: int, player: Player)
    requires
        drops(pre, post, column, player),
    ensures
        post.cell(column, pre.remaining(column) - 1) == player,
        forall|c: int, r: int|
            !(c == column && r == pre.remaining(column) - 1) ==> #[trigger] post.cell(c, r)
                == pre.cell(c, r),
{
}

/// A full board on which neither player has four in a line is a draw: no move is left and
/// there is no winner.
pub proof fn lemma_full_board_is_draw(g: ConnectFour)
    requires
        g.wf(),
        forall|c: int| 0 <= c < g.board().columns_spec() ==> #[trigger] g.board().filled(c) == g.board().rows_spec(),
        !g.board().wins(Player(1)),
        !g.board().wins(Player(2)),
    ensures
        g.board().valid_columns().len() == 0,
        g.winner_spec() is None,
        g.ended(),
{
    let s = g.board();
    lemma_valid_prefix(s, s.columns_spec() as int);
    if s.valid_columns().len() > 0 {
        let c = s.valid_columns()[0];
        assert(s.filled(c as int) == s.rows_spec());
    }
}

/// Fields that `play` leaves as they are make the board that `after` describes.
proof fn lemma_after_matches(pre: BitState, post: BitState, column: int, player: Player)
    requires
        is_player(player),
        0 <= column < 12,
        post.columns == pre.columns,
        post.rows == pre.rows,
        post.empty_per_column@ == pre.empty_per_column@.update(
            column,
            (pre.empty_per_column@[column] - 1) as u8,
        ),
        post.last_player == player,
        post.last_column == column as u8,
        post.state@ == pre.state@.update(
            player.0 - 1,
            BitBoard(
                pre.state@[player.0 - 1].0 | (1u64 << (cell_index(
                    column,
                    pre.remaining(column) - 1,
                    pre.rows as int,
                ) as u64)),
            ),
        ),
    ensures
        post == pre.after(column, player),
{
    let a = pre.after(column, player);
    assert(post.state =~= a.state);
    assert(post.empty_per_column =~= a.empty_per_column);
}

/// A stone of mask `k` on the board is a cell of `Player(k + 1)`, and the converse.
proof fn lemma_cell_owner(s: BitState, k: int, c: int, r: int)
    requires
        s.wf(),
        0 <= k < 2,
    ensures
        occupied(s.mask(k), s.rows as int, c, r) <==> s.cell(c, r) == Player((k + 1) as u8),
{
    let rows = s.rows as int;
    let columns = s.columns as int;
    if occupied(s.mask(k), rows, c, r) {
        let i = cell_index(c, r, rows);
        assert(bit(s.mask(k), i));
        assert(i < columns * (rows + 1));
        assert(c < columns) by (nonlinear_arith)
            requires
                i == c * (rows + 1) + r,
                0 <= r,
                i < columns * (rows + 1),
                rows >= 0,
        ;
        assert(!(bit(s.mask(0), i) && bit(s.mask(1), i)));
    }
}

/// A line of four in mask `k` is a line of four of `Player(k + 1)` on the board.
proof fn lemma_mask_lines(s: BitState, k: int)
    requires
        s.wf(),
        0 <= k < 2,
    ensures
        has_line(s.mask(k), s.rows as int) <==> s.wins(Player((k + 1) as u8)),
{
    let p = Player((k + 1) as u8);
    let rows = s.rows as int;
    let x = s.mask(k);
    assert forall|c: int, r: int|
        #![trigger occupied(x, rows, c, r)]
        #![trigger s.cell(c, r)]
        occupied(x, rows, c, r) <==> s.cell(c, r) == p by {
        lemma_cell_owner(s, k, c, r);
    }
    if has_line(x, rows) {
        let (c, r) = choose|c: int, r: int| crate::lines::line_at(x, rows, c, r);
        assert(s.line_of(p, c, r));
    }
    if s.wins(p) {
        let (c, r) = choose|c: int, r: int| s.line_of(p, c, r);
        assert(crate::lines::line_at(x, rows, c, r));
    }
}

/// What `play` does to the masks, the counters and the last mover amounts to `drops`, and
/// keeps the board well formed.
proof fn lemma_drop_effect(pre: BitState, post: BitState, column: int, row: int, player: Player)
    requires
        pre.wf(),
        is_player(player),
        0 <= column < pre.columns,
        pre.empty_per_column@[column] > 0,
        row == pre.empty_per_column@[column] - 1,
        post.columns == pre.columns,
        post.rows == pre.rows,
        post.empty_per_column@ == pre.empty_per_column@.update(
            column,
            (pre.empty_per_column@[column] - 1) as u8,
        ),
        post.last_player == player,
        post.last_column == column as u8,
        forall|k: int, i: int|
            0 <= k < 2 ==> (#[trigger] bit(post.mask(k), i) <==> (bit(pre.mask(k), i) || (k
                == player.0 - 1 && i == cell_index(column, row, pre.rows as int)))),
    ensures
        post.wf(),
        drops(pre, post, column, player),
{
    let rows = pre.rows as int;
    let columns = pre.columns as int;
    let idx = cell_index(column, row, rows);
    lemma_cell_index_bound(column, row, columns, rows);
    assert(pre.cell(column, row) == Player(0));
    assert(!bit(pre.mask(0), idx) && !bit(pre.mask(1), idx));
    assert forall|c: int, r: int| !(c == column && r == row) implies #[trigger] post.cell(c, r)
        == pre.cell(c, r) by {
        if 0 <= c < columns && 0 <= r < rows {
            lemma_cell_index_bound(c, r, columns, rows);
            if cell_index(c, r, rows) == idx {
                lemma_cell_index_injective(c, r, column, row, rows);
            }
        }
    }
    assert(post.cell(column, row) == player);
    assert forall|k: int| 0 <= k < 2 implies sentinels_clear(#[trigger] post.mask(k), rows) by {
        assert forall|i: int| #[trigger] bit(post.mask(k), i) implies i % (rows + 1) < rows by {
            assert(sentinels_clear(pre.mask(k), rows));
        }
    }
    assert forall|k: int, i: int| 0 <= k < 2 && #[trigger] bit(post.mask(k), i) implies i < columns
        * (rows + 1) by {}
    assert forall|i: int| !(#[trigger] bit(post.mask(0), i) && bit(post.mask(1), i)) by {}
    assert forall|c: int, r: int| 0 <= c < columns && 0 <= r < rows implies ((#[trigger] post.cell(
        c,
        r,
    ) != Player(0)) <==> r >= post.empty_per_column@[c]) by {
        if !(c == column && r == row) {
            assert(pre.cell(c, r) != Player(0) <==> r >= pre.empty_per_column@[c]);
        }
    }
    assert forall|c: int| 0 <= c < columns implies #[trigger] post.empty_per_column@[c] <= rows by {
        assert(pre.empty_per_column@[c] <= rows);
    }
}

} // verus!
