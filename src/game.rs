//! The game controller: owns the board, the score and whether the game is still alive.

use vstd::prelude::*;
use crate::board::{
    Board, Moves, SIZE, MAX_TILE, grid, resolved, resolve, differs, can_move, board_bounded,
    line_sum, board_sum,
};
use crate::laws::{lemma_line4, law_conservation};
use crate::random::random_below;

verus! {

/// Whether some move can still change the board.
#[derive(Clone, Copy, Debug, PartialEq, Eq, Structural)]
pub enum GameStates {
    ALIVE,
    DEAD,
}

/// What became of a move handed to the game.
#[derive(Clone, Copy, Debug, PartialEq, Eq, Structural)]
pub enum MoveOutcome {
    /// The board changed and a new tile was spawned.
    Accepted,
    /// The move would not change the board; nothing was done.
    NoEffect,
    /// The game had already ended; nothing was done.
    GameOver,
}

/// Largest score the game can hold: every tile stays below it, so every tile can
/// still be doubled.
pub const MAX_SCORE: u64 = MAX_TILE;

/// The state that follows from a board.
pub open spec fn status_of(g: Seq<Seq<u64>>) -> GameStates {
    if can_move(g) {
        GameStates::ALIVE
    } else {
        GameStates::DEAD
    }
}

/// Value of a spawned tile.
pub open spec fn spawn_value(four: bool) -> u64 {
    if four {
        4
    } else {
        2
    }
}

/// The cell with index `n` when the board is read row by row.
pub open spec fn flat_cell(g: Seq<Seq<u64>>, n: int) -> u64 {
    g[n / 4][n % 4]
}

/// The number of empty cells among the first `n`, reading the board row by row.
pub open spec fn empties_before(g: Seq<Seq<u64>>, n: int) -> int
    decreases n,
{
    if n <= 0 {
        0
    } else {
        empties_before(g, n - 1) + if flat_cell(g, n - 1) == 0 {
            1int
        } else {
            0
        }
    }
}

/// The number of empty cells of the board.
pub open spec fn empty_count(g: Seq<Seq<u64>>) -> int {
    empties_before(g, 16)
}

/// The board with `value` put into its empty cell number `pick`, counting the empty
/// cells row by row from 0; unchanged where it has no such cell.
pub open spec fn spawned(g: Seq<Seq<u64>>, pick: int, value: u64) -> Seq<Seq<u64>> {
    Seq::new(
        4,
        |i: int|
            Seq::new(
                4,
                |j: int|
                    if g[i][j] == 0 && empties_before(g, 4 * i + j) == pick {
                        value
                    } else {
                        g[i][j]
                    },
            ),
    )
}

/// The starting board: one tile of 2.
pub open spec fn start_grid() -> Seq<Seq<u64>> {
    seq![seq![0u64, 0, 0, 0], seq![0u64, 0, 2, 0], seq![0u64, 0, 0, 0], seq![0u64, 0, 0, 0]]
}

proof fn lemma_sum_cells(g: Seq<Seq<u64>>)
    requires
        g.len() == 4,
        forall|i: int| 0 <= i < 4 ==> #[trigger] g[i].len() == 4,
    ensures
        forall|i: int|
            0 <= i < 4 ==> #[trigger] line_sum(g[i]) == g[i][0] + g[i][1] + g[i][2] + g[i][3],
{
    assert forall|i: int|
        0 <= i < 4 implies #[trigger] line_sum(g[i]) == g[i][0] + g[i][1] + g[i][2] + g[i][3] by {
        lemma_line4(g[i]);
    }
}

/// Sum of the first `n` rows.
spec fn rows_sum(g: Seq<Seq<u64>>, n: int) -> int
    decreases n,
{
    if n <= 0 {
        0
    } else {
        rows_sum(g, n - 1) + line_sum(g[n - 1])
    }
}

/// A board whose cells sum to at most `MAX_SCORE` holds only tiles that can be doubled.
proof fn lemma_sum_bounds_cells(b: Board)
    requires
        board_sum(grid(b)) <= MAX_SCORE,
    ensures
        board_bounded(grid(b)),
{
    lemma_sum_cells(grid(b));
}

/// Writing `x` into one cell changes the sum by the difference.
proof fn lemma_sum_update(b: Board, c: Board, i: int, j: int, x: u64)
    requires
        0 <= i < 4,
        0 <= j < 4,
        grid(c) == grid(b).update(i, grid(b)[i].update(j, x)),
    ensures
        board_sum(grid(c)) == board_sum(grid(b)) - grid(b)[i][j] + x,
{
    lemma_sum_cells(grid(b));
    lemma_sum_cells(grid(c));
}

/// Puts a tile of 4, or of 2 where `four` is false, into the empty cell number `pick`,
/// counting the empty cells row by row from 0. A board without such a cell is returned
/// unchanged.
pub fn place_tile(b: &Board, pick: usize, four: bool) -> (r: Board)
    ensures
        grid(r) == spawned(grid(*b), pick as int, spawn_value(four)),
        board_sum(grid(r)) == board_sum(grid(*b)) + if (pick as int) < empty_count(grid(*b)) {
            spawn_value(four) as int
        } else {
            0
        },
{
    let ghost g = grid(*b);
    let value: u64 = if four {
        4
    } else {
        2
    };
    let mut out: Board = *b;
    let mut seen: usize = 0;
    let mut i: usize = 0;
    while i < SIZE
        invariant
            i <= 4,
            g == grid(*b),
            value == spawn_value(four),
            seen == empties_before(g, 4 * i),
            seen <= 4 * i,
            forall|p: int, q: int|
                0 <= p < i && 0 <= q < 4 ==> #[trigger] grid(out)[p][q] == spawned(
                    g,
                    pick as int,
                    value,
                )[p][q],
            forall|p: int, q: int|
                i <= p < 4 && 0 <= q < 4 ==> #[trigger] grid(out)[p][q] == g[p][q],
            board_sum(grid(out)) == board_sum(g) + if (pick as int) < seen {
                value as int
            } else {
                0
            },
        decreases 4 - i,
    {
        let mut j: usize = 0;
        while j < SIZE
            invariant
                i < 4,
                j <= 4,
                g == grid(*b),
                value == spawn_value(four),
                seen == empties_before(g, 4 * i + j),
                seen <= 4 * i + j,
                forall|p: int, q: int|
                    (0 <= p < i && 0 <= q < 4) || (p == i && 0 <= q < j)
                        ==> #[trigger] grid(out)[p][q]
                        == spawned(g, pick as int, value)[p][q],
                forall|p: int, q: int|
                    (i < p < 4 && 0 <= q < 4) || (p == i && j <= q < 4)
                        ==> #[trigger] grid(out)[p][q]
                        == g[p][q],
                board_sum(grid(out)) == board_sum(g) + if (pick as int) < seen {
                    value as int
                } else {
                    0
                },
            decreases 4 - j,
        {
            let ghost n = 4 * i + j;
            proof {
                assert(n / 4 == i && n % 4 == j);
                assert(flat_cell(g, n) == g[i as int][j as int]);
            }
            if b[i][j] == 0 {
                if seen == pick {
                    let ghost before = out;
                    out[i][j] = value;
                    proof {
                        assert(grid(out) =~~= grid(before).update(
                            i as int,
                            grid(before)[i as int].update(j as int, value),
                        ));
                        lemma_sum_update(before, out, i as int, j as int, value);
                    }
                }
                seen = seen + 1;
            }
            j = j + 1;
        }
        i = i + 1;
    }
    assert(grid(out) =~~= spawned(g, pick as int, value));
    out
}

/// The number of empty cells of the board.
pub fn count_empty(b: &Board) -> (r: usize)
    ensures
        r == empty_count(grid(*b)),
{
    let ghost g = grid(*b);
    let mut seen: usize = 0;
    let mut i: usize = 0;
    while i < SIZE
        invariant
            i <= 4,
            g == grid(*b),
            seen == empties_before(g, 4 * i),
            seen <= 4 * i,
        decreases 4 - i,
    {
        let mut j: usize = 0;
        while j < SIZE
            invariant
                i < 4,
                j <= 4,
                g == grid(*b),
                seen == empties_before(g, 4 * i + j),
                seen <= 4 * i + j,
            decreases 4 - j,
        {
            let ghost n = 4 * i + j;
            proof {
                assert(n / 4 == i && n % 4 == j);
                assert(flat_cell(g, n) == g[i as int][j as int]);
            }
            if b[i][j] == 0 {
                seen = seen + 1;
            }
            j = j + 1;
        }
        i = i + 1;
    }
    seen
}

/// One game: the board, its score and whether a move can still change it.
pub struct Game {
    score: u64,
    board: Board,
    state: GameStates,
}

impl Game {
    /// The board as rows of cells.
    pub closed spec fn cells(&self) -> Seq<Seq<u64>> {
        grid(self.board)
    }

    /// The score held by the game.
    pub closed spec fn total(&self) -> int {
        self.score as int
    }

    /// The state held by the game.
    pub closed spec fn status(&self) -> GameStates {
        self.state
    }

    /// The score is the sum of the cells and within bounds, and the state says whether
    /// some move can change the board.
    pub open spec fn wf(&self) -> bool {
        &&& self.total() == board_sum(self.cells())
        &&& self.total() <= MAX_SCORE
        &&& self.status() == status_of(self.cells())
    }

    /// A game on the starting board: one tile of 2.
    pub fn new() -> (g: Game)
        ensures
            g.wf(),
            g.cells() == start_grid(),
            g.total() == 2,
    {
        let mut g = Game { score: 0, board: Game::reset_board(), state: GameStates::ALIVE };
        proof {
            lemma_sum_cells(grid(g.board));
        }
        g.update_score();
        g.update_game_state();
        g
    }

    /// Starts over on the starting board.
    pub fn reset(&mut self)
        ensures
            final(self).wf(),
            final(self).cells() == start_grid(),
            final(self).total() == 2,
    {
        *self = Game::new();
    }

    /// The board of the game.
    pub fn board(&self) -> (r: Board)
        ensures
            grid(r) == self.cells(),
    {
        self.board
    }

    /// The score: the sum of all cells.
    pub fn score(&self) -> (r: u64)
        ensures
            r == self.total(),
    {
        self.score
    }

    /// Whether the game is still alive.
    pub fn state(&self) -> (r: GameStates)
        ensures
            r == self.status(),
    {
        self.state
    }

    /// Plays one move with the spawn decided by the caller: where the move changes the
    /// board, the new tile goes into the empty cell number `pick` (row by row from 0),
    /// and is a 4 where `four` holds, else a 2. A move that changes nothing is refused;
    /// a game that has ended takes no move.
    pub fn play(&mut self, next_move: Moves, pick: usize, four: bool) -> (r: MoveOutcome)
        requires
            old(self).wf(),
            old(self).total() + 4 <= MAX_SCORE,
        ensures
            final(self).wf(),
            ({
                let before = old(self).cells();
                let moved = resolved(before, next_move);
                if old(self).status() == GameStates::DEAD {
                    r == MoveOutcome::GameOver && final(self).cells() == before
                } else if moved == before {
                    r == MoveOutcome::NoEffect && final(self).cells() == before
                } else {
                    r == MoveOutcome::Accepted && final(self).cells() == spawned(
                        moved,
                        pick as int,
                        spawn_value(four),
                    )
                }
            }),
    {
        proof {
            lemma_sum_bounds_cells(self.board);
        }
        match self.state {
            GameStates::DEAD => {
                return MoveOutcome::GameOver;
            },
            GameStates::ALIVE => {},
        }
        let next_board = self.make_move(next_move);
        if self.scan_diff(&next_board) {
            proof {
                law_conservation(self.board, next_move);
            }
            self.board = place_tile(&next_board, pick, four);
            self.settle();
            MoveOutcome::Accepted
        } else {
            MoveOutcome::NoEffect
        }
    }

    /// Plays one move as `play` does, with the spawn drawn at random: a cell chosen
    /// uniformly among the empty ones, holding a 2 three times in four and a 4 otherwise.
    pub fn game_loop(&mut self, next_move: Moves) -> (r: MoveOutcome)
        requires
            old(self).wf(),
            old(self).total() + 4 <= MAX_SCORE,
        ensures
            final(self).wf(),
            ({
                let before = old(self).cells();
                let moved = resolved(before, next_move);
                if old(self).status() == GameStates::DEAD {
                    r == MoveOutcome::GameOver && final(self).cells() == before
                } else if moved == before {
                    r == MoveOutcome::NoEffect && final(self).cells() == before
                } else {
                    &&& r == MoveOutcome::Accepted
                    &&& exists|pick: int, four: bool|
                        (empty_count(moved) > 0 ==> 0 <= pick < empty_count(moved))
                            && final(self).cells() == spawned(moved, pick, spawn_value(four))
                }
            }),
    {
        proof {
            lemma_sum_bounds_cells(self.board);
        }
        match self.state {
            GameStates::DEAD => {
                return MoveOutcome::GameOver;
            },
            GameStates::ALIVE => {},
        }
        let next_board = self.make_move(next_move);
        if self.scan_diff(&next_board) {
            proof {
                law_conservation(self.board, next_move);
            }
            self.board = next_board;
            self.fill_empty_pos();
            self.settle();
            MoveOutcome::Accepted
        } else {
            MoveOutcome::NoEffect
        }
    }

    /// Spawns a tile into an empty cell chosen at random: a 2 three times in four, else a 4.
    fn fill_empty_pos(&mut self)
        ensures
            final(self).score == old(self).score,
            final(self).state == old(self).state,
            ({
                let before = grid(old(self).board);
                exists|pick: int, four: bool|
                    {
                        &&& empty_count(before) > 0 ==> 0 <= pick < empty_count(before)
                        &&& grid(final(self).board) == spawned(before, pick, spawn_value(four))
                        &&& board_sum(grid(final(self).board)) == board_sum(before) + if pick
                            < empty_count(before) {
                            spawn_value(four) as int
                        } else {
                            0
                        }
                    }
            }),
    {
        let n = count_empty(&self.board);
        let pick: usize = if n > 0 {
            random_below(n)
        } else {
            0
        };
        let four: bool = random_below(4) == 0;
        self.board = place_tile(&self.board, pick, four);
        assert(pick as int >= 0);
    }

    /// Recomputes the score and the state from the board.
    fn settle(&mut self)
        requires
            board_sum(grid(old(self).board)) <= MAX_SCORE,
        ensures
            final(self).board == old(self).board,
            final(self).wf(),
    {
        proof {
            lemma_sum_bounds_cells(self.board);
        }
        self.update_score();
        self.update_game_state();
    }

    fn reset_board() -> (r: Board)
        ensures
            grid(r) == start_grid(),
    {
        let r: Board = [[0, 0, 0, 0], [0, 0, 2, 0], [0, 0, 0, 0], [0, 0, 0, 0]];
        assert(grid(r) =~~= start_grid());
        r
    }

    fn update_score(&mut self)
        requires
            board_sum(grid(old(self).board)) <= MAX_SCORE,
        ensures
            final(self).score == board_sum(grid(old(self).board)),
            final(self).board == old(self).board,
            final(self).state == old(self).state,
    {
        let ghost g = grid(self.board);
        proof {
            lemma_sum_cells(g);
        }
        let mut total: u64 = 0;
        let mut i: usize = 0;
        while i < SIZE
            invariant
                i <= 4,
                g == grid(self.board),
                self.board == old(self).board,
                self.state == old(self).state,
                board_sum(g) <= MAX_SCORE,
                total == rows_sum(g, i as int),
            decreases 4 - i,
        {
            let row = self.board[i];
            proof {
                lemma_sum_cells(g);
                reveal_with_fuel(rows_sum, 5);
                assert(row@ == g[i as int]);
                assert(line_sum(g[i as int]) == row[0] + row[1] + row[2] + row[3]);
            }
            total = total + row[0] + row[1] + row[2] + row[3];
            i = i + 1;
        }
        proof {
            reveal_with_fuel(rows_sum, 5);
        }
        self.score = total;
    }

    fn scan_diff(&self, next_board: &Board) -> (r: bool)
        ensures
            r == (grid(self.board) != grid(*next_board)),
    {
        differs(&self.board, next_board)
    }

    fn make_move(&self, next_move: Moves) -> (r: Board)
        requires
            board_bounded(grid(self.board)),
        ensures
            grid(r) == resolved(grid(self.board), next_move),
    {
        resolve(&self.board, next_move)
    }

    fn update_game_state(&mut self)
        requires
            board_bounded(grid(old(self).board)),
        ensures
            final(self).state == status_of(grid(old(self).board)),
            final(self).board == old(self).board,
            final(self).score == old(self).score,
    {
        self.state = evaluate_state(&self.board);
    }
}

/// ALIVE where some move changes the board, found by trying all four; DEAD otherwise.
pub fn evaluate_state(b: &Board) -> (r: GameStates)
    requires
        board_bounded(grid(*b)),
    ensures
        r == status_of(grid(*b)),
{
    let moves_to_try: [Moves; 4] = [Moves::LEFT, Moves::RIGHT, Moves::UP, Moves::DOWN];
    let ghost g = grid(*b);
    let mut counter: usize = 0;
    while counter < 4
        invariant
            counter <= 4,
            g == grid(*b),
            board_bounded(g),
            moves_to_try@ == seq![Moves::LEFT, Moves::RIGHT, Moves::UP, Moves::DOWN],
            forall|k: int| 0 <= k < counter ==> resolved(g, #[trigger] moves_to_try@[k]) == g,
        decreases 4 - counter,
    {
        let next_board = resolve(b, moves_to_try[counter]);
        if differs(b, &next_board) {
            return GameStates::ALIVE;
        }
        counter = counter + 1;
    }
    assert(resolved(g, moves_to_try@[0]) == g);
    assert(resolved(g, moves_to_try@[1]) == g);
    assert(resolved(g, moves_to_try@[2]) == g);
    assert(resolved(g, moves_to_try@[3]) == g);
    GameStates::DEAD
}

} // verus!
