//! The move engine: compaction and merging of tiles along one of four directions.

use vstd::prelude::*;

verus! {

/// A direction in which the tiles move.
#[derive(Clone, Copy, Debug, PartialEq, Eq, Structural)]
pub enum Moves {
    LEFT,
    RIGHT,
    UP,
    DOWN,
}

impl Moves {
    /// The move chosen by its number on the menu: 1 up, 2 down, 3 left, 4 right.
    pub fn from_selector(n: u64) -> (r: Option<Moves>)
        ensures
            n == 1 ==> r == Some(Moves::UP),
            n == 2 ==> r == Some(Moves::DOWN),
            n == 3 ==> r == Some(Moves::LEFT),
            n == 4 ==> r == Some(Moves::RIGHT),
            (n < 1 || n > 4) <==> r.is_none(),
    {
        match n {
            1 => Some(Moves::UP),
            2 => Some(Moves::DOWN),
            3 => Some(Moves::LEFT),
            4 => Some(Moves::RIGHT),
            _ => None,
        }
    }
}

/// Side of the board.
pub const SIZE: usize = 4;

/// Largest tile value that can still be doubled without leaving `u64`.
pub const MAX_TILE: u64 = 0x7fff_ffff_ffff_ffff;

/// A board: `board[row][col]`, where 0 marks an empty cell.
pub type Board = [[u64; 4]; 4];

/// The tiles of a line in order, empty cells left out.
pub open spec fn tiles(s: Seq<u64>) -> Seq<u64>
    decreases s.len(),
{
    if s.len() == 0 {
        Seq::empty()
    } else if s[0] == 0 {
        tiles(s.drop_first())
    } else {
        seq![s[0]] + tiles(s.drop_first())
    }
}

/// Merges a sequence of tiles front to back: two equal neighbours become one tile
/// of twice the value, and a merged tile takes part in no further merge.
pub open spec fn merge_tiles(t: Seq<u64>) -> Seq<u64>
    decreases t.len(),
{
    if t.len() < 2 {
        t
    } else if t[0] == t[1] {
        seq![(2 * t[0]) as u64] + merge_tiles(t.subrange(2, t.len() as int))
    } else {
        seq![t[0]] + merge_tiles(t.drop_first())
    }
}

/// The line after a move toward its index 0: merged tiles first, then empty cells.
pub open spec fn slide(s: Seq<u64>) -> Seq<u64> {
    let m = merge_tiles(tiles(s));
    m + Seq::new((s.len() - m.len()) as nat, |_k: int| 0u64)
}

/// Every value of the line can be doubled without leaving `u64`.
pub open spec fn tiles_bounded(s: Seq<u64>) -> bool {
    forall|k: int| 0 <= k < s.len() ==> s[k] <= MAX_TILE
}

pub proof fn lemma_tiles_len(s: Seq<u64>)
    ensures
        tiles(s).len() <= s.len(),
        forall|k: int| 0 <= k < tiles(s).len() ==> tiles(s)[k] != 0,
        tiles_bounded(s) ==> tiles_bounded(tiles(s)),
    decreases s.len(),
{
    if s.len() > 0 {
        lemma_tiles_len(s.drop_first());
    }
}

pub proof fn lemma_merge_len(t: Seq<u64>)
    ensures
        merge_tiles(t).len() <= t.len(),
    decreases t.len(),
{
    if t.len() >= 2 {
        lemma_merge_len(t.subrange(2, t.len() as int));
        lemma_merge_len(t.drop_first());
    }
}

/// One step of merging when the tile `x` follows the tile `p` at the front.
proof fn lemma_merge_step(p: u64, x: u64, rest: Seq<u64>)
    ensures
        p == x ==> merge_tiles(seq![p, x] + rest) == seq![(2 * p) as u64] + merge_tiles(rest),
        p != x ==> merge_tiles(seq![p, x] + rest) == seq![p] + merge_tiles(seq![x] + rest),
{
    let t = seq![p, x] + rest;
    assert(t.subrange(2, t.len() as int) =~= rest);
    assert(t.drop_first() =~= seq![x] + rest);
}

/// Compacts one line toward its index 0, merging equal neighbours once.
pub fn compact_line(line: [u64; 4]) -> (r: [u64; 4])
    requires
        tiles_bounded(line@),
    ensures
        r@ == slide(line@),
{
    let mut out: [u64; 4] = [0, 0, 0, 0];
    let mut pos: usize = 0;
    let mut pending: u64 = 0;
    let mut k: usize = 0;
    proof {
        assert(line@.subrange(0, 4) =~= line@);
    }
    while k < SIZE
        invariant
            0 <= pos <= k <= 4,
            tiles_bounded(line@),
            forall|q: int| pos <= q < 4 ==> out@[q] == 0,
            pending != 0 ==> pos > 0 && out@[pos - 1] == pending,
            pending <= MAX_TILE,
            pending == 0 ==> merge_tiles(tiles(line@)) == out@.subrange(0, pos as int)
                + merge_tiles(tiles(line@.subrange(k as int, 4))),
            pending != 0 ==> merge_tiles(tiles(line@)) == out@.subrange(0, pos - 1)
                + merge_tiles(seq![pending] + tiles(line@.subrange(k as int, 4))),
        decreases 4 - k,
    {
        let x = line[k];
        let ghost rest = line@.subrange(k as int, 4);
        let ghost next = line@.subrange(k + 1, 4);
        let ghost before = out@;
        proof {
            assert(rest.drop_first() =~= next);
            assert(rest[0] == x);
        }
        if x != 0 {
            proof {
                assert(tiles(rest) == seq![x] + tiles(next));
            }
            if x == pending {
                out[pos - 1] = x * 2;
                pending = 0;
                proof {
                    lemma_merge_step(x, x, tiles(next));
                    assert(seq![x] + (seq![x] + tiles(next)) =~= seq![x, x] + tiles(next));
                    assert(out@.subrange(0, pos as int) =~= before.subrange(0, pos - 1) + seq![
                        (2 * x) as u64,
                    ]);
                }
            } else {
                out[pos] = x;
                proof {
                    if pending != 0 {
                        lemma_merge_step(pending, x, tiles(next));
                        assert(seq![pending] + (seq![x] + tiles(next)) =~= seq![pending, x]
                            + tiles(next));
                        assert(out@.subrange(0, pos as int) =~= before.subrange(0, pos - 1)
                            + seq![pending]);
                    } else {
                        assert(out@.subrange(0, pos as int) =~= before.subrange(0, pos as int));
                    }
                }
                pos = pos + 1;
                pending = x;
            }
        } else {
            proof {
                assert(tiles(rest) == tiles(next));
            }
        }
        k = k + 1;
    }
    proof {
        let done = line@.subrange(4, 4);
        assert(done =~= Seq::<u64>::empty());
        assert(tiles(done) =~= Seq::<u64>::empty());
        let m = merge_tiles(tiles(line@));
        if pending != 0 {
            assert(merge_tiles(seq![pending]) == seq![pending]);
            assert(seq![pending] + tiles(done) =~= seq![pending]);
            assert(m =~= out@.subrange(0, pos as int));
        } else {
            assert(m =~= out@.subrange(0, pos as int));
        }
        assert(out@ =~= slide(line@));
    }
    out
}

/// The board as rows of cells.
pub open spec fn grid(b: Board) -> Seq<Seq<u64>> {
    Seq::new(4, |i: int| b@[i]@)
}

pub open spec fn column(g: Seq<Seq<u64>>, j: int) -> Seq<u64> {
    Seq::new(4, |i: int| g[i][j])
}

/// Line `k` of the board as the move walks it, starting at the edge the tiles move to:
/// rows for LEFT and RIGHT, columns for UP and DOWN.
pub open spec fn line_of(g: Seq<Seq<u64>>, d: Moves, k: int) -> Seq<u64> {
    match d {
        Moves::LEFT => g[k],
        Moves::RIGHT => g[k].reverse(),
        Moves::UP => column(g, k),
        Moves::DOWN => column(g, k).reverse(),
    }
}

/// The cell at row `i`, column `j` after a move in direction `d`.
pub open spec fn moved_cell(g: Seq<Seq<u64>>, d: Moves, i: int, j: int) -> u64 {
    match d {
        Moves::LEFT => slide(line_of(g, d, i))[j],
        Moves::RIGHT => slide(line_of(g, d, i))[3 - j],
        Moves::UP => slide(line_of(g, d, j))[i],
        Moves::DOWN => slide(line_of(g, d, j))[3 - i],
    }
}

/// The board after a move in direction `d`.
pub open spec fn resolved(g: Seq<Seq<u64>>, d: Moves) -> Seq<Seq<u64>> {
    Seq::new(4, |i: int| Seq::new(4, |j: int| moved_cell(g, d, i, j)))
}

/// Sum of the values of a line.
pub open spec fn line_sum(s: Seq<u64>) -> int
    decreases s.len(),
{
    if s.len() == 0 {
        0
    } else {
        s[0] + line_sum(s.drop_first())
    }
}

/// Sum of all cells of the board.
pub open spec fn board_sum(g: Seq<Seq<u64>>) -> int {
    line_sum(g[0]) + line_sum(g[1]) + line_sum(g[2]) + line_sum(g[3])
}

/// Whether some move would change the board.
pub open spec fn can_move(g: Seq<Seq<u64>>) -> bool {
    resolved(g, Moves::LEFT) != g || resolved(g, Moves::RIGHT) != g || resolved(g, Moves::UP) != g
        || resolved(g, Moves::DOWN) != g
}

/// Every cell holds a value that may be doubled.
pub open spec fn board_bounded(g: Seq<Seq<u64>>) -> bool {
    forall|i: int, j: int| 0 <= i < 4 && 0 <= j < 4 ==> g[i][j] <= MAX_TILE
}

pub proof fn lemma_slide_len(s: Seq<u64>)
    ensures
        slide(s).len() == s.len(),
{
    lemma_tiles_len(s);
    lemma_merge_len(tiles(s));
}

/// The line of `b` that a move in direction `d` walks as its `k`-th, in walking order.
fn read_line(b: &Board, d: Moves, k: usize) -> (r: [u64; 4])
    requires
        k < 4,
    ensures
        r@ == line_of(grid(*b), d, k as int),
{
    let r = match d {
        Moves::LEFT => b[k],
        Moves::RIGHT => [b[k][3], b[k][2], b[k][1], b[k][0]],
        Moves::UP => [b[0][k], b[1][k], b[2][k], b[3][k]],
        Moves::DOWN => [b[3][k], b[2][k], b[1][k], b[0][k]],
    };
    assert(r@ =~= line_of(grid(*b), d, k as int));
    r
}

/// Moves all tiles of the board in direction `d`: each line is compacted toward the
/// edge the tiles move to, and equal neighbours merge once.
pub fn resolve(b: &Board, d: Moves) -> (r: Board)
    requires
        board_bounded(grid(*b)),
    ensures
        grid(r) == resolved(grid(*b), d),
{
    let ghost g = grid(*b);
    let mut out: Board = [[0, 0, 0, 0], [0, 0, 0, 0], [0, 0, 0, 0], [0, 0, 0, 0]];
    let mut k: usize = 0;
    while k < SIZE
        invariant
            k <= 4,
            g == grid(*b),
            board_bounded(g),
            forall|i: int, j: int|
                #![trigger out@[i]@[j]]
                0 <= i < 4 && 0 <= j < 4 && (if d == Moves::LEFT || d == Moves::RIGHT {
                    i
                } else {
                    j
                }) < k ==> out@[i]@[j] == moved_cell(g, d, i, j),
        decreases 4 - k,
    {
        let line = read_line(b, d, k);
        let c = compact_line(line);
        proof {
            lemma_slide_len(line@);
        }
        match d {
            Moves::LEFT => {
                out[k] = c;
            },
            Moves::RIGHT => {
                out[k] = [c[3], c[2], c[1], c[0]];
            },
            Moves::UP => {
                out[0][k] = c[0];
                out[1][k] = c[1];
                out[2][k] = c[2];
                out[3][k] = c[3];
            },
            Moves::DOWN => {
                out[3][k] = c[0];
                out[2][k] = c[1];
                out[1][k] = c[2];
                out[0][k] = c[3];
            },
        }
        k = k + 1;
    }
    assert(grid(out) =~~= resolved(g, d));
    out
}

/// Whether two boards differ in any cell.
pub fn differs(a: &Board, b: &Board) -> (r: bool)
    ensures
        r == (grid(*a) != grid(*b)),
{
    let mut i: usize = 0;
    while i < SIZE
        invariant
            i <= 4,
            forall|p: int, q: int| 0 <= p < i && 0 <= q < 4 ==> a@[p]@[q] == b@[p]@[q],
        decreases 4 - i,
    {
        let mut j: usize = 0;
        while j < SIZE
            invariant
                i < 4,
                j <= 4,
                forall|p: int, q: int| 0 <= p < i && 0 <= q < 4 ==> a@[p]@[q] == b@[p]@[q],
                forall|q: int| 0 <= q < j ==> a@[i as int]@[q] == b@[i as int]@[q],
            decreases 4 - j,
        {
            if a[i][j] != b[i][j] {
                assert(grid(*a)[i as int][j as int] != grid(*b)[i as int][j as int]);
                return true;
            }
            j = j + 1;
        }
        i = i + 1;
    }
    assert(grid(*a) =~~= grid(*b));
    false
}

} // verus!
