//! What holds of every move: tiles are conserved up to merging, a move that changes
//! nothing stays unchanged, mirrored boards move alike, and a stuck board cannot move.

use vstd::prelude::*;
use vstd::multiset::Multiset;
use crate::board::{
    Board, Moves, tiles, merge_tiles, slide, tiles_bounded, grid, column, line_of, resolved,
    board_bounded, line_sum, board_sum, can_move, lemma_tiles_len, lemma_merge_len, lemma_slide_len,
};

verus! {

/// The multiset of the values of a sequence.
pub open spec fn bag(s: Seq<u64>) -> Multiset<u64>
    decreases s.len(),
{
    if s.len() == 0 {
        Multiset::empty()
    } else {
        bag(s.drop_first()).insert(s[0])
    }
}

/// The multiset holding the value of a cell if it holds a tile.
pub open spec fn cell_bag(x: u64) -> Multiset<u64> {
    if x == 0 {
        Multiset::empty()
    } else {
        Multiset::singleton(x)
    }
}

/// For each merge made on a sequence of tiles, the value of the two tiles merged.
pub open spec fn merged_pairs(t: Seq<u64>) -> Seq<u64>
    decreases t.len(),
{
    if t.len() < 2 {
        Seq::empty()
    } else if t[0] == t[1] {
        seq![t[0]] + merged_pairs(t.subrange(2, t.len() as int))
    } else {
        merged_pairs(t.drop_first())
    }
}

/// Each value doubled.
pub open spec fn doubled(p: Seq<u64>) -> Seq<u64> {
    Seq::new(p.len(), |k: int| (2 * p[k]) as u64)
}

/// A grid of four rows of four cells.
pub open spec fn is_square(g: Seq<Seq<u64>>) -> bool {
    g.len() == 4 && forall|i: int| 0 <= i < 4 ==> #[trigger] g[i].len() == 4
}

/// The multiset of the tiles on the board, empty cells left out.
pub open spec fn board_tiles(g: Seq<Seq<u64>>) -> Multiset<u64> {
    bag(tiles(g[0])).add(bag(tiles(g[1]))).add(bag(tiles(g[2]))).add(bag(tiles(g[3])))
}

/// The tiles of the lines that a move in direction `d` walks, line by line.
pub open spec fn lines_tiles(g: Seq<Seq<u64>>, d: Moves) -> Multiset<u64> {
    bag(tiles(line_of(g, d, 0))).add(bag(tiles(line_of(g, d, 1)))).add(
        bag(tiles(line_of(g, d, 2))),
    ).add(bag(tiles(line_of(g, d, 3))))
}

/// The value of the two tiles of each merge that a move in direction `d` makes.
pub open spec fn merge_inputs(g: Seq<Seq<u64>>, d: Moves) -> Multiset<u64> {
    bag(merged_pairs(tiles(line_of(g, d, 0)))).add(bag(merged_pairs(tiles(line_of(g, d, 1))))).add(
        bag(merged_pairs(tiles(line_of(g, d, 2)))),
    ).add(bag(merged_pairs(tiles(line_of(g, d, 3)))))
}

/// The tile that each merge of a move in direction `d` makes.
pub open spec fn merge_results(g: Seq<Seq<u64>>, d: Moves) -> Multiset<u64> {
    bag(doubled(merged_pairs(tiles(line_of(g, d, 0))))).add(
        bag(doubled(merged_pairs(tiles(line_of(g, d, 1))))),
    ).add(bag(doubled(merged_pairs(tiles(line_of(g, d, 2)))))).add(
        bag(doubled(merged_pairs(tiles(line_of(g, d, 3))))),
    )
}

/// The board mirrored left to right.
pub open spec fn mirror_horizontal(g: Seq<Seq<u64>>) -> Seq<Seq<u64>> {
    Seq::new(4, |i: int| g[i].reverse())
}

/// The board mirrored top to bottom.
pub open spec fn mirror_vertical(g: Seq<Seq<u64>>) -> Seq<Seq<u64>> {
    Seq::new(4, |i: int| g[3 - i])
}

proof fn lemma_cons(x: u64, r: Seq<u64>)
    ensures
        tiles(seq![x] + r) == (if x == 0 {
            tiles(r)
        } else {
            seq![x] + tiles(r)
        }),
        bag(seq![x] + r) == bag(r).insert(x),
        line_sum(seq![x] + r) == x + line_sum(r),
{
    assert((seq![x] + r).drop_first() =~= r);
}

proof fn lemma_bag_len(s: Seq<u64>)
    ensures
        bag(s).len() == s.len(),
    decreases s.len(),
{
    if s.len() > 0 {
        lemma_bag_len(s.drop_first());
    }
}

/// The tiles and the sum of a line of four cells, cell by cell.
pub proof fn lemma_line4(s: Seq<u64>)
    requires
        s.len() == 4,
    ensures
        bag(tiles(s)) =~= cell_bag(s[0]).add(cell_bag(s[1])).add(cell_bag(s[2])).add(
            cell_bag(s[3]),
        ),
        line_sum(s) == s[0] + s[1] + s[2] + s[3],
{
    let r3 = seq![s[3]];
    let r2 = seq![s[2]] + r3;
    let r1 = seq![s[1]] + r2;
    assert(s =~= seq![s[0]] + r1);
    assert(r3 =~= seq![s[3]] + Seq::<u64>::empty());
    lemma_cons(s[3], Seq::empty());
    lemma_cons(s[2], r3);
    lemma_cons(s[1], r2);
    lemma_cons(s[0], r1);
    let e = Seq::<u64>::empty();
    assert(tiles(e) =~= e);
    lemma_cons_tiles_bag(s[3], e);
    lemma_cons_tiles_bag(s[2], r3);
    lemma_cons_tiles_bag(s[1], r2);
    lemma_cons_tiles_bag(s[0], r1);
}

proof fn lemma_cons_tiles_bag(x: u64, r: Seq<u64>)
    ensures
        bag(tiles(seq![x] + r)) =~= cell_bag(x).add(bag(tiles(r))),
{
    lemma_cons(x, r);
    if x != 0 {
        lemma_cons(x, tiles(r));
    }
}

proof fn lemma_tiles_append(a: Seq<u64>, b: Seq<u64>)
    ensures
        tiles(a + b) == tiles(a) + tiles(b),
        line_sum(a + b) == line_sum(a) + line_sum(b),
    decreases a.len(),
{
    if a.len() == 0 {
        assert(a + b =~= b);
        assert(tiles(a) + tiles(b) =~= tiles(b));
    } else {
        let r = a.drop_first();
        assert(a =~= seq![a[0]] + r);
        assert(a + b =~= seq![a[0]] + (r + b));
        lemma_cons(a[0], r + b);
        lemma_cons(a[0], r);
        lemma_tiles_append(r, b);
        assert(seq![a[0]] + (tiles(r) + tiles(b)) =~= (seq![a[0]] + tiles(r)) + tiles(b));
    }
}

proof fn lemma_zeros(n: nat)
    ensures
        tiles(Seq::new(n, |_k: int| 0u64)) =~= Seq::<u64>::empty(),
        line_sum(Seq::new(n, |_k: int| 0u64)) == 0,
    decreases n,
{
    if n > 0 {
        let z = Seq::new(n, |_k: int| 0u64);
        assert(z.drop_first() =~= Seq::new((n - 1) as nat, |_k: int| 0u64));
        lemma_zeros((n - 1) as nat);
    }
}

proof fn lemma_tiles_of_tiles(t: Seq<u64>)
    requires
        forall|k: int| 0 <= k < t.len() ==> t[k] != 0,
    ensures
        tiles(t) == t,
    decreases t.len(),
{
    if t.len() > 0 {
        lemma_tiles_of_tiles(t.drop_first());
        assert(t =~= seq![t[0]] + t.drop_first());
    }
}

proof fn lemma_tiles_sum(s: Seq<u64>)
    ensures
        line_sum(tiles(s)) == line_sum(s),
    decreases s.len(),
{
    if s.len() > 0 {
        lemma_tiles_sum(s.drop_first());
        lemma_cons(s[0], tiles(s.drop_first()));
    }
}

/// Merging keeps the sum and the tiles, up to each merged pair becoming one doubled tile.
proof fn lemma_merge_conserves(t: Seq<u64>)
    requires
        tiles_bounded(t),
    ensures
        bag(t).add(bag(doubled(merged_pairs(t)))) =~= bag(merge_tiles(t)).add(
            bag(merged_pairs(t)),
        ).add(bag(merged_pairs(t))),
        line_sum(merge_tiles(t)) == line_sum(t),
        (forall|k: int| 0 <= k < t.len() ==> t[k] != 0) ==> (forall|k: int|
            0 <= k < merge_tiles(t).len() ==> merge_tiles(t)[k] != 0),
    decreases t.len(),
{
    if t.len() < 2 {
        assert(merged_pairs(t) =~= Seq::<u64>::empty());
        assert(doubled(merged_pairs(t)) =~= Seq::<u64>::empty());
        assert(bag(Seq::<u64>::empty()) == Multiset::<u64>::empty());
        assert(bag(t).add(Multiset::empty()) =~= bag(t));
    } else if t[0] == t[1] {
        let a = t[0];
        let r = t.subrange(2, t.len() as int);
        lemma_merge_conserves(r);
        let m = merge_tiles(r);
        let p = merged_pairs(r);
        assert(t =~= seq![a] + (seq![a] + r));
        lemma_cons(a, seq![a] + r);
        lemma_cons(a, r);
        lemma_cons((2 * a) as u64, m);
        lemma_cons(a, p);
        assert(doubled(merged_pairs(t)) =~= seq![(2 * a) as u64] + doubled(p));
        lemma_cons((2 * a) as u64, doubled(p));
        assert(merge_tiles(t) == seq![(2 * a) as u64] + m);
        assert(merged_pairs(t) == seq![a] + p);
        let a2 = (2 * a) as u64;
        assert(bag(r).add(bag(doubled(p))) =~= bag(m).add(bag(p)).add(bag(p)));
        assert(bag(t) == bag(r).insert(a).insert(a));
        assert(bag(t).add(bag(doubled(merged_pairs(t)))) =~= bag(m).insert(a2).add(
            bag(p).insert(a),
        ).add(bag(p).insert(a))) by {
            assert forall|v: u64|
                #[trigger] bag(t).add(bag(doubled(merged_pairs(t)))).count(v) == bag(m).insert(
                    a2,
                ).add(bag(p).insert(a)).add(bag(p).insert(a)).count(v) by {
                assert(bag(r).add(bag(doubled(p))).count(v) == bag(m).add(bag(p)).add(
                    bag(p),
                ).count(v));
            }
        }
    } else {
        let r = t.drop_first();
        lemma_merge_conserves(r);
        assert(t =~= seq![t[0]] + r);
        lemma_cons(t[0], r);
        lemma_cons(t[0], merge_tiles(r));
        assert(merged_pairs(t) == merged_pairs(r));
        let p = merged_pairs(r);
        assert(bag(t).add(bag(doubled(p))) =~= bag(merge_tiles(t)).add(bag(p)).add(bag(p))) by {
            assert forall|v: u64|
                #[trigger] bag(t).add(bag(doubled(p))).count(v) == bag(merge_tiles(t)).add(
                    bag(p),
                ).add(bag(p)).count(v) by {
                assert(bag(r).add(bag(doubled(p))).count(v) == bag(merge_tiles(r)).add(
                    bag(p),
                ).add(bag(p)).count(v));
            }
        }
    }
}

/// The tiles and sum of a line after a move toward its start.
proof fn lemma_slide_conserves(s: Seq<u64>)
    requires
        tiles_bounded(s),
    ensures
        tiles(slide(s)) == merge_tiles(tiles(s)),
        line_sum(slide(s)) == line_sum(s),
{
    let t = tiles(s);
    lemma_tiles_len(s);
    lemma_merge_len(t);
    lemma_merge_conserves(t);
    let m = merge_tiles(t);
    let z = Seq::new((s.len() - m.len()) as nat, |_k: int| 0u64);
    lemma_tiles_append(m, z);
    lemma_zeros((s.len() - m.len()) as nat);
    lemma_tiles_of_tiles(m);
    lemma_tiles_sum(s);
    assert(tiles(m) + tiles(z) =~= m);
}

proof fn lemma_line_of_resolved(g: Seq<Seq<u64>>, d: Moves, k: int)
    requires
        is_square(g),
        0 <= k < 4,
    ensures
        line_of(resolved(g, d), d, k) == slide(line_of(g, d, k)),
        is_square(resolved(g, d)),
{
    lemma_slide_len(line_of(g, d, k));
    assert(line_of(resolved(g, d), d, k) =~= slide(line_of(g, d, k)));
}

proof fn lemma_reverse_line(s: Seq<u64>)
    requires
        s.len() == 4,
    ensures
        bag(tiles(s.reverse())) == bag(tiles(s)),
        line_sum(s.reverse()) == line_sum(s),
{
    lemma_line4(s);
    lemma_line4(s.reverse());
    assert forall|v: u64| #[trigger] bag(tiles(s.reverse())).count(v) == bag(tiles(s)).count(v) by {
    }
    assert(bag(tiles(s.reverse())) =~= bag(tiles(s)));
}

/// How many times the cell `x` holds the tile `v`.
spec fn cell_count(x: u64, v: u64) -> nat {
    if x != 0 && x == v {
        1
    } else {
        0
    }
}

proof fn lemma_line4_count(s: Seq<u64>, v: u64)
    requires
        s.len() == 4,
    ensures
        bag(tiles(s)).count(v) == cell_count(s[0], v) + cell_count(s[1], v) + cell_count(s[2], v)
            + cell_count(s[3], v),
{
    lemma_line4(s);
}

proof fn lemma_columns_cover(h: Seq<Seq<u64>>)
    requires
        is_square(h),
    ensures
        bag(tiles(column(h, 0))).add(bag(tiles(column(h, 1)))).add(bag(tiles(column(h, 2)))).add(
            bag(tiles(column(h, 3))),
        ) == board_tiles(h),
        line_sum(column(h, 0)) + line_sum(column(h, 1)) + line_sum(column(h, 2)) + line_sum(
            column(h, 3),
        ) == board_sum(h),
{
    lemma_line4(h[0]);
    lemma_line4(h[1]);
    lemma_line4(h[2]);
    lemma_line4(h[3]);
    lemma_line4(column(h, 0));
    lemma_line4(column(h, 1));
    lemma_line4(column(h, 2));
    lemma_line4(column(h, 3));
    let c = bag(tiles(column(h, 0))).add(bag(tiles(column(h, 1)))).add(
        bag(tiles(column(h, 2))),
    ).add(bag(tiles(column(h, 3))));
    assert forall|v: u64| #[trigger] c.count(v) == board_tiles(h).count(v) by {
        lemma_line4_count(h[0], v);
        lemma_line4_count(h[1], v);
        lemma_line4_count(h[2], v);
        lemma_line4_count(h[3], v);
        lemma_line4_count(column(h, 0), v);
        lemma_line4_count(column(h, 1), v);
        lemma_line4_count(column(h, 2), v);
        lemma_line4_count(column(h, 3), v);
    }
    assert(c =~= board_tiles(h));
}

/// Walking the lines of either direction meets every tile and every cell once.
proof fn lemma_lines_cover(h: Seq<Seq<u64>>, d: Moves)
    requires
        is_square(h),
    ensures
        lines_tiles(h, d) == board_tiles(h),
        line_sum(line_of(h, d, 0)) + line_sum(line_of(h, d, 1)) + line_sum(line_of(h, d, 2))
            + line_sum(line_of(h, d, 3)) == board_sum(h),
{
    match d {
        Moves::LEFT => {},
        Moves::RIGHT => {
            lemma_reverse_line(h[0]);
            lemma_reverse_line(h[1]);
            lemma_reverse_line(h[2]);
            lemma_reverse_line(h[3]);
        },
        Moves::UP => {
            lemma_columns_cover(h);
        },
        Moves::DOWN => {
            lemma_columns_cover(h);
            lemma_reverse_line(column(h, 0));
            lemma_reverse_line(column(h, 1));
            lemma_reverse_line(column(h, 2));
            lemma_reverse_line(column(h, 3));
        },
    }
}

proof fn lemma_line_conserves(g: Seq<Seq<u64>>, d: Moves, k: int)
    requires
        is_square(g),
        board_bounded(g),
        0 <= k < 4,
    ensures
        ({
            let t = tiles(line_of(g, d, k));
            let p = merged_pairs(t);
            &&& bag(t).add(bag(doubled(p))) =~= bag(tiles(line_of(resolved(g, d), d, k))).add(
                bag(p),
            ).add(bag(p))
            &&& line_sum(line_of(resolved(g, d), d, k)) == line_sum(line_of(g, d, k))
            &&& bag(doubled(p)).len() == bag(p).len()
        }),
{
    let s = line_of(g, d, k);
    assert(tiles_bounded(s));
    lemma_tiles_len(s);
    lemma_merge_conserves(tiles(s));
    lemma_slide_conserves(s);
    lemma_line_of_resolved(g, d, k);
    lemma_bag_len(merged_pairs(tiles(s)));
    lemma_bag_len(doubled(merged_pairs(tiles(s))));
}

proof fn lemma_line_count(g: Seq<Seq<u64>>, d: Moves, k: int, v: u64)
    requires
        is_square(g),
        board_bounded(g),
        0 <= k < 4,
    ensures
        ({
            let t = tiles(line_of(g, d, k));
            let p = merged_pairs(t);
            bag(t).count(v) + bag(doubled(p)).count(v) == bag(
                tiles(line_of(resolved(g, d), d, k)),
            ).count(v) + bag(p).count(v) + bag(p).count(v)
        }),
{
    lemma_line_conserves(g, d, k);
    let t = tiles(line_of(g, d, k));
    let p = merged_pairs(t);
    let lhs = bag(t).add(bag(doubled(p)));
    let rhs = bag(tiles(line_of(resolved(g, d), d, k))).add(bag(p)).add(bag(p));
    assert(lhs == rhs);
    assert(lhs.count(v) == rhs.count(v));
}

/// A move conserves tiles: the tiles before, with the tile made by each merge added,
/// are the tiles after with the two tiles of each merge added. So the number of tiles
/// falls by the number of merges, and the sum of the cells stays the same.
pub proof fn law_conservation(b: Board, d: Moves)
    requires
        board_bounded(grid(b)),
    ensures
        board_tiles(grid(b)).add(merge_results(grid(b), d)) == board_tiles(
            resolved(grid(b), d),
        ).add(merge_inputs(grid(b), d)).add(merge_inputs(grid(b), d)),
        board_tiles(resolved(grid(b), d)).len() + merge_inputs(grid(b), d).len() == board_tiles(
            grid(b),
        ).len(),
        board_sum(resolved(grid(b), d)) == board_sum(grid(b)),
{
    let g = grid(b);
    let r = resolved(g, d);
    lemma_line_conserves(g, d, 0);
    lemma_line_conserves(g, d, 1);
    lemma_line_conserves(g, d, 2);
    lemma_line_conserves(g, d, 3);
    lemma_line_of_resolved(g, d, 0);
    lemma_lines_cover(g, d);
    lemma_lines_cover(r, d);
    let lhs = board_tiles(g).add(merge_results(g, d));
    let rhs = board_tiles(r).add(merge_inputs(g, d)).add(merge_inputs(g, d));
    assert(lhs =~= rhs) by {
        assert forall|v: u64| #[trigger] lhs.count(v) == rhs.count(v) by {
            assert(lines_tiles(g, d).count(v) == board_tiles(g).count(v));
            assert(lines_tiles(r, d).count(v) == board_tiles(r).count(v));
            lemma_line_count(g, d, 0, v);
            lemma_line_count(g, d, 1, v);
            lemma_line_count(g, d, 2, v);
            lemma_line_count(g, d, 3, v);
        }
    }
    assert(lhs.len() == rhs.len());
}

/// A move that changes nothing, made again, still changes nothing.
pub proof fn law_noop_stable(b: Board, d: Moves)
    requires
        resolved(grid(b), d) == grid(b),
    ensures
        resolved(resolved(grid(b), d), d) == resolved(grid(b), d),
{
}

/// Moving right is moving left in a mirror, and moving down is moving up in a mirror.
pub proof fn law_mirror(b: Board)
    ensures
        mirror_horizontal(resolved(grid(b), Moves::LEFT)) == resolved(
            mirror_horizontal(grid(b)),
            Moves::RIGHT,
        ),
        mirror_vertical(resolved(grid(b), Moves::UP)) == resolved(
            mirror_vertical(grid(b)),
            Moves::DOWN,
        ),
{
    let g = grid(b);
    let mh = mirror_horizontal(g);
    let mv = mirror_vertical(g);
    assert forall|i: int| 0 <= i < 4 implies #[trigger] line_of(mh, Moves::RIGHT, i) == g[i] by {
        assert(g[i].reverse().reverse() =~= g[i]);
    }
    assert forall|j: int| 0 <= j < 4 implies #[trigger] line_of(mv, Moves::DOWN, j) == column(
        g,
        j,
    ) by {
        assert(line_of(mv, Moves::DOWN, j) =~= column(g, j));
    }
    assert(mirror_horizontal(resolved(g, Moves::LEFT)) =~~= resolved(mh, Moves::RIGHT));
    assert(mirror_vertical(resolved(g, Moves::UP)) =~~= resolved(mv, Moves::DOWN));
}

/// A line of distinct neighbours merges nothing.
proof fn lemma_merge_none(t: Seq<u64>)
    requires
        forall|k: int| 0 <= k < t.len() - 1 ==> #[trigger] t[k] != t[k + 1],
    ensures
        merge_tiles(t) == t,
    decreases t.len(),
{
    if t.len() >= 2 {
        lemma_merge_none(t.drop_first());
        assert(t =~= seq![t[0]] + t.drop_first());
    }
}

/// A full line of four cells whose neighbours all differ does not move.
proof fn lemma_locked_line(s: Seq<u64>)
    requires
        s.len() == 4,
        forall|k: int| 0 <= k < 4 ==> s[k] != 0,
        forall|k: int| 0 <= k < 3 ==> #[trigger] s[k] != s[k + 1],
    ensures
        slide(s) == s,
{
    lemma_tiles_of_tiles(s);
    lemma_merge_none(s);
    assert(slide(s) =~= s);
}

/// A full board on which no two neighbours in a row or a column are equal cannot move.
pub proof fn law_locked_board(b: Board)
    requires
        forall|i: int, j: int| 0 <= i < 4 && 0 <= j < 4 ==> grid(b)[i][j] != 0,
        forall|i: int, j: int|
            0 <= i < 4 && 0 <= j < 3 ==> #[trigger] grid(b)[i][j] != grid(b)[i][j + 1],
        forall|i: int, j: int|
            0 <= i < 3 && 0 <= j < 4 ==> #[trigger] grid(b)[i][j] != grid(b)[i + 1][j],
    ensures
        !can_move(grid(b)),
{
    let g = grid(b);
    assert forall|k: int| 0 <= k < 4 implies slide(#[trigger] g[k]) == g[k] && slide(
        g[k].reverse(),
    ) == g[k].reverse() && slide(column(g, k)) == column(g, k) && slide(column(g, k).reverse())
        == column(g, k).reverse() by {
        lemma_locked_line(g[k]);
        lemma_locked_line(g[k].reverse());
        lemma_locked_line(column(g, k));
        lemma_locked_line(column(g, k).reverse());
    }
    assert(resolved(g, Moves::LEFT) =~~= g);
    assert(resolved(g, Moves::RIGHT) =~~= g);
    assert(resolved(g, Moves::UP) =~~= g);
    assert(resolved(g, Moves::DOWN) =~~= g);
}

} // verus!
