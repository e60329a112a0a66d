//! The board as text: a grid of cells framed by borders.

use vstd::prelude::*;
use vstd::string::StringExecFns;
use crate::board::{Board, SIZE, grid};

verus! {

/// The character of the decimal digit `d`.
pub open spec fn digit_char(d: int) -> char {
    seq!['0', '1', '2', '3', '4', '5', '6', '7', '8', '9'][d]
}

/// The decimal digits of `n`, most significant first, without leading zeros.
pub open spec fn decimal(n: nat) -> Seq<char>
    decreases n,
{
    if n < 10 {
        seq![digit_char(n as int)]
    } else {
        decimal(n / 10) + seq![digit_char((n % 10) as int)]
    }
}

/// The border drawn above, between and below the rows.
pub open spec fn border_text() -> Seq<char> {
    "+---+---+---+---+\n"@
}

/// One cell: a separator, then its value.
pub open spec fn cell_text(v: u64) -> Seq<char> {
    "| "@ + decimal(v as nat) + " "@
}

/// One row: its four cells and the closing separator.
pub open spec fn row_text(r: Seq<u64>) -> Seq<char> {
    cell_text(r[0]) + cell_text(r[1]) + cell_text(r[2]) + cell_text(r[3]) + "|\n"@
}

/// The whole board: each row between borders.
pub open spec fn board_text(g: Seq<Seq<u64>>) -> Seq<char> {
    border_text() + row_text(g[0]) + border_text() + row_text(g[1]) + border_text() + row_text(
        g[2],
    ) + border_text() + row_text(g[3]) + border_text()
}

fn digit_str(d: u64) -> (r: &'static str)
    requires
        d < 10,
    ensures
        r@ == seq![digit_char(d as int)],
{
    proof {
        reveal_strlit("0");
        reveal_strlit("1");
        reveal_strlit("2");
        reveal_strlit("3");
        reveal_strlit("4");
        reveal_strlit("5");
        reveal_strlit("6");
        reveal_strlit("7");
        reveal_strlit("8");
        reveal_strlit("9");
    }
    let r = match d {
        0 => "0",
        1 => "1",
        2 => "2",
        3 => "3",
        4 => "4",
        5 => "5",
        6 => "6",
        7 => "7",
        8 => "8",
        _ => "9",
    };
    assert(r@ =~= seq![digit_char(d as int)]);
    r
}

/// Appends the decimal digits of `n`.
fn push_decimal(s: &mut String, n: u64)
    ensures
        final(s)@ == old(s)@ + decimal(n as nat),
    decreases n,
{
    if n >= 10 {
        push_decimal(s, n / 10);
    }
    s.append(digit_str(n % 10));
    proof {
        if n >= 10 {
            let high = decimal((n / 10) as nat);
            assert(old(s)@ + high + seq![digit_char((n % 10) as int)] =~= old(s)@ + decimal(
                n as nat,
            ));
        } else {
            assert(n % 10 == n);
        }
    }
}

/// The board as text: each row between borders, each cell as `| ` followed by its
/// value and a space, each row closed by `|`.
pub fn render_board(b: &Board) -> (r: String)
    ensures
        r@ == board_text(grid(*b)),
{
    let mut s = String::new();
    let mut i: usize = 0;
    while i < SIZE
        invariant
            i <= 4,
            s@ == if i == 0 {
                Seq::<char>::empty()
            } else if i == 1 {
                border_text() + row_text(grid(*b)[0])
            } else if i == 2 {
                border_text() + row_text(grid(*b)[0]) + border_text() + row_text(grid(*b)[1])
            } else if i == 3 {
                border_text() + row_text(grid(*b)[0]) + border_text() + row_text(grid(*b)[1])
                    + border_text() + row_text(grid(*b)[2])
            } else {
                border_text() + row_text(grid(*b)[0]) + border_text() + row_text(grid(*b)[1])
                    + border_text() + row_text(grid(*b)[2]) + border_text() + row_text(grid(*b)[3])
            },
        decreases 4 - i,
    {
        let ghost before = s@;
        s.append("+---+---+---+---+\n");
        let mut j: usize = 0;
        while j < SIZE
            invariant
                i < 4,
                j <= 4,
                s@ == before + border_text() + if j == 0 {
                    Seq::<char>::empty()
                } else if j == 1 {
                    cell_text(b[i as int][0])
                } else if j == 2 {
                    cell_text(b[i as int][0]) + cell_text(b[i as int][1])
                } else if j == 3 {
                    cell_text(b[i as int][0]) + cell_text(b[i as int][1]) + cell_text(b[i as int][2])
                } else {
                    cell_text(b[i as int][0]) + cell_text(b[i as int][1]) + cell_text(b[i as int][2])
                        + cell_text(b[i as int][3])
                },
            decreases 4 - j,
        {
            let ghost inner = s@;
            s.append("| ");
            push_decimal(&mut s, b[i][j]);
            s.append(" ");
            assert(s@ =~= inner + cell_text(b[i as int][j as int]));
            j = j + 1;
        }
        s.append("|\n");
        assert(grid(*b)[i as int] == b@[i as int]@);
        assert(s@ =~= before + border_text() + row_text(grid(*b)[i as int]));
        i = i + 1;
    }
    s.append("+---+---+---+---+\n");
    assert(s@ =~= board_text(grid(*b)));
    s
}

} // verus!
