use vstd::prelude::*;
use crate::board::{at, on_board, Board, Cells, Kind, Piece};

verus! {

/// The material weight of a kind.
pub open spec fn weight(k: Kind) -> int {
    match k {
        Kind::Pawn => 1,
        Kind::Knight => 3,
        Kind::Bishop => 4,
        Kind::Rook => 5,
        Kind::Queen => 9,
        Kind::King => 100,
    }
}

/// Distance of a file or rank index from the nearer edge side, folded so
/// that 0..8 maps onto 0, 1, 2, 3, 3, 2, 1, 0.
pub open spec fn fold(i: int) -> int {
    if i < 4 {
        i
    } else {
        7 - i
    }
}

/// The centre table for knights and bishops, in half points: 2 on the
/// corners up to 8 on the four central squares, symmetric in both axes.
pub open spec fn centre(x: int, y: int) -> int {
    let a = fold(x);
    let b = fold(y);
    if b == 0 {
        if a == 0 || a == 1 { 2 } else if a == 2 { 4 } else { 5 }
    } else if b == 1 {
        if a == 0 { 2 } else if a == 1 { 4 } else { 6 }
    } else if b == 2 {
        if a == 0 { 4 } else if a == 1 { 6 } else if a == 2 { 8 } else { 7 }
    } else {
        if a == 0 { 5 } else if a == 1 { 6 } else if a == 2 { 7 } else { 8 }
    }
}

/// What a piece on (x, y) is worth to its side, in half points: a pawn half a
/// point per rank advanced, a knight or bishop its weight times the centre
/// table, a rook or queen its weight times two and a half, a king its weight.
pub open spec fn piece_score(p: Piece, x: int, y: int) -> int {
    match p.kind {
        Kind::Pawn => if p.white {
            7 - y
        } else {
            y
        },
        Kind::Knight => weight(p.kind) * centre(x, y),
        Kind::Bishop => weight(p.kind) * centre(x, y),
        Kind::Rook => weight(p.kind) * 5,
        Kind::Queen => weight(p.kind) * 5,
        Kind::King => weight(p.kind) * 2,
    }
}

/// The signed contribution of a cell: positive for white, negative for black.
pub open spec fn cell_score(c: Option<Piece>, x: int, y: int) -> int {
    match c {
        None => 0,
        Some(p) => if p.white {
            piece_score(p, x, y)
        } else {
            -piece_score(p, x, y)
        },
    }
}

/// The sum over the first `n` files of rank `y`.
pub open spec fn row_score(s: Cells, y: int, n: nat) -> int
    decreases n,
{
    if n == 0 {
        0
    } else {
        row_score(s, y, (n - 1) as nat) + cell_score(at(s, n - 1, y), n - 1, y)
    }
}

/// The sum over the first `n` ranks.
pub open spec fn rows_score(s: Cells, n: nat) -> int
    decreases n,
{
    if n == 0 {
        0
    } else {
        rows_score(s, (n - 1) as nat) + row_score(s, n - 1, 8)
    }
}

/// The static score of a position, in half points: positive favours white,
/// negative favours black.
pub open spec fn board_score(s: Cells) -> int {
    rows_score(s, 8)
}

/// The largest absolute value of `board_score`.
pub const SCORE_BOUND: i64 = 12800;

pub proof fn lemma_cell_bound(c: Option<Piece>, x: int, y: int)
    requires
        on_board(x, y),
    ensures
        -200 <= cell_score(c, x, y) <= 200,
{
}

proof fn lemma_row_bound(s: Cells, y: int, n: nat)
    requires
        0 <= y < 8,
        n <= 8,
    ensures
        -200 * n <= row_score(s, y, n) <= 200 * n,
    decreases n,
{
    if n > 0 {
        lemma_row_bound(s, y, (n - 1) as nat);
        lemma_cell_bound(at(s, n - 1, y), n - 1, y);
    }
}

proof fn lemma_rows_bound(s: Cells, n: nat)
    requires
        n <= 8,
    ensures
        -1600 * n <= rows_score(s, n) <= 1600 * n,
    decreases n,
{
    if n > 0 {
        lemma_rows_bound(s, (n - 1) as nat);
        lemma_row_bound(s, n - 1, 8);
    }
}

/// Every position scores within `SCORE_BOUND` of zero.
pub proof fn lemma_score_bound(s: Cells)
    ensures
        -SCORE_BOUND <= board_score(s) <= SCORE_BOUND,
{
    lemma_rows_bound(s, 8);
}

fn fold_exec(i: usize) -> (r: usize)
    requires
        i < 8,
    ensures
        r == fold(i as int),
{
    if i < 4 {
        i
    } else {
        7 - i
    }
}

fn centre_exec(x: usize, y: usize) -> (r: i64)
    requires
        on_board(x as int, y as int),
    ensures
        r == centre(x as int, y as int),
{
    let a = fold_exec(x);
    let b = fold_exec(y);
    if b == 0 {
        if a == 0 || a == 1 { 2 } else if a == 2 { 4 } else { 5 }
    } else if b == 1 {
        if a == 0 { 2 } else if a == 1 { 4 } else { 6 }
    } else if b == 2 {
        if a == 0 { 4 } else if a == 1 { 6 } else if a == 2 { 8 } else { 7 }
    } else {
        if a == 0 { 5 } else if a == 1 { 6 } else if a == 2 { 7 } else { 8 }
    }
}

fn cell_exec(c: Option<Piece>, x: usize, y: usize) -> (r: i64)
    requires
        on_board(x as int, y as int),
    ensures
        r == cell_score(c, x as int, y as int),
{
    match c {
        None => 0,
        Some(p) => {
            let v: i64 = match p.kind {
                Kind::Pawn => if p.white {
                    7 - y as i64
                } else {
                    y as i64
                },
                Kind::Knight => 3 * centre_exec(x, y),
                Kind::Bishop => 4 * centre_exec(x, y),
                Kind::Rook => 25,
                Kind::Queen => 45,
                Kind::King => 200,
            };
            if p.white {
                v
            } else {
                -v
            }
        },
    }
}

/// The static score of the position, in half points (every term of the
/// score is a multiple of one half): positive favours white, negative
/// favours black.
pub fn evaluate(board: &Board) -> (r: i64)
    ensures
        r == board_score(board@),
        -SCORE_BOUND <= r <= SCORE_BOUND,
{
    let mut total: i64 = 0;
    let mut y: usize = 0;
    while y < 8
        invariant
            y <= 8,
            total == rows_score(board@, y as nat),
        decreases 8 - y,
    {
        proof {
            lemma_rows_bound(board@, y as nat);
        }
        let mut row: i64 = 0;
        let mut x: usize = 0;
        while x < 8
            invariant
                x <= 8,
                y < 8,
                row == row_score(board@, y as int, x as nat),
                total == rows_score(board@, y as nat),
            decreases 8 - x,
        {
            proof {
                lemma_row_bound(board@, y as int, x as nat);
                lemma_cell_bound(at(board@, x as int, y as int), x as int, y as int);
            }
            row = row + cell_exec(board.get(x, y), x, y);
            x += 1;
        }
        proof {
            lemma_row_bound(board@, y as int, 8);
        }
        total = total + row;
        y += 1;
    }
    proof {
        lemma_score_bound(board@);
    }
    total
}

} // verus!
