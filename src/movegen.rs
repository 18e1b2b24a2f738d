use vstd::prelude::*;
use crate::board::{at, on_board, Board, Cells, Kind, Move, Piece};

verus! {

/// The move from (fx, fy) to (tx, ty).
pub open spec fn mv(fx: int, fy: int, tx: int, ty: int) -> Move {
    Move { from_x: fx as usize, from_y: fy as usize, to_x: tx as usize, to_y: ty as usize }
}

/// Square (x, y) is on the board and holds no piece of side `white`.
pub open spec fn open_for(s: Cells, white: bool, x: int, y: int) -> bool {
    on_board(x, y) && match at(s, x, y) {
        None => true,
        Some(p) => p.white != white,
    }
}

/// Square (x, y) is on the board and holds a piece of the side other than `white`.
pub open spec fn enemy_at(s: Cells, white: bool, x: int, y: int) -> bool {
    on_board(x, y) && match at(s, x, y) {
        None => false,
        Some(p) => p.white != white,
    }
}

pub open spec fn empty_at(s: Cells, x: int, y: int) -> bool {
    at(s, x, y).is_none()
}

pub open spec fn rook_at(s: Cells, x: int, y: int) -> bool {
    match at(s, x, y) {
        None => false,
        Some(p) => p.kind == Kind::Rook,
    }
}

/// The single step of a knight or king from (x, y) by (dx, dy), if it lands
/// on the board and not on a piece of its own side.
#[verifier::opaque]
pub open spec fn step(s: Cells, x: int, y: int, dx: int, dy: int, white: bool) -> Seq<Move> {
    if open_for(s, white, x + dx, y + dy) {
        seq![mv(x, y, x + dx, y + dy)]
    } else {
        seq![]
    }
}

pub open spec fn knight_moves(s: Cells, x: int, y: int, w: bool) -> Seq<Move> {
    step(s, x, y, -1, -2, w) + step(s, x, y, 1, -2, w) + step(s, x, y, -1, 2, w) + step(
        s,
        x,
        y,
        1,
        2,
        w,
    ) + step(s, x, y, -2, -1, w) + step(s, x, y, 2, -1, w) + step(s, x, y, -2, 1, w) + step(
        s,
        x,
        y,
        2,
        1,
        w,
    )
}

/// The moves of a piece on (x, y) along direction (dx, dy), going on from
/// (cx, cy): empty squares, then the first occupied square if it holds an
/// opposing piece. `n` bounds the number of further steps.
pub open spec fn ray(
    s: Cells,
    x: int,
    y: int,
    cx: int,
    cy: int,
    dx: int,
    dy: int,
    w: bool,
    n: nat,
) -> Seq<Move>
    decreases n,
{
    if n == 0 || !on_board(cx + dx, cy + dy) {
        seq![]
    } else {
        match at(s, cx + dx, cy + dy) {
            None => seq![mv(x, y, cx + dx, cy + dy)] + ray(
                s,
                x,
                y,
                cx + dx,
                cy + dy,
                dx,
                dy,
                w,
                (n - 1) as nat,
            ),
            Some(p) => if p.white != w {
                seq![mv(x, y, cx + dx, cy + dy)]
            } else {
                seq![]
            },
        }
    }
}

/// The moves of a piece on (x, y) along direction (dx, dy).
#[verifier::opaque]
pub open spec fn line(s: Cells, x: int, y: int, dx: int, dy: int, w: bool) -> Seq<Move> {
    ray(s, x, y, x, y, dx, dy, w, 7)
}

pub open spec fn bishop_moves(s: Cells, x: int, y: int, w: bool) -> Seq<Move> {
    line(s, x, y, 1, 1, w) + line(s, x, y, -1, 1, w) + line(s, x, y, 1, -1, w) + line(
        s,
        x,
        y,
        -1,
        -1,
        w,
    )
}

pub open spec fn rook_moves(s: Cells, x: int, y: int, w: bool) -> Seq<Move> {
    line(s, x, y, 1, 0, w) + line(s, x, y, -1, 0, w) + line(s, x, y, 0, 1, w) + line(
        s,
        x,
        y,
        0,
        -1,
        w,
    )
}

/// The rank direction in which pawns of a side advance.
pub open spec fn forward(white: bool) -> int {
    if white {
        -1
    } else {
        1
    }
}

/// The rank on which pawns of a side start.
pub open spec fn pawn_start(white: bool) -> int {
    if white {
        6
    } else {
        1
    }
}

/// The rank on which a side's king and rooks start.
pub open spec fn home_rank(white: bool) -> int {
    if white {
        7
    } else {
        0
    }
}

/// The rank on which a pawn of a side is promoted.
pub open spec fn far_rank(white: bool) -> int {
    if white {
        0
    } else {
        7
    }
}

/// A diagonal capture by a pawn on (x, y) onto (tx, ty).
#[verifier::opaque]
pub open spec fn pawn_capture(s: Cells, x: int, y: int, tx: int, ty: int, w: bool) -> Seq<Move> {
    if enemy_at(s, w, tx, ty) {
        seq![mv(x, y, tx, ty)]
    } else {
        seq![]
    }
}

pub open spec fn pawn_advance(s: Cells, x: int, y: int, w: bool) -> Seq<Move> {
    let fy = y + forward(w);
    if empty_at(s, x, fy) {
        seq![mv(x, y, x, fy)] + if y == pawn_start(w) && empty_at(s, x, fy + forward(w)) {
            seq![mv(x, y, x, fy + forward(w))]
        } else {
            seq![]
        }
    } else {
        seq![]
    }
}

pub open spec fn pawn_moves(s: Cells, x: int, y: int, w: bool) -> Seq<Move> {
    let fy = y + forward(w);
    if 0 <= fy < 8 {
        pawn_advance(s, x, y, w) + pawn_capture(s, x, y, x - 1, fy, w) + pawn_capture(
            s,
            x,
            y,
            x + 1,
            fy,
            w,
        )
    } else {
        seq![]
    }
}

/// Castling toward file 0 is open to a king of side `w` on (x, y).
pub open spec fn long_castle_open(s: Cells, x: int, y: int, w: bool, castled: bool) -> bool {
    let h = home_rank(w);
    !castled && x == 4 && y == h && empty_at(s, 1, h) && empty_at(s, 2, h) && empty_at(s, 3, h)
        && rook_at(s, 0, h)
}

/// Castling toward file 7 is open to a king of side `w` on (x, y).
pub open spec fn short_castle_open(s: Cells, x: int, y: int, w: bool, castled: bool) -> bool {
    let h = home_rank(w);
    !castled && x == 4 && y == h && empty_at(s, 5, h) && empty_at(s, 6, h) && rook_at(s, 7, h)
}

pub open spec fn castle_moves(s: Cells, x: int, y: int, w: bool, castled: bool) -> Seq<Move> {
    (if long_castle_open(s, x, y, w, castled) {
        seq![mv(x, y, 2, y)]
    } else {
        seq![]
    }) + if short_castle_open(s, x, y, w, castled) {
        seq![mv(x, y, 6, y)]
    } else {
        seq![]
    }
}

pub open spec fn king_steps(s: Cells, x: int, y: int, w: bool) -> Seq<Move> {
    step(s, x, y, -1, 0, w) + step(s, x, y, 1, 0, w) + step(s, x, y, 0, -1, w) + step(
        s,
        x,
        y,
        0,
        1,
        w,
    ) + step(s, x, y, -1, -1, w) + step(s, x, y, 1, -1, w) + step(s, x, y, -1, 1, w) + step(
        s,
        x,
        y,
        1,
        1,
        w,
    )
}

pub open spec fn king_moves(s: Cells, x: int, y: int, w: bool, castled: bool) -> Seq<Move> {
    castle_moves(s, x, y, w, castled) + king_steps(s, x, y, w)
}

/// The pseudo-legal moves of piece `p` standing on (x, y); `castled` is its
/// side's castling flag.
pub open spec fn piece_moves(s: Cells, p: Piece, x: int, y: int, castled: bool) -> Seq<Move> {
    match p.kind {
        Kind::Pawn => pawn_moves(s, x, y, p.white),
        Kind::Knight => knight_moves(s, x, y, p.white),
        Kind::Bishop => bishop_moves(s, x, y, p.white),
        Kind::Rook => rook_moves(s, x, y, p.white),
        Kind::Queen => bishop_moves(s, x, y, p.white) + rook_moves(s, x, y, p.white),
        Kind::King => king_moves(s, x, y, p.white, castled),
    }
}

/// The pseudo-legal moves of whatever stands on (x, y).
pub open spec fn square_moves(s: Cells, wmk: bool, bmk: bool, x: int, y: int) -> Seq<Move> {
    match at(s, x, y) {
        None => seq![],
        Some(p) => piece_moves(s, p, x, y, if p.white { wmk } else { bmk }),
    }
}

/// The moves of the first `n` squares of rank `y`, file by file.
pub open spec fn row_moves(s: Cells, wmk: bool, bmk: bool, y: int, n: nat) -> Seq<Move>
    decreases n,
{
    if n == 0 {
        seq![]
    } else {
        row_moves(s, wmk, bmk, y, (n - 1) as nat) + square_moves(s, wmk, bmk, n - 1, y)
    }
}

/// The moves of the first `n` ranks, rank by rank.
pub open spec fn rows_moves(s: Cells, wmk: bool, bmk: bool, n: nat) -> Seq<Move>
    decreases n,
{
    if n == 0 {
        seq![]
    } else {
        rows_moves(s, wmk, bmk, (n - 1) as nat) + row_moves(s, wmk, bmk, n - 1, 8)
    }
}

/// Every pseudo-legal move on the board, for both sides, square by square in
/// rank-major order. `wmk` and `bmk` are the castling flags of white and black.
pub open spec fn all_moves(s: Cells, wmk: bool, bmk: bool) -> Seq<Move> {
    rows_moves(s, wmk, bmk, 8)
}

fn push_step(b: &Board, v: &mut Vec<Move>, x: usize, y: usize, dx: i64, dy: i64, w: bool)
    requires
        on_board(x as int, y as int),
        -2 <= dx <= 2,
        -2 <= dy <= 2,
    ensures
        final(v)@ == old(v)@ + step(b@, x as int, y as int, dx as int, dy as int, w),
{
    reveal(step);
    let tx = x as i64 + dx;
    let ty = y as i64 + dy;
    if 0 <= tx && tx < 8 && 0 <= ty && ty < 8 {
        let open = match b.get(tx as usize, ty as usize) {
            None => true,
            Some(p) => p.white != w,
        };
        if open {
            v.push(Move { from_x: x, from_y: y, to_x: tx as usize, to_y: ty as usize });
        }
    }
}

fn push_ray(
    b: &Board,
    v: &mut Vec<Move>,
    x: usize,
    y: usize,
    cx: usize,
    cy: usize,
    dx: i64,
    dy: i64,
    w: bool,
    n: usize,
)
    requires
        on_board(x as int, y as int),
        on_board(cx as int, cy as int),
        -1 <= dx <= 1,
        -1 <= dy <= 1,
    ensures
        final(v)@ == old(v)@ + ray(
            b@,
            x as int,
            y as int,
            cx as int,
            cy as int,
            dx as int,
            dy as int,
            w,
            n as nat,
        ),
    decreases n,
{
    let tx = cx as i64 + dx;
    let ty = cy as i64 + dy;
    if n == 0 || !(0 <= tx && tx < 8 && 0 <= ty && ty < 8) {
        assert(old(v)@ + seq![] =~= old(v)@);
        return ;
    }
    let m = Move { from_x: x, from_y: y, to_x: tx as usize, to_y: ty as usize };
    match b.get(tx as usize, ty as usize) {
        None => {
            let ghost v0 = v@;
            v.push(m);
            push_ray(b, v, x, y, tx as usize, ty as usize, dx, dy, w, n - 1);
            assert(v0.push(m) + ray(
                b@,
                x as int,
                y as int,
                tx as int,
                ty as int,
                dx as int,
                dy as int,
                w,
                (n - 1) as nat,
            ) =~= v0 + (seq![m] + ray(
                b@,
                x as int,
                y as int,
                tx as int,
                ty as int,
                dx as int,
                dy as int,
                w,
                (n - 1) as nat,
            )));
        },
        Some(p) => {
            if p.white != w {
                v.push(m);
            } else {
                assert(old(v)@ + seq![] =~= old(v)@);
            }
        },
    }
}

fn push_line(b: &Board, v: &mut Vec<Move>, x: usize, y: usize, dx: i64, dy: i64, w: bool)
    requires
        on_board(x as int, y as int),
        -1 <= dx <= 1,
        -1 <= dy <= 1,
    ensures
        final(v)@ == old(v)@ + line(b@, x as int, y as int, dx as int, dy as int, w),
{
    reveal(line);
    push_ray(b, v, x, y, x, y, dx, dy, w, 7);
}

fn push_knight(b: &Board, v: &mut Vec<Move>, x: usize, y: usize, w: bool)
    requires
        on_board(x as int, y as int),
    ensures
        final(v)@ == old(v)@ + knight_moves(b@, x as int, y as int, w),
{
    let ghost v0 = v@;
    push_step(b, v, x, y, -1, -2, w);
    push_step(b, v, x, y, 1, -2, w);
    push_step(b, v, x, y, -1, 2, w);
    push_step(b, v, x, y, 1, 2, w);
    push_step(b, v, x, y, -2, -1, w);
    push_step(b, v, x, y, 2, -1, w);
    push_step(b, v, x, y, -2, 1, w);
    push_step(b, v, x, y, 2, 1, w);
    assert(v@ =~= v0 + knight_moves(b@, x as int, y as int, w));
}

fn push_king(b: &Board, v: &mut Vec<Move>, x: usize, y: usize, w: bool, castled: bool)
    requires
        on_board(x as int, y as int),
    ensures
        final(v)@ == old(v)@ + king_moves(b@, x as int, y as int, w, castled),
{
    let ghost v0 = v@;
    push_castles(b, v, x, y, w, castled);
    let ghost v1 = v@;
    push_king_steps(b, v, x, y, w);
    assert(v@ =~= v0 + (castle_moves(b@, x as int, y as int, w, castled) + king_steps(
        b@,
        x as int,
        y as int,
        w,
    )));
}

fn push_king_steps(b: &Board, v: &mut Vec<Move>, x: usize, y: usize, w: bool)
    requires
        on_board(x as int, y as int),
    ensures
        final(v)@ == old(v)@ + king_steps(b@, x as int, y as int, w),
{
    let ghost v0 = v@;
    push_step(b, v, x, y, -1, 0, w);
    push_step(b, v, x, y, 1, 0, w);
    push_step(b, v, x, y, 0, -1, w);
    push_step(b, v, x, y, 0, 1, w);
    push_step(b, v, x, y, -1, -1, w);
    push_step(b, v, x, y, 1, -1, w);
    push_step(b, v, x, y, -1, 1, w);
    push_step(b, v, x, y, 1, 1, w);
    assert(v@ =~= v0 + king_steps(b@, x as int, y as int, w));
}

fn push_castles(b: &Board, v: &mut Vec<Move>, x: usize, y: usize, w: bool, castled: bool)
    requires
        on_board(x as int, y as int),
    ensures
        final(v)@ == old(v)@ + castle_moves(b@, x as int, y as int, w, castled),
{
    let ghost v0 = v@;
    let h: usize = if w {
        7
    } else {
        0
    };
    if !castled && x == 4 && y == h && b.get(1, h).is_none() && b.get(2, h).is_none() && b.get(
        3,
        h,
    ).is_none() && is_rook(b.get(0, h)) {
        v.push(Move { from_x: x, from_y: y, to_x: 2, to_y: y });
    }
    if !castled && x == 4 && y == h && b.get(5, h).is_none() && b.get(6, h).is_none() && is_rook(
        b.get(7, h),
    ) {
        v.push(Move { from_x: x, from_y: y, to_x: 6, to_y: y });
    }
    assert(v@ =~= v0 + castle_moves(b@, x as int, y as int, w, castled));
}

fn is_rook(p: Option<Piece>) -> (r: bool)
    ensures
        r == (match p {
            None => false,
            Some(q) => q.kind == Kind::Rook,
        }),
{
    match p {
        None => false,
        Some(q) => q.kind == Kind::Rook,
    }
}

fn push_bishop(b: &Board, v: &mut Vec<Move>, x: usize, y: usize, w: bool)
    requires
        on_board(x as int, y as int),
    ensures
        final(v)@ == old(v)@ + bishop_moves(b@, x as int, y as int, w),
{
    let ghost v0 = v@;
    push_line(b, v, x, y, 1, 1, w);
    push_line(b, v, x, y, -1, 1, w);
    push_line(b, v, x, y, 1, -1, w);
    push_line(b, v, x, y, -1, -1, w);
    assert(v@ =~= v0 + bishop_moves(b@, x as int, y as int, w));
}

fn push_rook(b: &Board, v: &mut Vec<Move>, x: usize, y: usize, w: bool)
    requires
        on_board(x as int, y as int),
    ensures
        final(v)@ == old(v)@ + rook_moves(b@, x as int, y as int, w),
{
    let ghost v0 = v@;
    push_line(b, v, x, y, 1, 0, w);
    push_line(b, v, x, y, -1, 0, w);
    push_line(b, v, x, y, 0, 1, w);
    push_line(b, v, x, y, 0, -1, w);
    assert(v@ =~= v0 + rook_moves(b@, x as int, y as int, w));
}

fn push_pawn_capture(b: &Board, v: &mut Vec<Move>, x: usize, y: usize, tx: i64, ty: usize, w: bool)
    requires
        on_board(x as int, y as int),
        -1 <= tx <= 8,
        ty < 8,
    ensures
        final(v)@ == old(v)@ + pawn_capture(b@, x as int, y as int, tx as int, ty as int, w),
{
    reveal(pawn_capture);
    if 0 <= tx && tx < 8 {
        if let Some(p) = b.get(tx as usize, ty) {
            if p.white != w {
                v.push(Move { from_x: x, from_y: y, to_x: tx as usize, to_y: ty });
                return ;
            }
        }
    }
    assert(old(v)@ + seq![] =~= old(v)@);
}

fn push_pawn(b: &Board, v: &mut Vec<Move>, x: usize, y: usize, w: bool)
    requires
        on_board(x as int, y as int),
    ensures
        final(v)@ == old(v)@ + pawn_moves(b@, x as int, y as int, w),
{
    let ghost v0 = v@;
    if (w && y == 0) || (!w && y == 7) {
        assert(v0 + seq![] =~= v0);
        return ;
    }
    let fy: usize = if w {
        y - 1
    } else {
        y + 1
    };
    if b.get(x, fy).is_none() {
        v.push(Move { from_x: x, from_y: y, to_x: x, to_y: fy });
        if w && y == 6 && b.get(x, 4).is_none() {
            v.push(Move { from_x: x, from_y: y, to_x: x, to_y: 4 });
        } else if !w && y == 1 && b.get(x, 3).is_none() {
            v.push(Move { from_x: x, from_y: y, to_x: x, to_y: 3 });
        }
    }
    assert(v@ =~= v0 + pawn_advance(b@, x as int, y as int, w));
    let ghost v1 = v@;
    push_pawn_capture(b, v, x, y, x as i64 - 1, fy, w);
    push_pawn_capture(b, v, x, y, x as i64 + 1, fy, w);
    assert(v@ =~= v0 + pawn_moves(b@, x as int, y as int, w));
}

fn push_square(b: &Board, v: &mut Vec<Move>, wmk: bool, bmk: bool, x: usize, y: usize)
    requires
        on_board(x as int, y as int),
    ensures
        final(v)@ == old(v)@ + square_moves(b@, wmk, bmk, x as int, y as int),
{
    match b.get(x, y) {
        None => {
            assert(old(v)@ + seq![] =~= old(v)@);
        },
        Some(p) => {
            let w = p.white;
            match p.kind {
                Kind::Pawn => push_pawn(b, v, x, y, w),
                Kind::Knight => push_knight(b, v, x, y, w),
                Kind::Bishop => push_bishop(b, v, x, y, w),
                Kind::Rook => push_rook(b, v, x, y, w),
                Kind::Queen => {
                    let ghost v0 = v@;
                    push_bishop(b, v, x, y, w);
                    push_rook(b, v, x, y, w);
                    assert(v@ =~= v0 + (bishop_moves(b@, x as int, y as int, w) + rook_moves(
                        b@,
                        x as int,
                        y as int,
                        w,
                    )));
                },
                Kind::King => push_king(b, v, x, y, w, if w {
                    wmk
                } else {
                    bmk
                }),
            }
        },
    }
}

/// Every pseudo-legal move on the board, for the pieces of both sides.
/// `wmk` and `bmk` tell whether white and black have already castled or
/// moved their king.
pub fn generate_moves(board: &Board, wmk: bool, bmk: bool) -> (r: Vec<Move>)
    ensures
        r@ == all_moves(board@, wmk, bmk),
        forall|i: int| 0 <= i < r@.len() ==> well_formed(board@, #[trigger] r@[i]),
{
    let mut v: Vec<Move> = Vec::new();
    let mut y: usize = 0;
    while y < 8
        invariant
            y <= 8,
            v@ == rows_moves(board@, wmk, bmk, y as nat),
        decreases 8 - y,
    {
        let ghost v0 = v@;
        let mut x: usize = 0;
        assert(v0 + seq![] =~= v0);
        while x < 8
            invariant
                x <= 8,
                y < 8,
                v@ == v0 + row_moves(board@, wmk, bmk, y as int, x as nat),
            decreases 8 - x,
        {
            let ghost vx = v@;
            push_square(board, &mut v, wmk, bmk, x, y);
            assert(v@ =~= v0 + row_moves(board@, wmk, bmk, y as int, (x + 1) as nat));
            x += 1;
        }
        y += 1;
    }
    proof {
        lemma_moves_well_formed(board@, wmk, bmk);
        assert(v@ == all_moves(board@, wmk, bmk));
    }
    v
}

/// Both squares of `m` are on the board and its `from` square is occupied.
pub open spec fn well_formed(s: Cells, m: Move) -> bool {
    on_board(m.from_x as int, m.from_y as int) && on_board(m.to_x as int, m.to_y as int) && at(
        s,
        m.from_x as int,
        m.from_y as int,
    ).is_some()
}

/// Every move of `ms` starts on (x, y) and ends on the board.
pub open spec fn all_from(ms: Seq<Move>, x: int, y: int) -> bool {
    forall|i: int|
        0 <= i < ms.len() ==> (#[trigger] ms[i]).from_x == x && ms[i].from_y == y && on_board(
            ms[i].to_x as int,
            ms[i].to_y as int,
        )
}

proof fn lemma_cat_from(a: Seq<Move>, b: Seq<Move>, x: int, y: int)
    requires
        all_from(a, x, y),
        all_from(b, x, y),
    ensures
        all_from(a + b, x, y),
{
    assert forall|i: int| 0 <= i < (a + b).len() implies (#[trigger] (a + b)[i]).from_x == x
        && (a + b)[i].from_y == y && on_board((a + b)[i].to_x as int, (a + b)[i].to_y as int) by {
        if i < a.len() {
            assert((a + b)[i] == a[i]);
        } else {
            assert((a + b)[i] == b[i - a.len()]);
        }
    }
}

proof fn lemma_step_from(s: Cells, x: int, y: int, dx: int, dy: int, w: bool)
    requires
        on_board(x, y),
    ensures
        all_from(step(s, x, y, dx, dy, w), x, y),
{
    reveal(step);
}

proof fn lemma_ray_from(
    s: Cells,
    x: int,
    y: int,
    cx: int,
    cy: int,
    dx: int,
    dy: int,
    w: bool,
    n: nat,
)
    requires
        on_board(x, y),
    ensures
        all_from(ray(s, x, y, cx, cy, dx, dy, w, n), x, y),
    decreases n,
{
    if n > 0 && on_board(cx + dx, cy + dy) {
        lemma_ray_from(s, x, y, cx + dx, cy + dy, dx, dy, w, (n - 1) as nat);
    }
}

proof fn lemma_line_from(s: Cells, x: int, y: int, dx: int, dy: int, w: bool)
    requires
        on_board(x, y),
    ensures
        all_from(line(s, x, y, dx, dy, w), x, y),
{
    reveal(line);
    lemma_ray_from(s, x, y, x, y, dx, dy, w, 7);
}

proof fn lemma_bishop_from(s: Cells, x: int, y: int, w: bool)
    requires
        on_board(x, y),
    ensures
        all_from(bishop_moves(s, x, y, w), x, y),
{
    lemma_line_from(s, x, y, 1, 1, w);
    lemma_line_from(s, x, y, -1, 1, w);
    lemma_line_from(s, x, y, 1, -1, w);
    lemma_line_from(s, x, y, -1, -1, w);
    lemma_cat_from(line(s, x, y, 1, 1, w), line(s, x, y, -1, 1, w), x, y);
    lemma_cat_from(line(s, x, y, 1, 1, w) + line(s, x, y, -1, 1, w), line(s, x, y, 1, -1, w), x, y);
    lemma_cat_from(
        line(s, x, y, 1, 1, w) + line(s, x, y, -1, 1, w) + line(s, x, y, 1, -1, w),
        line(s, x, y, -1, -1, w),
        x,
        y,
    );
}

proof fn lemma_rook_from(s: Cells, x: int, y: int, w: bool)
    requires
        on_board(x, y),
    ensures
        all_from(rook_moves(s, x, y, w), x, y),
{
    lemma_line_from(s, x, y, 1, 0, w);
    lemma_line_from(s, x, y, -1, 0, w);
    lemma_line_from(s, x, y, 0, 1, w);
    lemma_line_from(s, x, y, 0, -1, w);
    lemma_cat_from(line(s, x, y, 1, 0, w), line(s, x, y, -1, 0, w), x, y);
    lemma_cat_from(line(s, x, y, 1, 0, w) + line(s, x, y, -1, 0, w), line(s, x, y, 0, 1, w), x, y);
    lemma_cat_from(
        line(s, x, y, 1, 0, w) + line(s, x, y, -1, 0, w) + line(s, x, y, 0, 1, w),
        line(s, x, y, 0, -1, w),
        x,
        y,
    );
}

/// Folds `all_from` over a concatenation of eight single steps.
proof fn lemma_steps_from(s: Cells, x: int, y: int, w: bool, d: Seq<(int, int)>)
    requires
        on_board(x, y),
        d.len() == 8,
    ensures
        all_from(
            step(s, x, y, d[0].0, d[0].1, w) + step(s, x, y, d[1].0, d[1].1, w) + step(
                s,
                x,
                y,
                d[2].0,
                d[2].1,
                w,
            ) + step(s, x, y, d[3].0, d[3].1, w) + step(s, x, y, d[4].0, d[4].1, w) + step(
                s,
                x,
                y,
                d[5].0,
                d[5].1,
                w,
            ) + step(s, x, y, d[6].0, d[6].1, w) + step(s, x, y, d[7].0, d[7].1, w),
            x,
            y,
        ),
{
    let st = |k: int| step(s, x, y, d[k].0, d[k].1, w);
    lemma_step_from(s, x, y, d[0].0, d[0].1, w);
    lemma_step_from(s, x, y, d[1].0, d[1].1, w);
    lemma_step_from(s, x, y, d[2].0, d[2].1, w);
    lemma_step_from(s, x, y, d[3].0, d[3].1, w);
    lemma_step_from(s, x, y, d[4].0, d[4].1, w);
    lemma_step_from(s, x, y, d[5].0, d[5].1, w);
    lemma_step_from(s, x, y, d[6].0, d[6].1, w);
    lemma_step_from(s, x, y, d[7].0, d[7].1, w);
    lemma_cat_from(st(0), st(1), x, y);
    lemma_cat_from(st(0) + st(1), st(2), x, y);
    lemma_cat_from(st(0) + st(1) + st(2), st(3), x, y);
    lemma_cat_from(st(0) + st(1) + st(2) + st(3), st(4), x, y);
    lemma_cat_from(st(0) + st(1) + st(2) + st(3) + st(4), st(5), x, y);
    lemma_cat_from(st(0) + st(1) + st(2) + st(3) + st(4) + st(5), st(6), x, y);
    lemma_cat_from(st(0) + st(1) + st(2) + st(3) + st(4) + st(5) + st(6), st(7), x, y);
}

proof fn lemma_square_from(s: Cells, wmk: bool, bmk: bool, x: int, y: int)
    requires
        on_board(x, y),
    ensures
        all_from(square_moves(s, wmk, bmk, x, y), x, y),
        square_moves(s, wmk, bmk, x, y).len() > 0 ==> at(s, x, y).is_some(),
{
    reveal(pawn_capture);
    match at(s, x, y) {
        None => {},
        Some(p) => {
            let w = p.white;
            match p.kind {
                Kind::Pawn => {},
                Kind::Knight => {
                    lemma_steps_from(
                        s,
                        x,
                        y,
                        w,
                        seq![(-1, -2), (1, -2), (-1, 2), (1, 2), (-2, -1), (2, -1), (-2, 1), (2, 1)],
                    );
                },
                Kind::Bishop => lemma_bishop_from(s, x, y, w),
                Kind::Rook => lemma_rook_from(s, x, y, w),
                Kind::Queen => {
                    lemma_bishop_from(s, x, y, w);
                    lemma_rook_from(s, x, y, w);
                    lemma_cat_from(bishop_moves(s, x, y, w), rook_moves(s, x, y, w), x, y);
                },
                Kind::King => {
                    lemma_steps_from(
                        s,
                        x,
                        y,
                        w,
                        seq![(-1, 0), (1, 0), (0, -1), (0, 1), (-1, -1), (1, -1), (-1, 1), (1, 1)],
                    );
                    let c = if w {
                        wmk
                    } else {
                        bmk
                    };
                    lemma_cat_from(castle_moves(s, x, y, w, c), king_steps(s, x, y, w), x, y);
                },
            }
        },
    }
}

pub open spec fn all_well_formed(s: Cells, ms: Seq<Move>) -> bool {
    forall|i: int| 0 <= i < ms.len() ==> well_formed(s, #[trigger] ms[i])
}

proof fn lemma_cat_well_formed(s: Cells, a: Seq<Move>, b: Seq<Move>)
    requires
        all_well_formed(s, a),
        all_well_formed(s, b),
    ensures
        all_well_formed(s, a + b),
{
    assert forall|i: int| 0 <= i < (a + b).len() implies well_formed(s, #[trigger] (a + b)[i]) by {
        if i < a.len() {
            assert((a + b)[i] == a[i]);
        } else {
            assert((a + b)[i] == b[i - a.len()]);
        }
    }
}

/// A move in `a + b` is in `a` or in `b`.
pub proof fn lemma_cat_member(a: Seq<Move>, b: Seq<Move>, m: Move)
    requires
        (a + b).contains(m),
    ensures
        a.contains(m) || b.contains(m),
{
    let i = choose|i: int| 0 <= i < (a + b).len() && (a + b)[i] == m;
    if i < a.len() {
        assert(a[i] == m);
    } else {
        assert(b[i - a.len()] == m);
    }
}

proof fn lemma_square_well_formed(s: Cells, wmk: bool, bmk: bool, x: int, y: int)
    requires
        on_board(x, y),
    ensures
        all_well_formed(s, square_moves(s, wmk, bmk, x, y)),
{
    lemma_square_from(s, wmk, bmk, x, y);
    let sq = square_moves(s, wmk, bmk, x, y);
    assert forall|i: int| 0 <= i < sq.len() implies well_formed(s, #[trigger] sq[i]) by {
        assert(sq[i].from_x == x && sq[i].from_y == y);
    }
}

proof fn lemma_row_well_formed(s: Cells, wmk: bool, bmk: bool, y: int, n: nat)
    requires
        0 <= y < 8,
        n <= 8,
    ensures
        all_well_formed(s, row_moves(s, wmk, bmk, y, n)),
    decreases n,
{
    if n > 0 {
        lemma_row_well_formed(s, wmk, bmk, y, (n - 1) as nat);
        lemma_square_well_formed(s, wmk, bmk, n - 1, y);
        lemma_cat_well_formed(
            s,
            row_moves(s, wmk, bmk, y, (n - 1) as nat),
            square_moves(s, wmk, bmk, n - 1, y),
        );
    }
}

proof fn lemma_rows_well_formed(s: Cells, wmk: bool, bmk: bool, n: nat)
    requires
        n <= 8,
    ensures
        all_well_formed(s, rows_moves(s, wmk, bmk, n)),
    decreases n,
{
    if n > 0 {
        lemma_rows_well_formed(s, wmk, bmk, (n - 1) as nat);
        lemma_row_well_formed(s, wmk, bmk, n - 1, 8);
        lemma_cat_well_formed(
            s,
            rows_moves(s, wmk, bmk, (n - 1) as nat),
            row_moves(s, wmk, bmk, n - 1, 8),
        );
    }
}

/// No generated move starts on an empty square or leaves the board.
pub proof fn lemma_moves_well_formed(s: Cells, wmk: bool, bmk: bool)
    ensures
        forall|i: int|
            0 <= i < all_moves(s, wmk, bmk).len() ==> well_formed(
                s,
                #[trigger] all_moves(s, wmk, bmk)[i],
            ),
{
    lemma_rows_well_formed(s, wmk, bmk, 8);
}

proof fn lemma_row_member(s: Cells, wmk: bool, bmk: bool, y: int, n: nat, m: Move)
    requires
        0 <= y < 8,
        n <= 8,
        row_moves(s, wmk, bmk, y, n).contains(m),
    ensures
        square_moves(s, wmk, bmk, m.from_x as int, m.from_y as int).contains(m),
    decreases n,
{
    if n > 0 {
        let a = row_moves(s, wmk, bmk, y, (n - 1) as nat);
        let b = square_moves(s, wmk, bmk, n - 1, y);
        lemma_cat_member(a, b, m);
        if a.contains(m) {
            lemma_row_member(s, wmk, bmk, y, (n - 1) as nat, m);
        } else {
            lemma_square_from(s, wmk, bmk, n - 1, y);
            let i = choose|i: int| 0 <= i < b.len() && b[i] == m;
            assert(b[i].from_x == n - 1);
        }
    }
}

proof fn lemma_rows_member(s: Cells, wmk: bool, bmk: bool, n: nat, m: Move)
    requires
        n <= 8,
        rows_moves(s, wmk, bmk, n).contains(m),
    ensures
        square_moves(s, wmk, bmk, m.from_x as int, m.from_y as int).contains(m),
    decreases n,
{
    if n > 0 {
        let a = rows_moves(s, wmk, bmk, (n - 1) as nat);
        let b = row_moves(s, wmk, bmk, n - 1, 8);
        lemma_cat_member(a, b, m);
        if a.contains(m) {
            lemma_rows_member(s, wmk, bmk, (n - 1) as nat, m);
        } else {
            lemma_row_member(s, wmk, bmk, n - 1, 8, m);
        }
    }
}

/// A generated move is one of the moves of the piece on its `from` square.
pub proof fn lemma_move_of_square(s: Cells, wmk: bool, bmk: bool, m: Move)
    requires
        all_moves(s, wmk, bmk).contains(m),
    ensures
        square_moves(s, wmk, bmk, m.from_x as int, m.from_y as int).contains(m),
{
    lemma_rows_member(s, wmk, bmk, 8, m);
}

} // verus!
