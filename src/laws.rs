use vstd::prelude::*;
use crate::board::{at, on_board, Cells, Kind, Move, Piece};
use crate::search::{flag_after, is_castle};
use crate::eval::{board_score, centre, fold, row_score, rows_score};
use crate::movegen::{
    all_moves, bishop_moves, castle_moves, king_steps, long_castle_open, short_castle_open, step, empty_at, forward, lemma_cat_member, lemma_move_of_square,
    lemma_moves_well_formed, line, mv, pawn_advance, pawn_capture, pawn_start, piece_moves, ray,
    rook_moves, well_formed,
};

verus! {

/// Every generated move starts on an occupied square.
pub proof fn law_from_occupied(s: Cells, wmk: bool, bmk: bool, m: Move)
    requires
        all_moves(s, wmk, bmk).contains(m),
    ensures
        at(s, m.from_x as int, m.from_y as int).is_some(),
        on_board(m.from_x as int, m.from_y as int),
        on_board(m.to_x as int, m.to_y as int),
{
    lemma_moves_well_formed(s, wmk, bmk);
    let i = choose|i: int| 0 <= i < all_moves(s, wmk, bmk).len() && all_moves(s, wmk, bmk)[i] == m;
    assert(well_formed(s, all_moves(s, wmk, bmk)[i]));
}

proof fn lemma_square_of(s: Cells, wmk: bool, bmk: bool, m: Move) -> (p: Piece)
    requires
        all_moves(s, wmk, bmk).contains(m),
    ensures
        at(s, m.from_x as int, m.from_y as int) == Some(p),
        piece_moves(
            s,
            p,
            m.from_x as int,
            m.from_y as int,
            if p.white {
                wmk
            } else {
                bmk
            },
        ).contains(m),
{
    law_from_occupied(s, wmk, bmk, m);
    lemma_move_of_square(s, wmk, bmk, m);
    at(s, m.from_x as int, m.from_y as int).unwrap()
}

/// A pawn moves only toward its far rank: one rank forward, or two ranks
/// straight forward from its start rank, over an empty square onto an empty
/// square.
pub proof fn law_pawn_forward(s: Cells, wmk: bool, bmk: bool, m: Move, p: Piece)
    requires
        all_moves(s, wmk, bmk).contains(m),
        at(s, m.from_x as int, m.from_y as int) == Some(p),
        p.kind == Kind::Pawn,
    ensures
        m.to_y == m.from_y + forward(p.white) || (m.from_y == pawn_start(p.white) && m.to_x
            == m.from_x && m.to_y == m.from_y + 2 * forward(p.white) && empty_at(
            s,
            m.from_x as int,
            m.from_y + forward(p.white),
        ) && empty_at(s, m.to_x as int, m.to_y as int)),
{
    reveal(pawn_capture);
    lemma_square_of(s, wmk, bmk, m);
    let x = m.from_x as int;
    let y = m.from_y as int;
    let w = p.white;
    let fy = y + forward(w);
    let adv = pawn_advance(s, x, y, w);
    let c1 = pawn_capture(s, x, y, x - 1, fy, w);
    let c2 = pawn_capture(s, x, y, x + 1, fy, w);
    lemma_cat_member(adv + c1, c2, m);
    if (adv + c1).contains(m) {
        lemma_cat_member(adv, c1, m);
        if adv.contains(m) {
            let a = mv(x, y, x, fy);
            if empty_at(s, x, fy) {
                let rest = if y == pawn_start(w) && empty_at(s, x, fy + forward(w)) {
                    seq![mv(x, y, x, fy + forward(w))]
                } else {
                    seq![]
                };
                lemma_cat_member(seq![a], rest, m);
            }
        }
    }
}

/// The squares passed from (cx, cy) by steps of (dx, dy) before (tx, ty)
/// are empty, and (tx, ty) is reached within `n` steps.
pub open spec fn clear_path(
    s: Cells,
    cx: int,
    cy: int,
    tx: int,
    ty: int,
    dx: int,
    dy: int,
    n: nat,
) -> bool
    decreases n,
{
    n > 0 && on_board(cx + dx, cy + dy) && ((cx + dx == tx && cy + dy == ty) || (empty_at(
        s,
        cx + dx,
        cy + dy,
    ) && clear_path(s, cx + dx, cy + dy, tx, ty, dx, dy, (n - 1) as nat)))
}

/// (dx, dy) is a direction along which a piece of kind `k` slides.
pub open spec fn slides(k: Kind, dx: int, dy: int) -> bool {
    let diagonal = (dx == 1 || dx == -1) && (dy == 1 || dy == -1);
    let straight = (dx == 0 && (dy == 1 || dy == -1)) || (dy == 0 && (dx == 1 || dx == -1));
    match k {
        Kind::Bishop => diagonal,
        Kind::Rook => straight,
        Kind::Queen => diagonal || straight,
        _ => false,
    }
}

proof fn lemma_ray_clear(
    s: Cells,
    x: int,
    y: int,
    cx: int,
    cy: int,
    dx: int,
    dy: int,
    w: bool,
    n: nat,
    m: Move,
)
    requires
        ray(s, x, y, cx, cy, dx, dy, w, n).contains(m),
    ensures
        clear_path(s, cx, cy, m.to_x as int, m.to_y as int, dx, dy, n),
    decreases n,
{
    let tx = cx + dx;
    let ty = cy + dy;
    let first = mv(x, y, tx, ty);
    match at(s, tx, ty) {
        None => {
            let rest = ray(s, x, y, tx, ty, dx, dy, w, (n - 1) as nat);
            lemma_cat_member(seq![first], rest, m);
            if rest.contains(m) {
                lemma_ray_clear(s, x, y, tx, ty, dx, dy, w, (n - 1) as nat, m);
            }
        },
        Some(p) => {},
    }
}

proof fn lemma_line_clear(s: Cells, x: int, y: int, dx: int, dy: int, w: bool, m: Move)
    requires
        line(s, x, y, dx, dy, w).contains(m),
    ensures
        clear_path(s, x, y, m.to_x as int, m.to_y as int, dx, dy, 7),
{
    reveal(line);
    lemma_ray_clear(s, x, y, x, y, dx, dy, w, 7, m);
}

/// Four lines, one holding `m`, give a direction for `m`.
proof fn lemma_lines_clear(
    s: Cells,
    x: int,
    y: int,
    w: bool,
    m: Move,
    k: Kind,
    d: Seq<(int, int)>,
) -> (r: (int, int))
    requires
        d.len() == 4,
        forall|i: int| 0 <= i < 4 ==> slides(k, #[trigger] d[i].0, d[i].1),
        (line(s, x, y, d[0].0, d[0].1, w) + line(s, x, y, d[1].0, d[1].1, w) + line(
            s,
            x,
            y,
            d[2].0,
            d[2].1,
            w,
        ) + line(s, x, y, d[3].0, d[3].1, w)).contains(m),
    ensures
        slides(k, r.0, r.1),
        clear_path(s, x, y, m.to_x as int, m.to_y as int, r.0, r.1, 7),
{
    let l = |i: int| line(s, x, y, d[i].0, d[i].1, w);
    assert(slides(k, d[0].0, d[0].1));
    assert(slides(k, d[1].0, d[1].1));
    assert(slides(k, d[2].0, d[2].1));
    assert(slides(k, d[3].0, d[3].1));
    lemma_cat_member(l(0) + l(1) + l(2), l(3), m);
    if l(3).contains(m) {
        lemma_line_clear(s, x, y, d[3].0, d[3].1, w, m);
        return d[3];
    }
    lemma_cat_member(l(0) + l(1), l(2), m);
    if l(2).contains(m) {
        lemma_line_clear(s, x, y, d[2].0, d[2].1, w, m);
        return d[2];
    }
    lemma_cat_member(l(0), l(1), m);
    if l(1).contains(m) {
        lemma_line_clear(s, x, y, d[1].0, d[1].1, w, m);
        return d[1];
    }
    lemma_line_clear(s, x, y, d[0].0, d[0].1, w, m);
    d[0]
}

/// A bishop, rook or queen never jumps: its target lies along one of its
/// directions and every square passed before the target is empty.
pub proof fn law_no_jump(s: Cells, wmk: bool, bmk: bool, m: Move, p: Piece)
    requires
        all_moves(s, wmk, bmk).contains(m),
        at(s, m.from_x as int, m.from_y as int) == Some(p),
        p.kind == Kind::Bishop || p.kind == Kind::Rook || p.kind == Kind::Queen,
    ensures
        exists|dx: int, dy: int|
            slides(p.kind, dx, dy) && clear_path(
                s,
                m.from_x as int,
                m.from_y as int,
                m.to_x as int,
                m.to_y as int,
                dx,
                dy,
                7,
            ),
{
    lemma_square_of(s, wmk, bmk, m);
    let x = m.from_x as int;
    let y = m.from_y as int;
    let w = p.white;
    let diag = seq![(1int, 1int), (-1int, 1int), (1int, -1int), (-1int, -1int)];
    let orth = seq![(1int, 0int), (-1int, 0int), (0int, 1int), (0int, -1int)];
    let r = if p.kind == Kind::Bishop {
        assert(bishop_moves(s, x, y, w).contains(m));
        lemma_lines_clear(s, x, y, w, m, p.kind, diag)
    } else if p.kind == Kind::Rook {
        lemma_lines_clear(s, x, y, w, m, p.kind, orth)
    } else {
        lemma_cat_member(bishop_moves(s, x, y, w), rook_moves(s, x, y, w), m);
        if bishop_moves(s, x, y, w).contains(m) {
            lemma_lines_clear(s, x, y, w, m, p.kind, diag)
        } else {
            lemma_lines_clear(s, x, y, w, m, p.kind, orth)
        }
    };
    assert(slides(p.kind, r.0, r.1) && clear_path(
        s,
        x,
        y,
        m.to_x as int,
        m.to_y as int,
        r.0,
        r.1,
        7,
    ));
}

proof fn lemma_step_target(s: Cells, x: int, y: int, dx: int, dy: int, w: bool, m: Move)
    requires
        step(s, x, y, dx, dy, w).contains(m),
    ensures
        m.to_x == x + dx,
{
    reveal(step);
    assert(step(s, x, y, dx, dy, w)[0] == m);
}

/// A king step moves at most one file.
proof fn lemma_king_step_files(s: Cells, x: int, y: int, w: bool, m: Move)
    requires
        king_steps(s, x, y, w).contains(m),
    ensures
        x - 1 <= m.to_x <= x + 1,
{
    let d = seq![
        (-1int, 0int),
        (1int, 0int),
        (0int, -1int),
        (0int, 1int),
        (-1int, -1int),
        (1int, -1int),
        (-1int, 1int),
        (1int, 1int),
    ];
    let st = |k: int| step(s, x, y, d[k].0, d[k].1, w);
    assert(king_steps(s, x, y, w) == st(0) + st(1) + st(2) + st(3) + st(4) + st(5) + st(6) + st(
        7,
    ));
    let mut acc = st(0) + st(1) + st(2) + st(3) + st(4) + st(5) + st(6);
    lemma_cat_member(acc, st(7), m);
    if st(7).contains(m) {
        lemma_step_target(s, x, y, d[7].0, d[7].1, w, m);
        return ;
    }
    acc = st(0) + st(1) + st(2) + st(3) + st(4) + st(5);
    lemma_cat_member(acc, st(6), m);
    if st(6).contains(m) {
        lemma_step_target(s, x, y, d[6].0, d[6].1, w, m);
        return ;
    }
    acc = st(0) + st(1) + st(2) + st(3) + st(4);
    lemma_cat_member(acc, st(5), m);
    if st(5).contains(m) {
        lemma_step_target(s, x, y, d[5].0, d[5].1, w, m);
        return ;
    }
    acc = st(0) + st(1) + st(2) + st(3);
    lemma_cat_member(acc, st(4), m);
    if st(4).contains(m) {
        lemma_step_target(s, x, y, d[4].0, d[4].1, w, m);
        return ;
    }
    acc = st(0) + st(1) + st(2);
    lemma_cat_member(acc, st(3), m);
    if st(3).contains(m) {
        lemma_step_target(s, x, y, d[3].0, d[3].1, w, m);
        return ;
    }
    acc = st(0) + st(1);
    lemma_cat_member(acc, st(2), m);
    if st(2).contains(m) {
        lemma_step_target(s, x, y, d[2].0, d[2].1, w, m);
        return ;
    }
    lemma_cat_member(st(0), st(1), m);
    if st(1).contains(m) {
        lemma_step_target(s, x, y, d[1].0, d[1].1, w, m);
        return ;
    }
    lemma_step_target(s, x, y, d[0].0, d[0].1, w, m);
}

/// A king moves two files only by castling: its side's flag is false, it
/// stands on its home square, the squares between it and the corner are
/// empty and a rook holds the corner.
pub proof fn law_castle_conditions(s: Cells, wmk: bool, bmk: bool, m: Move, p: Piece)
    requires
        all_moves(s, wmk, bmk).contains(m),
        at(s, m.from_x as int, m.from_y as int) == Some(p),
        p.kind == Kind::King,
        m.to_x == m.from_x + 2 || m.from_x == m.to_x + 2,
    ensures
        m.to_y == m.from_y,
        (m.to_x == 2 && long_castle_open(
            s,
            m.from_x as int,
            m.from_y as int,
            p.white,
            if p.white {
                wmk
            } else {
                bmk
            },
        )) || (m.to_x == 6 && short_castle_open(
            s,
            m.from_x as int,
            m.from_y as int,
            p.white,
            if p.white {
                wmk
            } else {
                bmk
            },
        )),
{
    lemma_square_of(s, wmk, bmk, m);
    let x = m.from_x as int;
    let y = m.from_y as int;
    let w = p.white;
    let c = if w {
        wmk
    } else {
        bmk
    };
    lemma_cat_member(castle_moves(s, x, y, w, c), king_steps(s, x, y, w), m);
    if king_steps(s, x, y, w).contains(m) {
        lemma_king_step_files(s, x, y, w, m);
    } else {
        let long = if long_castle_open(s, x, y, w, c) {
            seq![mv(x, y, 2, y)]
        } else {
            seq![]
        };
        let short = if short_castle_open(s, x, y, w, c) {
            seq![mv(x, y, 6, y)]
        } else {
            seq![]
        };
        lemma_cat_member(long, short, m);
        if long.contains(m) {
            assert(long[0] == m);
        } else {
            assert(short[0] == m);
        }
    }
}

/// A castle sets the castling flag of its side, and a flag once true stays
/// true.
pub proof fn law_castle_sets_flag(s: Cells, m: Move, castled: bool)
    ensures
        is_castle(s, m, castled) ==> flag_after(s, m, castled),
        castled ==> flag_after(s, m, castled),
{
}

/// A piece of the same kind on the other side.
pub open spec fn flip(c: Option<Piece>) -> Option<Piece> {
    match c {
        None => None,
        Some(p) => Some(Piece { kind: p.kind, white: !p.white }),
    }
}

/// `t` is `s` turned upside down, rank y onto rank 7 - y, with every piece
/// handed to the other side.
pub open spec fn mirrored(s: Cells, t: Cells) -> bool {
    forall|x: int, y: int| on_board(x, y) ==> #[trigger] at(t, x, y) == flip(at(s, x, 7 - y))
}

proof fn lemma_row_mirror(s: Cells, t: Cells, y: int, n: nat)
    requires
        mirrored(s, t),
        0 <= y < 8,
        n <= 8,
    ensures
        row_score(t, y, n) == -row_score(s, 7 - y, n),
    decreases n,
{
    if n > 0 {
        lemma_row_mirror(s, t, y, (n - 1) as nat);
        assert(at(t, n - 1, y) == flip(at(s, n - 1, 7 - y)));
        assert(fold(7 - y) == fold(y));
        assert(centre(n - 1, 7 - y) == centre(n - 1, y));
    }
}

/// Turning the board upside down and swapping the sides of all pieces
/// negates the score.
pub proof fn law_mirror_negates(s: Cells, t: Cells)
    requires
        mirrored(s, t),
    ensures
        board_score(t) == -board_score(s),
{
    lemma_row_mirror(s, t, 0, 8);
    lemma_row_mirror(s, t, 1, 8);
    lemma_row_mirror(s, t, 2, 8);
    lemma_row_mirror(s, t, 3, 8);
    lemma_row_mirror(s, t, 4, 8);
    lemma_row_mirror(s, t, 5, 8);
    lemma_row_mirror(s, t, 6, 8);
    lemma_row_mirror(s, t, 7, 8);
    reveal_with_fuel(rows_score, 9);
}

} // verus!
