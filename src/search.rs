use vstd::prelude::*;
use crate::board::{at, idx, Board, Cells, Kind, Move, Piece};
use crate::eval::{board_score, evaluate, lemma_score_bound, SCORE_BOUND};
use crate::movegen::{
    all_moves, far_rank, generate_moves, home_rank, lemma_moves_well_formed, well_formed,
};

verus! {

/// The number of half-moves simulated after each candidate move.
pub const LOOKAHEAD: usize = 4;

/// What piece `p` becomes on arriving at rank `ty`: a pawn on its far rank
/// becomes a queen of its side.
pub open spec fn promoted(p: Piece, ty: int) -> Piece {
    if p.kind == Kind::Pawn && ty == far_rank(p.white) {
        Piece { kind: Kind::Queen, white: p.white }
    } else {
        p
    }
}

/// The board after the piece on `m`'s `from` square moves to its `to`
/// square, replacing whatever stood there, and is promoted if it is a pawn
/// reaching its far rank.
pub open spec fn relocate(s: Cells, m: Move) -> Cells {
    let c = at(s, m.from_x as int, m.from_y as int);
    let arrived = match c {
        None => None,
        Some(p) => Some(promoted(p, m.to_y as int)),
    };
    s.update(idx(m.to_x as int, m.to_y as int), arrived).update(
        idx(m.from_x as int, m.from_y as int),
        None,
    )
}

/// `m` moves the king of its side from its home square two files sideways
/// while that side's castling flag `castled` is still false.
pub open spec fn is_castle(s: Cells, m: Move, castled: bool) -> bool {
    match at(s, m.from_x as int, m.from_y as int) {
        None => false,
        Some(p) => !castled && p.kind == Kind::King && m.from_x == 4 && m.from_y == home_rank(
            p.white,
        ) && m.to_y == m.from_y && (m.to_x == 2 || m.to_x == 6),
    }
}

/// The file a castling rook leaves, and the file it lands on.
pub open spec fn rook_files(m: Move) -> (int, int) {
    if m.to_x == 6 {
        (7, 5)
    } else {
        (0, 3)
    }
}

/// The board after `m` is played for good: `relocate`, and on a castle the
/// corner rook moves to the square the king passed over.
pub open spec fn committed(s: Cells, m: Move, castled: bool) -> Cells {
    let t = relocate(s, m);
    if is_castle(s, m, castled) {
        let (rf, rt) = rook_files(m);
        let y = m.from_y as int;
        t.update(idx(rt, y), at(t, rf, y)).update(idx(rf, y), None)
    } else {
        t
    }
}

/// The castling flag of the mover's side after `m` is played: it becomes
/// true once that side's king moves.
pub open spec fn flag_after(s: Cells, m: Move, castled: bool) -> bool {
    castled || match at(s, m.from_x as int, m.from_y as int) {
        None => false,
        Some(p) => p.kind == Kind::King,
    }
}

/// The piece on `m`'s `from` square belongs to side `white`.
pub open spec fn mover_is(s: Cells, m: Move, white: bool) -> bool {
    match at(s, m.from_x as int, m.from_y as int) {
        None => false,
        Some(p) => p.white == white,
    }
}

/// The moves of `ms` made by side `white`, in their order.
pub open spec fn of_side(s: Cells, ms: Seq<Move>, white: bool) -> Seq<Move>
    decreases ms.len(),
{
    if ms.len() == 0 {
        seq![]
    } else {
        let r = of_side(s, ms.drop_last(), white);
        if mover_is(s, ms.last(), white) {
            r.push(ms.last())
        } else {
            r
        }
    }
}

/// The pseudo-legal moves of side `white`, in generation order.
pub open spec fn side_moves(s: Cells, wmk: bool, bmk: bool, white: bool) -> Seq<Move> {
    of_side(s, all_moves(s, wmk, bmk), white)
}

/// The score of the board after `m`.
pub open spec fn after(s: Cells, m: Move) -> int {
    board_score(relocate(s, m))
}

/// The index of the first move among the first `n` of `ms` whose resulting
/// board scores highest.
pub open spec fn best_index(s: Cells, ms: Seq<Move>, n: nat) -> int
    decreases n,
{
    if n <= 1 {
        0
    } else {
        let i = best_index(s, ms, (n - 1) as nat);
        if after(s, ms[n - 1]) > after(s, ms[i]) {
            n - 1
        } else {
            i
        }
    }
}

/// The lowest score of the boards after the first `n` (at least one) moves of `ms`.
pub open spec fn lowest(s: Cells, ms: Seq<Move>, n: nat) -> int
    decreases n,
{
    if n <= 1 {
        after(s, ms[0])
    } else {
        let l = lowest(s, ms, (n - 1) as nat);
        let a = after(s, ms[n - 1]);
        if a < l {
            a
        } else {
            l
        }
    }
}

/// The value that `plies` simulated half-moves add to a candidate, with
/// side `white` to move first and sides alternating. At each ply the lowest
/// score over the mover's replies is added, and the reply with the highest
/// score (the first such) is played on; a ply where the mover has no move
/// ends the simulation.
pub open spec fn lookahead(s: Cells, wmk: bool, bmk: bool, white: bool, plies: nat) -> int
    decreases plies,
{
    if plies == 0 {
        0
    } else {
        let ms = side_moves(s, wmk, bmk, white);
        if ms.len() == 0 {
            0
        } else {
            lowest(s, ms, ms.len()) + lookahead(
                relocate(s, ms[best_index(s, ms, ms.len())]),
                wmk,
                bmk,
                !white,
                (plies - 1) as nat,
            )
        }
    }
}

/// The score of black's candidate `m`: the score of the board after it,
/// plus what the simulated replies add.
pub open spec fn candidate_score(s: Cells, wmk: bool, bmk: bool, m: Move) -> int {
    after(s, m) + lookahead(relocate(s, m), wmk, bmk, true, LOOKAHEAD as nat)
}

/// The index of the last candidate among the first `n` of `cs` with the
/// lowest candidate score.
pub open spec fn choice(s: Cells, wmk: bool, bmk: bool, cs: Seq<Move>, n: nat) -> int
    decreases n,
{
    if n <= 1 {
        0
    } else {
        let i = choice(s, wmk, bmk, cs, (n - 1) as nat);
        if candidate_score(s, wmk, bmk, cs[n - 1]) <= candidate_score(s, wmk, bmk, cs[i]) {
            n - 1
        } else {
            i
        }
    }
}

/// The move that `respond` plays for black.
pub open spec fn response(s: Cells, wmk: bool, bmk: bool) -> Move {
    let cs = side_moves(s, wmk, bmk, false);
    cs[choice(s, wmk, bmk, cs, cs.len())]
}

proof fn lemma_of_side(s: Cells, ms: Seq<Move>, white: bool)
    ensures
        forall|i: int|
            0 <= i < of_side(s, ms, white).len() ==> ms.contains(
                #[trigger] of_side(s, ms, white)[i],
            ) && mover_is(s, of_side(s, ms, white)[i], white),
    decreases ms.len(),
{
    if ms.len() > 0 {
        let r = of_side(s, ms.drop_last(), white);
        lemma_of_side(s, ms.drop_last(), white);
        assert forall|i: int| 0 <= i < r.len() implies ms.contains(#[trigger] r[i]) by {
            let j = choose|j: int| 0 <= j < ms.drop_last().len() && ms.drop_last()[j] == r[i];
            assert(ms[j] == r[i]);
        }
        assert(ms[ms.len() - 1] == ms.last());
    }
}

/// The moves of a side are generated moves, made by that side, and well formed.
pub proof fn lemma_side_moves(s: Cells, wmk: bool, bmk: bool, white: bool)
    ensures
        forall|i: int|
            0 <= i < side_moves(s, wmk, bmk, white).len() ==> {
                let m = #[trigger] side_moves(s, wmk, bmk, white)[i];
                all_moves(s, wmk, bmk).contains(m) && mover_is(s, m, white) && well_formed(s, m)
            },
{
    let ms = all_moves(s, wmk, bmk);
    lemma_of_side(s, ms, white);
    lemma_moves_well_formed(s, wmk, bmk);
    assert forall|i: int| 0 <= i < side_moves(s, wmk, bmk, white).len() implies {
        let m = #[trigger] side_moves(s, wmk, bmk, white)[i];
        all_moves(s, wmk, bmk).contains(m) && mover_is(s, m, white) && well_formed(s, m)
    } by {
        let m = of_side(s, ms, white)[i];
        assert(ms.contains(m));
        let j = choose|j: int| 0 <= j < ms.len() && ms[j] == m;
        assert(well_formed(s, ms[j]));
    }
}

proof fn lemma_best_index(s: Cells, ms: Seq<Move>, n: nat)
    requires
        n >= 1,
    ensures
        0 <= best_index(s, ms, n) < n,
    decreases n,
{
    if n > 1 {
        lemma_best_index(s, ms, (n - 1) as nat);
    }
}

proof fn lemma_lowest_bound(s: Cells, ms: Seq<Move>, n: nat)
    ensures
        -SCORE_BOUND <= lowest(s, ms, n) <= SCORE_BOUND,
    decreases n,
{
    lemma_score_bound(relocate(s, ms[0]));
    if n > 1 {
        lemma_lowest_bound(s, ms, (n - 1) as nat);
        lemma_score_bound(relocate(s, ms[n - 1]));
    }
}

proof fn lemma_lookahead_bound(s: Cells, wmk: bool, bmk: bool, white: bool, plies: nat)
    ensures
        -SCORE_BOUND * plies <= lookahead(s, wmk, bmk, white, plies) <= SCORE_BOUND * plies,
    decreases plies,
{
    if plies > 0 {
        let ms = side_moves(s, wmk, bmk, white);
        if ms.len() > 0 {
            lemma_lowest_bound(s, ms, ms.len());
            lemma_lookahead_bound(
                relocate(s, ms[best_index(s, ms, ms.len())]),
                wmk,
                bmk,
                !white,
                (plies - 1) as nat,
            );
        }
    }
}

proof fn lemma_choice(s: Cells, wmk: bool, bmk: bool, cs: Seq<Move>, n: nat)
    requires
        n >= 1,
    ensures
        0 <= choice(s, wmk, bmk, cs, n) < n,
    decreases n,
{
    if n > 1 {
        lemma_choice(s, wmk, bmk, cs, (n - 1) as nat);
    }
}

/// The board after the piece on `m`'s `from` square moves to its `to`
/// square (see `relocate`); castling flags and the rook of a castle are left
/// alone, as in the simulated replies of `respond`.
pub fn make_move(board: &Board, m: Move) -> (r: Board)
    requires
        well_formed(board@, m),
    ensures
        r@ == relocate(board@, m),
{
    let mut b = *board;
    let arrived = match board.get(m.from_x, m.from_y) {
        None => None,
        Some(p) => {
            let far: usize = if p.white {
                0
            } else {
                7
            };
            if p.kind == Kind::Pawn && m.to_y == far {
                Some(Piece { kind: Kind::Queen, white: p.white })
            } else {
                Some(p)
            }
        },
    };
    b.set(m.to_x, m.to_y, arrived);
    b.set(m.from_x, m.from_y, None);
    b
}

/// Plays `m` for good: the piece moves as in `make_move`; on a castle the
/// corner rook moves beside the king; a king move sets `castled`, the
/// castling flag of the mover's side.
pub fn apply_move(board: &mut Board, m: Move, castled: &mut bool)
    requires
        well_formed(old(board)@, m),
    ensures
        final(board)@ == committed(old(board)@, m, *old(castled)),
        *final(castled) == flag_after(old(board)@, m, *old(castled)),
        *old(castled) ==> *final(castled),
{
    let p = match board.get(m.from_x, m.from_y) {
        Some(p) => p,
        None => {
            return ;
        },
    };
    let home: usize = if p.white {
        7
    } else {
        0
    };
    let castle = !*castled && p.kind == Kind::King && m.from_x == 4 && m.from_y == home && m.to_y
        == m.from_y && (m.to_x == 2 || m.to_x == 6);
    *board = make_move(board, m);
    if castle {
        let rf: usize = if m.to_x == 6 {
            7
        } else {
            0
        };
        let rt: usize = if m.to_x == 6 {
            5
        } else {
            3
        };
        let rook = board.get(rf, m.from_y);
        board.set(rt, m.from_y, rook);
        board.set(rf, m.from_y, None);
    }
    if p.kind == Kind::King {
        *castled = true;
    }
}

fn filter_side(board: &Board, ms: &Vec<Move>, white: bool) -> (r: Vec<Move>)
    requires
        forall|i: int| 0 <= i < ms@.len() ==> well_formed(board@, #[trigger] ms@[i]),
    ensures
        r@ == of_side(board@, ms@, white),
{
    let mut r: Vec<Move> = Vec::new();
    let mut i: usize = 0;
    while i < ms.len()
        invariant
            i <= ms@.len(),
            forall|j: int| 0 <= j < ms@.len() ==> well_formed(board@, #[trigger] ms@[j]),
            r@ == of_side(board@, ms@.subrange(0, i as int), white),
        decreases ms@.len() - i,
    {
        let m = ms[i];
        assert(well_formed(board@, ms@[i as int]));
        let ghost pre = ms@.subrange(0, i as int + 1);
        assert(pre.drop_last() =~= ms@.subrange(0, i as int));
        assert(pre.last() == m);
        let mine = match board.get(m.from_x, m.from_y) {
            None => false,
            Some(p) => p.white == white,
        };
        if mine {
            r.push(m);
        }
        i += 1;
    }
    assert(ms@.subrange(0, ms@.len() as int) =~= ms@);
    r
}

/// The pseudo-legal moves of side `white`, in generation order.
pub fn moves_of_side(board: &Board, wmk: bool, bmk: bool, white: bool) -> (r: Vec<Move>)
    ensures
        r@ == side_moves(board@, wmk, bmk, white),
        forall|i: int|
            0 <= i < r@.len() ==> all_moves(board@, wmk, bmk).contains(#[trigger] r@[i])
                && mover_is(board@, r@[i], white) && well_formed(board@, r@[i]),
{
    let all = generate_moves(board, wmk, bmk);
    let r = filter_side(board, &all, white);
    proof {
        lemma_side_moves(board@, wmk, bmk, white);
        assert(r@ == side_moves(board@, wmk, bmk, white));
        assert forall|i: int| 0 <= i < r@.len() implies all_moves(board@, wmk, bmk).contains(
            #[trigger] r@[i],
        ) && mover_is(board@, r@[i], white) && well_formed(board@, r@[i]) by {
            assert(r@[i] == side_moves(board@, wmk, bmk, white)[i]);
        }
    }
    r
}

/// The index of the first highest-scoring move of `ms`, and the lowest
/// score, over the boards after each move.
fn best_and_lowest(board: &Board, ms: &Vec<Move>) -> (r: (usize, i64))
    requires
        ms@.len() > 0,
        forall|i: int| 0 <= i < ms@.len() ==> well_formed(board@, #[trigger] ms@[i]),
    ensures
        r.0 == best_index(board@, ms@, ms@.len()),
        r.0 < ms@.len(),
        r.1 == lowest(board@, ms@, ms@.len()),
{
    let first = evaluate(&make_move(board, ms[0]));
    let mut best: usize = 0;
    let mut best_score: i64 = first;
    let mut low: i64 = first;
    let mut i: usize = 1;
    while i < ms.len()
        invariant
            1 <= i <= ms@.len(),
            forall|j: int| 0 <= j < ms@.len() ==> well_formed(board@, #[trigger] ms@[j]),
            best == best_index(board@, ms@, i as nat),
            best < i,
            best_score == after(board@, ms@[best as int]),
            low == lowest(board@, ms@, i as nat),
        decreases ms@.len() - i,
    {
        assert(well_formed(board@, ms@[i as int]));
        let sc = evaluate(&make_move(board, ms[i]));
        if sc > best_score {
            best = i;
            best_score = sc;
        }
        if sc < low {
            low = sc;
        }
        i += 1;
    }
    (best, low)
}

/// What `plies` simulated half-moves add to a candidate (see `lookahead`).
fn simulate(board: &Board, wmk: bool, bmk: bool, white: bool, plies: usize) -> (r: i64)
    requires
        plies <= LOOKAHEAD,
    ensures
        r == lookahead(board@, wmk, bmk, white, plies as nat),
    decreases plies,
{
    if plies == 0 {
        return 0;
    }
    let ms = moves_of_side(board, wmk, bmk, white);
    if ms.len() == 0 {
        return 0;
    }
    let (best, low) = best_and_lowest(board, &ms);
    let next = make_move(board, ms[best]);
    let rest = simulate(&next, wmk, bmk, !white, plies - 1);
    proof {
        lemma_lookahead_bound(next@, wmk, bmk, !white, (plies - 1) as nat);
        lemma_lowest_bound(board@, ms@, ms@.len());
    }
    low + rest
}

/// Black has at least one pseudo-legal move, so that `respond` can be called.
pub fn can_respond(board: &Board, wmk: bool, bmk: bool) -> (r: bool)
    ensures
        r == (side_moves(board@, wmk, bmk, false).len() > 0),
{
    moves_of_side(board, wmk, bmk, false).len() > 0
}

/// Chooses black's move and plays it: each black candidate is scored by
/// the board after it plus the simulated replies, and the last candidate
/// with the lowest score is played with `apply_move`. `wmk` and `bmk` are the
/// castling flags of white and black.
pub fn respond(board: &mut Board, wmk: bool, bmk: &mut bool) -> (r: Move)
    requires
        side_moves(old(board)@, wmk, *old(bmk), false).len() > 0,
    ensures
        r == response(old(board)@, wmk, *old(bmk)),
        all_moves(old(board)@, wmk, *old(bmk)).contains(r),
        mover_is(old(board)@, r, false),
        final(board)@ == committed(old(board)@, r, *old(bmk)),
        *final(bmk) == flag_after(old(board)@, r, *old(bmk)),
        *old(bmk) ==> *final(bmk),
{
    let ghost s = board@;
    let cs = moves_of_side(board, wmk, *bmk, false);
    let ghost score = |m: Move| candidate_score(s, wmk, *old(bmk), m);
    let mut pick: usize = 0;
    let mut pick_score: i64 = 0;
    let mut i: usize = 0;
    while i < cs.len()
        invariant
            0 <= i <= cs@.len(),
            cs@ == side_moves(s, wmk, *old(bmk), false),
            *bmk == *old(bmk),
            board@ == s,
            cs@.len() > 0,
            forall|j: int| 0 <= j < cs@.len() ==> well_formed(s, #[trigger] cs@[j]),
            i > 0 ==> pick == choice(s, wmk, *bmk, cs@, i as nat),
            i > 0 ==> pick < i,
            i > 0 ==> pick_score == candidate_score(s, wmk, *bmk, cs@[pick as int]),
        decreases cs@.len() - i,
    {
        assert(well_formed(s, cs@[i as int]));
        let next = make_move(board, cs[i]);
        let rest = simulate(&next, wmk, *bmk, true, LOOKAHEAD);
        let base = evaluate(&next);
        proof {
            lemma_lookahead_bound(next@, wmk, *bmk, true, LOOKAHEAD as nat);
        }
        let sc = base + rest;
        if i == 0 || sc <= pick_score {
            pick = i;
            pick_score = sc;
        }
        i += 1;
    }
    let m = cs[pick];
    proof {
        lemma_side_moves(s, wmk, *bmk, false);
    }
    apply_move(board, m, bmk);
    m
}

} // verus!
