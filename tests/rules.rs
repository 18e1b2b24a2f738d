use chess::board::{Board, Kind, Move, Piece};
use chess::eval::evaluate;
use chess::movegen::generate_moves;
use chess::search::{apply_move, can_respond, make_move, moves_of_side, respond};

fn piece(kind: Kind, white: bool) -> Option<Piece> {
    Some(Piece::new(kind, white))
}

fn targets(b: &Board, x: usize, y: usize) -> Vec<(usize, usize)> {
    generate_moves(b, false, false)
        .into_iter()
        .filter(|m| m.from_x == x && m.from_y == y)
        .map(|m| (m.to_x, m.to_y))
        .collect()
}

#[test]
fn start_position_has_twenty_moves_per_side() {
    let b = Board::start();
    let all = generate_moves(&b, false, false);
    assert_eq!(all.len(), 40);
    assert_eq!(moves_of_side(&b, false, false, true).len(), 20);
    assert_eq!(moves_of_side(&b, false, false, false).len(), 20);
    for m in &all {
        assert!(b.get(m.from_x, m.from_y).is_some());
    }
}

#[test]
fn start_position_layout() {
    let b = Board::start();
    assert_eq!(b.get(4, 0), Piece::bk());
    assert_eq!(b.get(3, 7), Piece::wq());
    assert_eq!(b.get(0, 7), Piece::wr());
    assert_eq!(b.get(6, 0), Piece::bn());
    assert_eq!(b.get(2, 0), Piece::bb());
    assert_eq!(b.get(5, 6), Piece::wp());
    assert_eq!(b.get(5, 1), Piece::bp());
    assert_eq!(b.get(5, 4), None);
}

#[test]
fn pawn_moves_forward_only() {
    let mut b = Board::empty();
    b.set(3, 6, Piece::wp());
    b.set(3, 1, Piece::bp());
    b.set(5, 4, Piece::wp());
    assert_eq!(targets(&b, 3, 6), vec![(3, 5), (3, 4)]);
    assert_eq!(targets(&b, 3, 1), vec![(3, 2), (3, 3)]);
    assert_eq!(targets(&b, 5, 4), vec![(5, 3)]);
}

#[test]
fn pawn_double_step_needs_both_squares_empty() {
    let mut b = Board::empty();
    b.set(2, 6, Piece::wp());
    b.set(2, 4, Piece::bn());
    assert_eq!(targets(&b, 2, 6), vec![(2, 5)]);
    b.set(2, 5, Piece::bn());
    assert_eq!(targets(&b, 2, 6), Vec::<(usize, usize)>::new());
}

#[test]
fn pawn_captures_only_opponents_diagonally() {
    let mut b = Board::empty();
    b.set(4, 4, Piece::wp());
    b.set(3, 3, Piece::bn());
    b.set(5, 3, Piece::wn());
    b.set(4, 3, Piece::bp());
    assert_eq!(targets(&b, 4, 4), vec![(3, 3)]);
}

#[test]
fn pawn_on_far_rank_has_no_move() {
    let mut b = Board::empty();
    b.set(0, 0, Piece::wp());
    b.set(7, 7, Piece::bp());
    assert!(generate_moves(&b, false, false).is_empty());
}

#[test]
fn knight_moves_to_empty_or_opposing_squares() {
    let mut b = Board::empty();
    b.set(0, 0, Piece::bn());
    assert_eq!(targets(&b, 0, 0), vec![(1, 2), (2, 1)]);
    b.set(1, 2, Piece::bp());
    b.set(2, 1, Piece::wp());
    assert_eq!(targets(&b, 0, 0), vec![(2, 1)]);
    let mut c = Board::empty();
    c.set(4, 4, Piece::wn());
    assert_eq!(targets(&c, 4, 4).len(), 8);
}

#[test]
fn rook_ray_stops_at_blockers() {
    let mut b = Board::empty();
    b.set(0, 0, Piece::wr());
    b.set(3, 0, Piece::bp());
    b.set(0, 2, Piece::wp());
    assert_eq!(targets(&b, 0, 0), vec![(1, 0), (2, 0), (3, 0), (0, 1)]);
}

#[test]
fn bishop_and_queen_rays() {
    let mut b = Board::empty();
    b.set(2, 2, Piece::bb());
    b.set(4, 4, Piece::bp());
    b.set(1, 1, Piece::wn());
    assert_eq!(targets(&b, 2, 2), vec![(3, 3), (1, 3), (0, 4), (3, 1), (4, 0), (1, 1)]);
    let mut q = Board::empty();
    q.set(0, 0, Piece::wq());
    assert_eq!(targets(&q, 0, 0).len(), 21);
}

#[test]
fn king_steps_and_castles() {
    let mut b = Board::empty();
    b.set(4, 0, Piece::bk());
    b.set(0, 0, Piece::br());
    b.set(7, 0, Piece::br());
    let all = generate_moves(&b, false, false);
    assert!(all.contains(&Move::new(4, 0, 6, 0)));
    assert!(all.contains(&Move::new(4, 0, 2, 0)));
    let flagged = generate_moves(&b, false, true);
    assert!(!flagged.contains(&Move::new(4, 0, 6, 0)));
    assert!(!flagged.contains(&Move::new(4, 0, 2, 0)));
    b.set(1, 0, Piece::bn());
    let blocked = generate_moves(&b, false, false);
    assert!(!blocked.contains(&Move::new(4, 0, 2, 0)));
    assert!(blocked.contains(&Move::new(4, 0, 6, 0)));
}

#[test]
fn castle_corner_needs_a_rook_of_either_side() {
    let mut b = Board::empty();
    b.set(4, 7, Piece::wk());
    b.set(7, 7, Piece::br());
    b.set(0, 7, Piece::wb());
    let all = generate_moves(&b, false, false);
    assert!(all.contains(&Move::new(4, 7, 6, 7)));
    assert!(!all.contains(&Move::new(4, 7, 2, 7)));
}

#[test]
fn committing_a_short_castle_moves_the_rook() {
    let mut b = Board::empty();
    b.set(4, 0, Piece::bk());
    b.set(7, 0, Piece::br());
    let mut bmk = false;
    apply_move(&mut b, Move::new(4, 0, 6, 0), &mut bmk);
    assert_eq!(b.get(6, 0), Piece::bk());
    assert_eq!(b.get(5, 0), Piece::br());
    assert_eq!(b.get(7, 0), None);
    assert_eq!(b.get(4, 0), None);
    assert!(bmk);
    assert!(!generate_moves(&b, false, bmk).iter().any(|m| m.from_x == 6 && m.to_x == 4));
}

#[test]
fn committing_a_long_castle_moves_the_rook() {
    let mut b = Board::empty();
    b.set(4, 7, Piece::wk());
    b.set(0, 7, Piece::wr());
    let mut wmk = false;
    apply_move(&mut b, Move::new(4, 7, 2, 7), &mut wmk);
    assert_eq!(b.get(2, 7), Piece::wk());
    assert_eq!(b.get(3, 7), Piece::wr());
    assert_eq!(b.get(0, 7), None);
    assert!(wmk);
}

#[test]
fn king_step_sets_flag_without_moving_rooks() {
    let mut b = Board::empty();
    b.set(4, 0, Piece::bk());
    b.set(7, 0, Piece::br());
    let mut bmk = false;
    apply_move(&mut b, Move::new(4, 0, 4, 1), &mut bmk);
    assert!(bmk);
    assert_eq!(b.get(7, 0), Piece::br());
    assert_eq!(b.get(4, 1), Piece::bk());
}

#[test]
fn pawn_reaching_far_rank_becomes_queen() {
    let mut b = Board::empty();
    b.set(3, 6, Piece::bp());
    b.set(5, 1, Piece::wp());
    let mut flag = false;
    apply_move(&mut b, Move::new(3, 6, 3, 7), &mut flag);
    assert_eq!(b.get(3, 7), Piece::bq());
    assert_eq!(b.get(3, 6), None);
    apply_move(&mut b, Move::new(5, 1, 5, 0), &mut flag);
    assert_eq!(b.get(5, 0), Piece::wq());
    assert!(!flag);
}

#[test]
fn make_move_captures_and_promotes() {
    let mut b = Board::empty();
    b.set(1, 1, Piece::wp());
    b.set(2, 0, Piece::br());
    let c = make_move(&b, Move::new(1, 1, 2, 0));
    assert_eq!(c.get(2, 0), Piece::wq());
    assert_eq!(c.get(1, 1), None);
    assert_eq!(b.get(1, 1), Piece::wp());
}

#[test]
fn evaluate_start_is_zero() {
    assert_eq!(evaluate(&Board::start()), 0);
}

#[test]
fn evaluate_piece_values_in_half_points() {
    let mut b = Board::empty();
    b.set(0, 0, Piece::wn());
    assert_eq!(evaluate(&b), 6);
    b.set(3, 3, Piece::bb());
    assert_eq!(evaluate(&b), 6 - 32);
    b.set(7, 7, Piece::wr());
    assert_eq!(evaluate(&b), 6 - 32 + 25);
    b.set(5, 5, Piece::bq());
    assert_eq!(evaluate(&b), 6 - 32 + 25 - 45);
    b.set(4, 7, Piece::wk());
    assert_eq!(evaluate(&b), 6 - 32 + 25 - 45 + 200);
    b.set(0, 3, Piece::wp());
    assert_eq!(evaluate(&b), 6 - 32 + 25 - 45 + 200 + 4);
    b.set(1, 5, Piece::bp());
    assert_eq!(evaluate(&b), 6 - 32 + 25 - 45 + 200 + 4 - 5);
    let mut c = Board::empty();
    c.set(2, 5, Piece::wb());
    assert_eq!(evaluate(&c), 4 * 8);
    let mut d = Board::empty();
    d.set(3, 2, Piece::wn());
    assert_eq!(evaluate(&d), 3 * 7);
}

#[test]
fn evaluate_mirror_negates() {
    let mut b = Board::start();
    b.set(4, 6, None);
    b.set(4, 4, Piece::wp());
    b.set(6, 7, None);
    b.set(5, 5, Piece::wn());
    b.set(3, 0, None);
    let mut m = Board::empty();
    for y in 0..8 {
        for x in 0..8 {
            if let Some(p) = b.get(x, 7 - y) {
                m.set(x, y, Some(Piece::new(p.kind, !p.white)));
            }
        }
    }
    assert_ne!(evaluate(&b), 0);
    assert_eq!(evaluate(&m), -evaluate(&b));
}

#[test]
fn respond_from_start_plays_a_black_move() {
    let mut b = Board::start();
    let before = b;
    let mut bmk = false;
    assert!(can_respond(&b, false, bmk));
    let m = respond(&mut b, false, &mut bmk);
    let moved = before.get(m.from_x, m.from_y).expect("occupied");
    assert!(!moved.white);
    assert!(generate_moves(&before, false, false).contains(&m));
    assert_eq!(b.get(m.from_x, m.from_y), None);
    assert_eq!(b.get(m.to_x, m.to_y), Some(moved));
}

#[test]
fn respond_after_king_pawn_opening() {
    let mut b = Board::start();
    let mut wmk = false;
    let mut bmk = false;
    let e4 = Move::new(4, 6, 4, 4);
    assert!(generate_moves(&b, wmk, bmk).contains(&e4));
    apply_move(&mut b, e4, &mut wmk);
    assert_eq!(b.get(4, 4), Piece::wp());
    let before = b;
    let m = respond(&mut b, wmk, &mut bmk);
    let moved = before.get(m.from_x, m.from_y).expect("occupied");
    assert!(!moved.white);
    assert_eq!(b.get(m.from_x, m.from_y), None);
    assert_eq!(b.get(m.to_x, m.to_y), Some(moved));
    assert!(!wmk);
    assert!(!bmk);
}

#[test]
fn respond_lone_king_takes_last_equal_candidate() {
    let mut b = Board::empty();
    b.set(0, 0, Piece::bk());
    let mut bmk = false;
    let m = respond(&mut b, false, &mut bmk);
    assert_eq!(m, Move::new(0, 0, 1, 1));
    assert_eq!(b.get(1, 1), Piece::bk());
    assert!(bmk);
}

#[test]
fn respond_promotes_its_pawn() {
    let mut b = Board::empty();
    b.set(0, 6, Piece::bp());
    let mut bmk = false;
    let m = respond(&mut b, false, &mut bmk);
    assert_eq!(m, Move::new(0, 6, 0, 7));
    assert_eq!(b.get(0, 7), Piece::bq());
}

#[test]
fn respond_breaks_ties_toward_last_generated() {
    let mut b = Board::empty();
    b.set(4, 0, Piece::bk());
    b.set(7, 0, Piece::br());
    let mut bmk = false;
    assert!(generate_moves(&b, false, bmk).contains(&Move::new(4, 0, 6, 0)));
    let m = respond(&mut b, false, &mut bmk);
    assert_eq!(m, Move::new(7, 0, 7, 7));
    assert_eq!(b.get(7, 7), Piece::br());
    assert!(!bmk);
}

#[test]
fn cannot_respond_without_black_pieces() {
    let mut b = Board::empty();
    b.set(4, 7, Piece::wk());
    assert!(!can_respond(&b, false, false));
    assert!(!can_respond(&Board::empty(), false, false));
}

#[test]
fn respond_keeps_a_set_flag() {
    let mut b = Board::empty();
    b.set(4, 0, Piece::bk());
    b.set(0, 0, Piece::br());
    b.set(4, 7, Piece::wk());
    let mut bmk = true;
    assert!(!generate_moves(&b, false, bmk).contains(&Move::new(4, 0, 2, 0)));
    let m = respond(&mut b, false, &mut bmk);
    assert!(bmk);
    assert_ne!(m, Move::new(4, 0, 2, 0));
}
