use vstd::prelude::*;

verus! {

/// The kind of a piece.
#[derive(Clone, Copy, Debug, PartialEq, Eq, Structural)]
pub enum Kind {
    Pawn,
    Knight,
    Bishop,
    Rook,
    Queen,
    King,
}

/// A piece: its kind and its side. White starts on ranks 6 and 7 and moves
/// toward rank 0; black starts on ranks 0 and 1 and moves toward rank 7.
#[derive(Clone, Copy, Debug, PartialEq, Eq, Structural)]
pub struct Piece {
    pub kind: Kind,
    pub white: bool,
}

/// A move from square (from_x, from_y) to square (to_x, to_y); x is the file
/// and y the rank, both in 0..8.
#[derive(Clone, Copy, Debug, PartialEq, Eq, Structural)]
pub struct Move {
    pub from_x: usize,
    pub from_y: usize,
    pub to_x: usize,
    pub to_y: usize,
}

/// The 64 squares of a board, rank by rank: square (x, y) is cell `y * 8 + x`.
#[derive(Clone, Copy, Debug)]
pub struct Board {
    pub cells: [Option<Piece>; 64],
}

/// What a board holds, as a sequence of 64 cells.
pub type Cells = Seq<Option<Piece>>;

pub open spec fn on_board(x: int, y: int) -> bool {
    0 <= x < 8 && 0 <= y < 8
}

pub open spec fn idx(x: int, y: int) -> int {
    y * 8 + x
}

/// The occupant of square (x, y).
pub open spec fn at(s: Cells, x: int, y: int) -> Option<Piece> {
    s[idx(x, y)]
}

impl View for Board {
    type V = Cells;

    open spec fn view(&self) -> Cells {
        self.cells@
    }
}

impl Piece {
    pub fn wp() -> (r: Option<Piece>)
        ensures
            r == Some(Piece { kind: Kind::Pawn, white: true }),
    {
        Some(Piece { kind: Kind::Pawn, white: true })
    }

    pub fn wn() -> (r: Option<Piece>)
        ensures
            r == Some(Piece { kind: Kind::Knight, white: true }),
    {
        Some(Piece { kind: Kind::Knight, white: true })
    }

    pub fn wb() -> (r: Option<Piece>)
        ensures
            r == Some(Piece { kind: Kind::Bishop, white: true }),
    {
        Some(Piece { kind: Kind::Bishop, white: true })
    }

    pub fn wr() -> (r: Option<Piece>)
        ensures
            r == Some(Piece { kind: Kind::Rook, white: true }),
    {
        Some(Piece { kind: Kind::Rook, white: true })
    }

    pub fn wq() -> (r: Option<Piece>)
        ensures
            r == Some(Piece { kind: Kind::Queen, white: true }),
    {
        Some(Piece { kind: Kind::Queen, white: true })
    }

    pub fn wk() -> (r: Option<Piece>)
        ensures
            r == Some(Piece { kind: Kind::King, white: true }),
    {
        Some(Piece { kind: Kind::King, white: true })
    }

    pub fn bp() -> (r: Option<Piece>)
        ensures
            r == Some(Piece { kind: Kind::Pawn, white: false }),
    {
        Some(Piece { kind: Kind::Pawn, white: false })
    }

    pub fn bn() -> (r: Option<Piece>)
        ensures
            r == Some(Piece { kind: Kind::Knight, white: false }),
    {
        Some(Piece { kind: Kind::Knight, white: false })
    }

    pub fn bb() -> (r: Option<Piece>)
        ensures
            r == Some(Piece { kind: Kind::Bishop, white: false }),
    {
        Some(Piece { kind: Kind::Bishop, white: false })
    }

    pub fn br() -> (r: Option<Piece>)
        ensures
            r == Some(Piece { kind: Kind::Rook, white: false }),
    {
        Some(Piece { kind: Kind::Rook, white: false })
    }

    pub fn bq() -> (r: Option<Piece>)
        ensures
            r == Some(Piece { kind: Kind::Queen, white: false }),
    {
        Some(Piece { kind: Kind::Queen, white: false })
    }

    pub fn bk() -> (r: Option<Piece>)
        ensures
            r == Some(Piece { kind: Kind::King, white: false }),
    {
        Some(Piece { kind: Kind::King, white: false })
    }

    pub fn new(kind: Kind, white: bool) -> (r: Piece)
        ensures
            r == (Piece { kind, white }),
    {
        Piece { kind, white }
    }
}

impl Board {
    /// A board with no pieces.
    pub fn empty() -> (r: Board)
        ensures
            r@.len() == 64,
            forall|i: int| 0 <= i < 64 ==> r@[i].is_none(),
    {
        Board { cells: [None; 64] }
    }

    /// The occupant of square (x, y).
    pub fn get(&self, x: usize, y: usize) -> (r: Option<Piece>)
        requires
            on_board(x as int, y as int),
        ensures
            r == at(self@, x as int, y as int),
    {
        self.cells[y * 8 + x]
    }

    /// Puts `p` on square (x, y), replacing what was there.
    pub fn set(&mut self, x: usize, y: usize, p: Option<Piece>)
        requires
            on_board(x as int, y as int),
        ensures
            final(self)@ == old(self)@.update(idx(x as int, y as int), p),
    {
        self.cells[y * 8 + x] = p;
    }
}

impl Move {
    pub fn new(from_x: usize, from_y: usize, to_x: usize, to_y: usize) -> (r: Move)
        ensures
            r == (Move { from_x, from_y, to_x, to_y }),
    {
        Move { from_x, from_y, to_x, to_y }
    }
}

/// The kind on file x of either side's back rank at the start.
pub open spec fn back_rank_kind(x: int) -> Kind {
    if x == 0 || x == 7 {
        Kind::Rook
    } else if x == 1 || x == 6 {
        Kind::Knight
    } else if x == 2 || x == 5 {
        Kind::Bishop
    } else if x == 3 {
        Kind::Queen
    } else {
        Kind::King
    }
}

/// The occupant of (x, y) in the starting position: black on ranks 0 and 1,
/// white on ranks 6 and 7.
pub open spec fn start_cell(x: int, y: int) -> Option<Piece> {
    if y == 0 || y == 7 {
        Some(Piece { kind: back_rank_kind(x), white: y == 7 })
    } else if y == 1 || y == 6 {
        Some(Piece { kind: Kind::Pawn, white: y == 6 })
    } else {
        None
    }
}

fn back_rank_kind_exec(x: usize) -> (r: Kind)
    ensures
        r == back_rank_kind(x as int),
{
    if x == 0 || x == 7 {
        Kind::Rook
    } else if x == 1 || x == 6 {
        Kind::Knight
    } else if x == 2 || x == 5 {
        Kind::Bishop
    } else if x == 3 {
        Kind::Queen
    } else {
        Kind::King
    }
}

impl Board {
    /// The canonical starting position.
    pub fn start() -> (r: Board)
        ensures
            forall|x: int, y: int| on_board(x, y) ==> #[trigger] at(r@, x, y) == start_cell(x, y),
    {
        let mut b = Board::empty();
        let mut x: usize = 0;
        while x < 8
            invariant
                x <= 8,
                b@.len() == 64,
                forall|i: int, y: int|
                    0 <= i < 8 && 0 <= y < 8 ==> #[trigger] at(b@, i, y) == if i < x {
                        start_cell(i, y)
                    } else {
                        None
                    },
            decreases 8 - x,
        {
            let k = back_rank_kind_exec(x);
            let ghost b0 = b@;
            b.set(x, 0, Some(Piece { kind: k, white: false }));
            b.set(x, 1, Some(Piece { kind: Kind::Pawn, white: false }));
            b.set(x, 6, Some(Piece { kind: Kind::Pawn, white: true }));
            b.set(x, 7, Some(Piece { kind: k, white: true }));
            assert forall|i: int, y: int| 0 <= i < 8 && 0 <= y < 8 implies #[trigger] at(b@, i, y)
                == if i < x + 1 {
                start_cell(i, y)
            } else {
                None
            } by {
                if i != x || (y != 0 && y != 1 && y != 6 && y != 7) {
                    assert(at(b@, i, y) == at(b0, i, y));
                }
            }
            x += 1;
        }
        b
    }
}

} // verus!
