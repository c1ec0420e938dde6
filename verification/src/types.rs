//! The vocabulary of the board: colors, pieces, squares, directions and moves.

use vstd::prelude::*;

use crate::bits::flip;

verus! {

/// One of the two players.
#[derive(Clone, Copy, PartialEq, Eq, Structural, Debug, Hash)]
pub enum Color {
    White,
    Black,
}

impl Color {
    /// The other player.
    pub open spec fn other(self) -> Color {
        match self {
            Color::White => Color::Black,
            Color::Black => Color::White,
        }
    }

    /// The other player.
    #[inline]
    pub fn opponent(self) -> (r: Color)
        ensures
            r == self.other(),
    {
        match self {
            Color::White => Color::Black,
            Color::Black => Color::White,
        }
    }

    /// `+1` for White, whose pawns go up the board, and `-1` for Black.
    pub open spec fn forward(self) -> int {
        match self {
            Color::White => 1,
            Color::Black => -1,
        }
    }

    /// The direction in which this player's pawns advance.
    #[inline]
    pub fn forward_direction(self) -> (r: Direction)
        ensures
            r.df() == 0,
            r.dr() == self.forward(),
    {
        match self {
            Color::White => Direction::North,
            Color::Black => Direction::South,
        }
    }
}

/// The six kinds of chess piece.
#[derive(Clone, Copy, PartialEq, Eq, Structural, Debug, Hash)]
pub enum PieceType {
    Pawn,
    Knight,
    Bishop,
    Rook,
    Queen,
    King,
}

impl PieceType {
    /// Position of the kind in the order pawn, knight, bishop, rook, queen, king.
    pub open spec fn ord(self) -> int {
        match self {
            PieceType::Pawn => 0,
            PieceType::Knight => 1,
            PieceType::Bishop => 2,
            PieceType::Rook => 3,
            PieceType::Queen => 4,
            PieceType::King => 5,
        }
    }

    /// Position of the kind in the order pawn, knight, bishop, rook, queen, king.
    #[inline]
    pub fn index(self) -> (r: usize)
        ensures
            r == self.ord(),
            r < 6,
    {
        match self {
            PieceType::Pawn => 0,
            PieceType::Knight => 1,
            PieceType::Bishop => 2,
            PieceType::Rook => 3,
            PieceType::Queen => 4,
            PieceType::King => 5,
        }
    }

    /// The lower-case letter of the kind.
    pub open spec fn letter_spec(self) -> char {
        match self {
            PieceType::Pawn => 'p',
            PieceType::Knight => 'n',
            PieceType::Bishop => 'b',
            PieceType::Rook => 'r',
            PieceType::Queen => 'q',
            PieceType::King => 'k',
        }
    }

    /// The lower-case letter of the kind.
    pub fn letter(self) -> (r: char)
        ensures
            r == self.letter_spec(),
    {
        match self {
            PieceType::Pawn => 'p',
            PieceType::Knight => 'n',
            PieceType::Bishop => 'b',
            PieceType::Rook => 'r',
            PieceType::Queen => 'q',
            PieceType::King => 'k',
        }
    }
}

/// A piece: its owner and its kind.
#[derive(Clone, Copy, PartialEq, Eq, Structural, Debug, Hash)]
pub struct Piece {
    pub color: Color,
    pub piece_type: PieceType,
}

impl Piece {
    pub fn new(color: Color, piece_type: PieceType) -> (r: Piece)
        ensures
            r.color == color,
            r.piece_type == piece_type,
    {
        Piece { color, piece_type }
    }

    /// White pieces are `0..6`, black pieces `6..12`.
    pub open spec fn ord(self) -> int {
        match self.color {
            Color::White => self.piece_type.ord(),
            Color::Black => 6 + self.piece_type.ord(),
        }
    }

    /// White pieces are `0..6`, black pieces `6..12`.
    #[inline]
    pub fn index(self) -> (r: usize)
        ensures
            r == self.ord(),
            r < 12,
    {
        match self.color {
            Color::White => self.piece_type.index(),
            Color::Black => 6 + self.piece_type.index(),
        }
    }

    /// The same kind in the other color.
    pub open spec fn swapped(self) -> Piece {
        Piece { color: self.color.other(), piece_type: self.piece_type }
    }

    /// The FEN letter: upper case for White, lower case for Black.
    pub open spec fn char_spec(self) -> char {
        match (self.color, self.piece_type) {
            (Color::White, PieceType::Pawn) => 'P',
            (Color::White, PieceType::Knight) => 'N',
            (Color::White, PieceType::Bishop) => 'B',
            (Color::White, PieceType::Rook) => 'R',
            (Color::White, PieceType::Queen) => 'Q',
            (Color::White, PieceType::King) => 'K',
            (Color::Black, pt) => pt.letter_spec(),
        }
    }

    /// The FEN letter: upper case for White, lower case for Black.
    pub fn to_char(self) -> (r: char)
        ensures
            r == self.char_spec(),
    {
        match self.color {
            Color::White => match self.piece_type {
                PieceType::Pawn => 'P',
                PieceType::Knight => 'N',
                PieceType::Bishop => 'B',
                PieceType::Rook => 'R',
                PieceType::Queen => 'Q',
                PieceType::King => 'K',
            },
            Color::Black => self.piece_type.letter(),
        }
    }

    /// The piece that a FEN letter stands for.
    pub fn from_char(c: char) -> (r: Option<Piece>)
        ensures
            match r {
                Some(p) => p.char_spec() == c,
                None => forall|p: Piece| #[trigger] p.char_spec() != c,
            },
    {
        let color = if c == 'P' || c == 'N' || c == 'B' || c == 'R' || c == 'Q' || c == 'K' {
            Color::White
        } else {
            Color::Black
        };
        let piece_type = if c == 'P' || c == 'p' {
            PieceType::Pawn
        } else if c == 'N' || c == 'n' {
            PieceType::Knight
        } else if c == 'B' || c == 'b' {
            PieceType::Bishop
        } else if c == 'R' || c == 'r' {
            PieceType::Rook
        } else if c == 'Q' || c == 'q' {
            PieceType::Queen
        } else if c == 'K' || c == 'k' {
            PieceType::King
        } else {
            return None;
        };
        Some(Piece { color, piece_type })
    }
}

/// Different pieces have different FEN letters.
pub proof fn lemma_piece_chars_distinct(p: Piece, q: Piece)
    requires
        p.char_spec() == q.char_spec(),
    ensures
        p == q,
{
}

/// A square of the board: `0` is a1, `7` is h1, `63` is h8.
#[derive(Clone, Copy, PartialEq, Eq, Structural, Debug, Hash)]
pub struct Square(pub u8);

impl Square {
    /// The number names a square of the board.
    pub open spec fn wf(self) -> bool {
        self.0 < 64
    }

    pub open spec fn i(self) -> int {
        self.0 as int
    }

    /// The square with the given number, if there is one.
    pub fn from_index(i: u8) -> (r: Option<Square>)
        ensures
            match r {
                Some(s) => i < 64 && s == Square(i),
                None => i >= 64,
            },
    {
        if i < 64 {
            Some(Square(i))
        } else {
            None
        }
    }

    /// The square on a file (`0` is the a-file) and a rank (`0` is the first).
    pub fn make(file: u8, rank: u8) -> (r: Square)
        requires
            file < 8,
            rank < 8,
        ensures
            r.wf(),
            r.i() == 8 * rank + file,
    {
        Square(8 * rank + file)
    }

    #[inline]
    pub fn index(self) -> (r: usize)
        ensures
            r == self.i(),
    {
        self.0 as usize
    }

    #[inline]
    pub fn file(self) -> (r: u8)
        ensures
            r == file(self.i()),
            r < 8,
    {
        self.0 % 8
    }

    #[inline]
    pub fn rank(self) -> (r: u8)
        ensures
            r == rank(self.i()),
            self.wf() ==> r < 8,
    {
        self.0 / 8
    }

    /// The square seen from the other side of the board: a1 becomes a8.
    pub fn flip_rank(self) -> (r: Square)
        requires
            self.wf(),
        ensures
            r.wf(),
            r.i() == flip(self.i()),
    {
        Square(8 * (7 - self.0 / 8) + self.0 % 8)
    }

    /// The neighbour in a direction, unless it is off the board.
    pub fn offset(self, d: Direction) -> (r: Option<Square>)
        requires
            self.wf(),
        ensures
            match r {
                Some(s) => s.wf() && file(s.i()) == file(self.i()) + d.df() && rank(s.i()) == rank(
                    self.i(),
                ) + d.dr(),
                None => !on_board(file(self.i()) + d.df(), rank(self.i()) + d.dr()),
            },
    {
        let (df, dr) = d.delta();
        let f: i8 = self.file() as i8 + df;
        let r: i8 = self.rank() as i8 + dr;
        if 0 <= f && f < 8 && 0 <= r && r < 8 {
            let s = Square::make(f as u8, r as u8);
            Some(s)
        } else {
            None
        }
    }
}

/// The file of a square number, `0` for the a-file.
pub open spec fn file(s: int) -> int {
    s % 8
}

/// The rank of a square number, `0` for the first rank.
pub open spec fn rank(s: int) -> int {
    s / 8
}

/// The file and rank are those of a square.
pub open spec fn on_board(f: int, r: int) -> bool {
    0 <= f < 8 && 0 <= r < 8
}

/// The rank counted from the player's own back rank.
pub open spec fn rel_rank(c: Color, s: int) -> int {
    match c {
        Color::White => rank(s),
        Color::Black => 7 - rank(s),
    }
}

/// One of the eight steps of a king.
#[derive(Clone, Copy, PartialEq, Eq, Structural, Debug, Hash)]
pub enum Direction {
    North,
    South,
    East,
    West,
    NorthEast,
    NorthWest,
    SouthEast,
    SouthWest,
}

impl Direction {
    /// Change of file.
    pub open spec fn df(self) -> int {
        match self {
            Direction::North | Direction::South => 0,
            Direction::East | Direction::NorthEast | Direction::SouthEast => 1,
            Direction::West | Direction::NorthWest | Direction::SouthWest => -1,
        }
    }

    /// Change of rank.
    pub open spec fn dr(self) -> int {
        match self {
            Direction::East | Direction::West => 0,
            Direction::North | Direction::NorthEast | Direction::NorthWest => 1,
            Direction::South | Direction::SouthEast | Direction::SouthWest => -1,
        }
    }

    /// Change of file and of rank.
    pub fn delta(self) -> (r: (i8, i8))
        ensures
            r.0 == self.df(),
            r.1 == self.dr(),
    {
        match self {
            Direction::North => (0, 1),
            Direction::South => (0, -1),
            Direction::East => (1, 0),
            Direction::West => (-1, 0),
            Direction::NorthEast => (1, 1),
            Direction::NorthWest => (-1, 1),
            Direction::SouthEast => (1, -1),
            Direction::SouthWest => (-1, -1),
        }
    }
}

/// What sets a move apart from an ordinary one.
#[derive(Clone, Copy, PartialEq, Eq, Structural, Debug, Hash)]
pub enum MoveType {
    Normal,
    Promotion,
    EnPassant,
    Castling,
}

/// A move.  A castling move is written as the king taking its own rook.
#[derive(Clone, Copy, PartialEq, Eq, Structural, Debug, Hash)]
pub struct Move {
    pub from: Square,
    pub to: Square,
    pub kind: MoveType,
    pub promo: PieceType,
}

impl Move {
    /// The absence of a move.
    pub open spec fn null() -> Move {
        Move {
            from: Square(0),
            to: Square(0),
            kind: MoveType::Normal,
            promo: PieceType::Knight,
        }
    }

    /// The absence of a move.
    #[inline]
    pub fn none() -> (r: Move)
        ensures
            r == Move::null(),
    {
        Move {
            from: Square(0),
            to: Square(0),
            kind: MoveType::Normal,
            promo: PieceType::Knight,
        }
    }

    /// Both squares are squares of the board.
    pub open spec fn wf(self) -> bool {
        self.from.wf() && self.to.wf()
    }

    pub fn normal(from: Square, to: Square) -> (r: Move)
        ensures
            r.from == from,
            r.to == to,
            r.kind == MoveType::Normal,
            r.promo == PieceType::Knight,
    {
        Move { from, to, kind: MoveType::Normal, promo: PieceType::Knight }
    }

    pub fn promotion(from: Square, to: Square, promo: PieceType) -> (r: Move)
        ensures
            r.from == from,
            r.to == to,
            r.kind == MoveType::Promotion,
            r.promo == promo,
    {
        Move { from, to, kind: MoveType::Promotion, promo }
    }

    pub fn en_passant(from: Square, to: Square) -> (r: Move)
        ensures
            r.from == from,
            r.to == to,
            r.kind == MoveType::EnPassant,
            r.promo == PieceType::Knight,
    {
        Move { from, to, kind: MoveType::EnPassant, promo: PieceType::Knight }
    }

    /// Castling with the king on `king` and the rook on `rook`.
    pub fn castling(king: Square, rook: Square) -> (r: Move)
        ensures
            r.from == king,
            r.to == rook,
            r.kind == MoveType::Castling,
            r.promo == PieceType::Knight,
    {
        Move { from: king, to: rook, kind: MoveType::Castling, promo: PieceType::Knight }
    }

    #[inline]
    pub fn from_sq(self) -> (r: Square)
        ensures
            r == self.from,
    {
        self.from
    }

    #[inline]
    pub fn to_sq(self) -> (r: Square)
        ensures
            r == self.to,
    {
        self.to
    }

    #[inline]
    pub fn move_type(self) -> (r: MoveType)
        ensures
            r == self.kind,
    {
        self.kind
    }

    #[inline]
    pub fn promotion_type(self) -> (r: PieceType)
        ensures
            r == self.promo,
    {
        self.promo
    }

    #[inline]
    pub fn is_none(self) -> (r: bool)
        ensures
            r == (self == Move::null()),
    {
        self == Move::none()
    }

    /// The square on which the moving piece ends up: for castling, the g-file or
    /// the c-file of the king's rank.
    pub open spec fn lands(self) -> int {
        if self.kind == MoveType::Castling {
            if file(self.to.i()) > file(self.from.i()) {
                8 * rank(self.from.i()) + 6
            } else {
                8 * rank(self.from.i()) + 2
            }
        } else {
            self.to.i()
        }
    }

    /// The move in long algebraic notation, as UCI writes it.
    pub open spec fn uci(self) -> Seq<char> {
        let squares = square_name(self.from.i()) + square_name(self.lands());
        if self.kind == MoveType::Promotion {
            squares.push(self.promo.letter_spec())
        } else {
            squares
        }
    }

    /// The move in long algebraic notation, as UCI writes it.
    pub fn to_string(self) -> (r: String)
        requires
            self.wf(),
        ensures
            r@ == self.uci(),
    {
        let mut s = String::new();
        push_square(&mut s, self.from);
        let land = if self.kind == MoveType::Castling {
            if self.to.file() > self.from.file() {
                Square::make(6, self.from.rank())
            } else {
                Square::make(2, self.from.rank())
            }
        } else {
            self.to
        };
        push_square(&mut s, land);
        if self.kind == MoveType::Promotion {
            s.push(self.promo.letter());
        }
        assert(s@ =~= self.uci());
        s
    }
}

/// The letter of a file.
pub open spec fn file_letter(f: int) -> char {
    (97 + f) as char
}

/// The digit of a rank.
pub open spec fn rank_digit(r: int) -> char {
    (49 + r) as char
}

/// The name of a square, such as `e4`.
pub open spec fn square_name(s: int) -> Seq<char> {
    seq![file_letter(file(s)), rank_digit(rank(s))]
}

/// Different squares have different names.
pub proof fn lemma_square_name(s: int, t: int)
    requires
        0 <= s < 64,
        0 <= t < 64,
        square_name(s)[0] == square_name(t)[0],
        square_name(s)[1] == square_name(t)[1],
    ensures
        s == t,
{
}

/// Append the name of a square.
pub fn push_square(out: &mut String, s: Square)
    requires
        s.wf(),
    ensures
        final(out)@ == old(out)@ + square_name(s.i()),
{
    out.push((97 + s.file()) as char);
    out.push((49 + s.rank()) as char);
    assert(out@ =~= old(out)@ + square_name(s.i()));
}

/// A move is written as the squares that its piece leaves and reaches, and the letter of the
/// new piece for a promotion; castling is written as the king's two steps.
pub proof fn law_move_names(m: Move)
    requires
        m.wf(),
    ensures
        ({
            let f = m.from.i();
            let t = if m.kind != MoveType::Castling {
                m.to.i()
            } else if m.to.i() % 8 > f % 8 {
                8 * (f / 8) + 6
            } else {
                8 * (f / 8) + 2
            };
            &&& m.uci().len() == (if m.kind == MoveType::Promotion {
                5int
            } else {
                4
            })
            &&& m.uci()[0] == (97 + f % 8) as char
            &&& m.uci()[1] == (49 + f / 8) as char
            &&& m.uci()[2] == (97 + t % 8) as char
            &&& m.uci()[3] == (49 + t / 8) as char
            &&& m.kind == MoveType::Promotion && m.promo == PieceType::Queen ==> m.uci()[4] == 'q'
            &&& m.kind == MoveType::Promotion && m.promo == PieceType::Rook ==> m.uci()[4] == 'r'
            &&& m.kind == MoveType::Promotion && m.promo == PieceType::Bishop ==> m.uci()[4] == 'b'
            &&& m.kind == MoveType::Promotion && m.promo == PieceType::Knight ==> m.uci()[4] == 'n'
        }),
{
}

} // verus!
