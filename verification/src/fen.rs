//! Forsyth-Edwards notation: positions as text.

use vstd::prelude::*;

use crate::bits;
use crate::position::Position;
use crate::rules;
use crate::rules::{PosView, Rights, board_hash, hash, one_king};
use crate::text;
use crate::text::{dec, digit, is_field, is_plain, parse_dec, words};
use crate::types::{
    Color, Piece, PieceType, Square, lemma_piece_chars_distinct, push_square, square_name,
};
use crate::zobrist;
use crate::zobrist::castle_key;

verus! {

/// What is wrong with a text that is not a position.
#[derive(Clone, Copy, PartialEq, Eq, Structural, Debug)]
pub enum FenError {
    /// Fewer than two or more than six fields.
    Fields,
    Placement,
    Side,
    Castling,
    EnPassant,
    Clock,
    /// A player does not have exactly one king.
    Kings,
}

// ---------------------------------------------------------------------------
// Reading.
// ---------------------------------------------------------------------------

/// The piece that a letter stands for.
pub open spec fn piece_of(c: char) -> Option<Piece> {
    if exists|p: Piece| #[trigger] p.char_spec() == c {
        Some(choose|p: Piece| #[trigger] p.char_spec() == c)
    } else {
        None
    }
}

/// The square in a row counted from the top and a column counted from the left.
pub open spec fn at(row: int, col: int) -> int {
    8 * (7 - row) + col
}

/// The board that results from writing a placement onto the board `b`, starting
/// in the given row and column.
pub open spec fn place(s: Seq<char>, row: int, col: int, b: Seq<Option<Piece>>) -> Option<
    Seq<Option<Piece>>,
>
    decreases s.len(),
{
    if s.len() == 0 {
        if row == 7 && col == 8 {
            Some(b)
        } else {
            None
        }
    } else if s[0] == '/' {
        if row < 7 && col == 8 {
            place(s.skip(1), row + 1, 0, b)
        } else {
            None
        }
    } else if '1' <= s[0] <= '8' {
        if col + (s[0] as int - 48) <= 8 {
            place(s.skip(1), row, col + (s[0] as int - 48), b)
        } else {
            None
        }
    } else if piece_of(s[0]) is Some && col < 8 {
        place(s.skip(1), row, col + 1, b.update(at(row, col), piece_of(s[0])))
    } else {
        None
    }
}

pub open spec fn empty_board() -> Seq<Option<Piece>> {
    Seq::new(64, |i: int| None)
}

pub open spec fn placement(s: Seq<char>) -> Option<Seq<Option<Piece>>> {
    place(s, 0, 0, empty_board())
}

pub open spec fn side_of(s: Seq<char>) -> Option<Color> {
    if s == seq!['w'] {
        Some(Color::White)
    } else if s == seq!['b'] {
        Some(Color::Black)
    } else {
        None
    }
}

pub open spec fn no_rights() -> Rights {
    Rights { white_king: false, white_queen: false, black_king: false, black_queen: false }
}

pub open spec fn is_right(c: char) -> bool {
    c == 'K' || c == 'Q' || c == 'k' || c == 'q'
}

pub open spec fn rights_of(s: Seq<char>) -> Option<Rights> {
    if s == seq!['-'] {
        Some(no_rights())
    } else if s.len() > 0 && forall|i: int| 0 <= i < s.len() ==> is_right(#[trigger] s[i]) {
        Some(
            Rights {
                white_king: s.contains('K'),
                white_queen: s.contains('Q'),
                black_king: s.contains('k'),
                black_queen: s.contains('q'),
            },
        )
    } else {
        None
    }
}

pub open spec fn ep_of(s: Seq<char>) -> Option<Option<Square>> {
    if s == seq!['-'] {
        Some(None)
    } else if s.len() == 2 && 'a' <= s[0] <= 'h' && '1' <= s[1] <= '8' {
        Some(Some(Square((8 * (s[1] as int - 49) + (s[0] as int - 97)) as u8)))
    } else {
        None
    }
}

/// Field number `i`, or what stands for it if it is missing.
pub open spec fn field(w: Seq<Seq<char>>, i: int, missing: char) -> Seq<char> {
    if i < w.len() {
        w[i]
    } else {
        seq![missing]
    }
}

/// The position that a text describes, or the first thing that is wrong with it.
pub open spec fn fen_view(s: Seq<char>) -> Result<PosView, FenError> {
    fen_fields(words(s))
}

/// The position that the fields of a record describe, or the first thing that is
/// wrong with them.  Castling rights, en-passant square and clocks may be left
/// out.
pub open spec fn fen_fields(w: Seq<Seq<char>>) -> Result<PosView, FenError> {
    if w.len() < 2 || w.len() > 6 {
        Err(FenError::Fields)
    } else if placement(w[0]) is None {
        Err(FenError::Placement)
    } else if side_of(w[1]) is None {
        Err(FenError::Side)
    } else if rights_of(field(w, 2, '-')) is None {
        Err(FenError::Castling)
    } else if ep_of(field(w, 3, '-')) is None {
        Err(FenError::EnPassant)
    } else if parse_dec(field(w, 4, '0'), u32::MAX as int) is None || parse_dec(
        field(w, 5, '1'),
        u32::MAX as int,
    ) is None {
        Err(FenError::Clock)
    } else if !one_king(placement(w[0])->0, Color::White) || !one_king(
        placement(w[0])->0,
        Color::Black,
    ) {
        Err(FenError::Kings)
    } else {
        Ok(
            PosView {
                board: placement(w[0])->0,
                side: side_of(w[1])->0,
                rights: rights_of(field(w, 2, '-'))->0,
                ep: ep_of(field(w, 3, '-'))->0,
                half: parse_dec(field(w, 4, '0'), u32::MAX as int)->0 as u32,
                full: parse_dec(field(w, 5, '1'), u32::MAX as int)->0 as u32,
            },
        )
    }
}

fn read_placement(s: &Vec<char>) -> (r: Option<[Option<Piece>; 64]>)
    ensures
        match r {
            Some(b) => placement(s@) == Some(b@),
            None => placement(s@) is None,
        },
{
    let mut b: [Option<Piece>; 64] = [None; 64];
    assert(b@ =~= empty_board());
    let mut row: usize = 0;
    let mut col: usize = 0;
    let mut i: usize = 0;
    assert(s@.skip(0) =~= s@);
    while i < s.len()
        invariant
            i <= s@.len(),
            row <= 7,
            col <= 8,
            place(s@.skip(i as int), row as int, col as int, b@) == placement(s@),
        decreases s@.len() - i,
    {
        let c: char = s[i];
        proof {
            assert(s@.skip(i as int)[0] == c);
            assert(s@.skip(i as int).skip(1) =~= s@.skip(i as int + 1));
        }
        if c == '/' {
            if row < 7 && col == 8 {
                row = row + 1;
                col = 0;
            } else {
                return None;
            }
        } else if '1' <= c && c <= '8' {
            let d: usize = (c as u32 - 48) as usize;
            if col + d <= 8 {
                col = col + d;
            } else {
                return None;
            }
        } else {
            match Piece::from_char(c) {
                Some(p) => {
                    proof {
                        assert(p.char_spec() == c);
                        lemma_piece_chars_distinct(p, piece_of(c)->0);
                    }
                    if col < 8 {
                        let k: usize = 8 * (7 - row) + col;
                        b[k] = Some(p);
                        col = col + 1;
                    } else {
                        return None;
                    }
                },
                None => {
                    return None;
                },
            }
        }
        i = i + 1;
    }
    if row == 7 && col == 8 {
        Some(b)
    } else {
        None
    }
}

fn read_side(s: &Vec<char>) -> (r: Option<Color>)
    ensures
        r == side_of(s@),
{
    if s.len() == 1 && s[0] == 'w' {
        assert(s@ =~= seq!['w']);
        Some(Color::White)
    } else if s.len() == 1 && s[0] == 'b' {
        assert(s@ =~= seq!['b']);
        assert(s@ != seq!['w']) by {
            assert(s@[0] != seq!['w'][0]);
        }
        Some(Color::Black)
    } else {
        proof {
            if s@ == seq!['w'] {
                assert(s@[0] == 'w');
            }
            if s@ == seq!['b'] {
                assert(s@[0] == 'b');
            }
        }
        None
    }
}

fn read_rights(s: &Vec<char>) -> (r: Option<Rights>)
    ensures
        r == rights_of(s@),
{
    let mut r = Rights {
        white_king: false,
        white_queen: false,
        black_king: false,
        black_queen: false,
    };
    if s.len() == 1 && s[0] == '-' {
        assert(s@ =~= seq!['-']);
        return Some(r);
    }
    assert(s@ != seq!['-']) by {
        if s@ == seq!['-'] {
            assert(s@[0] == '-');
        }
    }
    if s.len() == 0 {
        return None;
    }
    let mut i: usize = 0;
    while i < s.len()
        invariant
            i <= s@.len(),
            s@ != seq!['-'],
            s@.len() > 0,
            forall|j: int| 0 <= j < i ==> is_right(#[trigger] s@[j]),
            r.white_king == s@.take(i as int).contains('K'),
            r.white_queen == s@.take(i as int).contains('Q'),
            r.black_king == s@.take(i as int).contains('k'),
            r.black_queen == s@.take(i as int).contains('q'),
        decreases s@.len() - i,
    {
        let c: char = s[i];
        proof {
            let a = s@.take(i as int);
            let b = s@.take(i as int + 1);
            assert(b =~= a.push(c));
            assert forall|x: char| #[trigger] b.contains(x) == (a.contains(x) || x == c) by {
                if a.contains(x) {
                    let k = choose|k: int| 0 <= k < a.len() && a[k] == x;
                    assert(b[k] == x);
                }
                if x == c {
                    assert(b[i as int] == x);
                }
            }
        }
        if c == 'K' {
            r.white_king = true;
        } else if c == 'Q' {
            r.white_queen = true;
        } else if c == 'k' {
            r.black_king = true;
        } else if c == 'q' {
            r.black_queen = true;
        } else {
            assert(!is_right(s@[i as int]));
            return None;
        }
        i = i + 1;
    }
    assert(s@.take(i as int) =~= s@);
    Some(r)
}

fn read_ep(s: &Vec<char>) -> (r: Option<Option<Square>>)
    ensures
        r == ep_of(s@),
        r is Some && r->0 is Some ==> r->0->0.wf(),
{
    if s.len() == 1 && s[0] == '-' {
        assert(s@ =~= seq!['-']);
        return Some(None);
    }
    assert(s@ != seq!['-']) by {
        if s@ == seq!['-'] {
            assert(s@[0] == '-');
        }
    }
    if s.len() == 2 && 'a' <= s[0] && s[0] <= 'h' && '1' <= s[1] && s[1] <= '8' {
        let f: u8 = (s[0] as u32 - 97) as u8;
        let k: u8 = (s[1] as u32 - 49) as u8;
        Some(Some(Square(8 * k + f)))
    } else {
        None
    }
}

/// The field of a record, or the given character if it is missing.
fn field_or(w: &Vec<Vec<char>>, i: usize, missing: char) -> (r: Vec<char>)
    ensures
        r@ == field(text::texts(w@), i as int, missing),
{
    if i < w.len() {
        text::slice(&w[i], 0, w[i].len())
    } else {
        let mut v: Vec<char> = Vec::new();
        v.push(missing);
        assert(v@ =~= seq![missing]);
        v
    }
}

/// How many kings of a player are among the first squares.
fn has_one_king(b: &[Option<Piece>; 64], c: Color) -> (r: bool)
    ensures
        r == one_king(b@, c),
{
    let king = Piece { color: c, piece_type: PieceType::King };
    let mut found: Option<usize> = None;
    let mut i: usize = 0;
    while i < 64
        invariant
            i <= 64,
            king == rules::piece(c, PieceType::King),
            match found {
                Some(k) => k < i && b@[k as int] == Some(king) && forall|j: int|
                    0 <= j < i && b@[j] == Some(king) ==> j == k,
                None => forall|j: int| 0 <= j < i ==> b@[j] != Some(king),
            },
        decreases 64 - i,
    {
        if b[i] == Some(king) {
            match found {
                Some(k) => {
                    proof {
                        assert(rules::holds(b@, k as int, c, PieceType::King));
                        assert(rules::holds(b@, i as int, c, PieceType::King));
                    }
                    return false;
                },
                None => {
                    found = Some(i);
                },
            }
        }
        i = i + 1;
    }
    match found {
        Some(k) => {
            assert(rules::holds(b@, k as int, c, PieceType::King));
            true
        },
        None => false,
    }
}

proof fn lemma_empty_hash(n: int)
    requires
        0 <= n <= 64,
    ensures
        board_hash(empty_board(), n) == 0,
    decreases n,
{
    if n > 0 {
        lemma_empty_hash(n - 1);
        zobrist::lemma_xor(0, 0, 0);
    }
}

/// The piece that starts on a file of the back rank.
pub open spec fn back_rank(f: int) -> PieceType {
    if f == 0 || f == 7 {
        PieceType::Rook
    } else if f == 1 || f == 6 {
        PieceType::Knight
    } else if f == 2 || f == 5 {
        PieceType::Bishop
    } else if f == 3 {
        PieceType::Queen
    } else {
        PieceType::King
    }
}

fn back_piece(f: usize) -> (r: PieceType)
    ensures
        r == back_rank(f as int),
{
    if f == 0 || f == 7 {
        PieceType::Rook
    } else if f == 1 || f == 6 {
        PieceType::Knight
    } else if f == 2 || f == 5 {
        PieceType::Bishop
    } else if f == 3 {
        PieceType::Queen
    } else {
        PieceType::King
    }
}

/// What stands on a square at the start of a game.
pub open spec fn start_square(i: int) -> Option<Piece> {
    if i / 8 == 0 {
        Some(rules::piece(Color::White, back_rank(i % 8)))
    } else if i / 8 == 1 {
        Some(rules::piece(Color::White, PieceType::Pawn))
    } else if i / 8 == 6 {
        Some(rules::piece(Color::Black, PieceType::Pawn))
    } else if i / 8 == 7 {
        Some(rules::piece(Color::Black, back_rank(i % 8)))
    } else {
        None
    }
}

/// The position at the start of a game.
pub open spec fn start_view() -> PosView {
    PosView {
        board: Seq::new(64, |i: int| start_square(i)),
        side: Color::White,
        rights: Rights {
            white_king: true,
            white_queen: true,
            black_king: true,
            black_queen: true,
        },
        ep: None,
        half: 0,
        full: 1,
    }
}

impl Position {
    /// The position with the given contents.
    fn assemble(
        board: &[Option<Piece>; 64],
        side: Color,
        rights: Rights,
        ep: Option<Square>,
        half: u32,
        full: u32,
    ) -> (r: Position)
        requires
            one_king(board@, Color::White),
            one_king(board@, Color::Black),
            ep is Some ==> ep->0.wf(),
        ensures
            r.wf(),
            r@ == (PosView { board: board@, side, rights, ep, half, full }),
    {
        let none = Rights {
            white_king: false,
            white_queen: false,
            black_king: false,
            black_queen: false,
        };
        let mut p = Position {
            board: [None; 64],
            by_piece: [0u64; 12],
            white: 0,
            black: 0,
            side: Color::White,
            rights: none,
            ep: None,
            half: 0,
            full: 1,
            hash: zobrist::nth_key(768),
        };
        proof {
            bits::lemma_empty();
            assert(p.board@ =~= empty_board());
            lemma_empty_hash(64);
            let c = castle_key(none.mask());
            zobrist::lemma_xor(c, 0, 0);
            assert(p.hash == hash(p@));
            assert(p.synced());
        }
        let mut i: usize = 0;
        while i < 64
            invariant
                i <= 64,
                p.synced(),
                p.ep is None,
                forall|j: int| 0 <= j < i ==> p.board@[j] == board@[j],
                forall|j: int| i <= j < 64 ==> p.board@[j] is None,
            decreases 64 - i,
        {
            match board[i] {
                Some(q) => {
                    p.put(i, q);
                },
                None => {},
            }
            i = i + 1;
        }
        assert(p.board@ =~= board@);
        p.set_state(side, rights, ep, half, full);
        p
    }

    /// The position at the start of a game.
    pub fn startpos() -> (r: Position)
        ensures
            r.wf(),
            r@ == start_view(),
    {
        let mut board: [Option<Piece>; 64] = [None; 64];
        let mut i: usize = 0;
        while i < 64
            invariant
                i <= 64,
                forall|j: int| 0 <= j < i ==> board@[j] == start_square(j),
            decreases 64 - i,
        {
            let row: usize = i / 8;
            if row == 0 {
                board[i] = Some(Piece { color: Color::White, piece_type: back_piece(i % 8) });
            } else if row == 1 {
                board[i] = Some(Piece { color: Color::White, piece_type: PieceType::Pawn });
            } else if row == 6 {
                board[i] = Some(Piece { color: Color::Black, piece_type: PieceType::Pawn });
            } else if row == 7 {
                board[i] = Some(Piece { color: Color::Black, piece_type: back_piece(i % 8) });
            } else {
                board[i] = None;
            }
            i = i + 1;
        }
        let all = Rights {
            white_king: true,
            white_queen: true,
            black_king: true,
            black_queen: true,
        };
        proof {
            assert(board@[4] == start_square(4));
            assert(board@[60] == start_square(60));
            assert(rules::holds(board@, 4, Color::White, PieceType::King));
            assert(rules::holds(board@, 60, Color::Black, PieceType::King));
            assert forall|j: int| #[trigger]
                rules::holds(board@, j, Color::White, PieceType::King) implies j == 4 by {
                assert(board@[j] == start_square(j));
            }
            assert forall|j: int| #[trigger]
                rules::holds(board@, j, Color::Black, PieceType::King) implies j == 60 by {
                assert(board@[j] == start_square(j));
            }
        }
        let p = Position::assemble(&board, Color::White, all, None, 0, 1);
        assert(p@ =~= start_view());
        p
    }

    /// Read a position from its FEN.
    pub fn from_fen(fen: &str) -> (r: Result<Position, FenError>)
        ensures
            match r {
                Ok(p) => p.wf() && fen_view(fen@) == Ok::<PosView, FenError>(p@),
                Err(e) => fen_view(fen@) == Err::<PosView, FenError>(e),
            },
    {
        let cs = text::chars_of(fen);
        let w = text::split_words(&cs);
        Position::from_fields(&w)
    }

    /// Read a position from the fields of its FEN.
    pub fn from_fields(w: &Vec<Vec<char>>) -> (r: Result<Position, FenError>)
        ensures
            match r {
                Ok(p) => p.wf() && fen_fields(text::texts(w@)) == Ok::<PosView, FenError>(p@),
                Err(e) => fen_fields(text::texts(w@)) == Err::<PosView, FenError>(e),
            },
    {
        proof {
            assert(text::texts(w@).len() == w@.len());
        }
        if w.len() < 2 || w.len() > 6 {
            return Err(FenError::Fields);
        }
        let board = match read_placement(&w[0]) {
            Some(b) => b,
            None => {
                return Err(FenError::Placement);
            },
        };
        let side = match read_side(&w[1]) {
            Some(c) => c,
            None => {
                return Err(FenError::Side);
            },
        };
        let rights = match read_rights(&field_or(w, 2, '-')) {
            Some(x) => x,
            None => {
                return Err(FenError::Castling);
            },
        };
        let ep = match read_ep(&field_or(w, 3, '-')) {
            Some(x) => x,
            None => {
                return Err(FenError::EnPassant);
            },
        };
        let half: u32 = match text::parse_number(&field_or(w, 4, '0'), u32::MAX as u64) {
            Some(x) => x as u32,
            None => {
                return Err(FenError::Clock);
            },
        };
        let full: u32 = match text::parse_number(&field_or(w, 5, '1'), u32::MAX as u64) {
            Some(x) => x as u32,
            None => {
                return Err(FenError::Clock);
            },
        };
        if !has_one_king(&board, Color::White) || !has_one_king(&board, Color::Black) {
            return Err(FenError::Kings);
        }
        Ok(Position::assemble(&board, side, rights, ep, half, full))
    }
}

// ---------------------------------------------------------------------------
// Writing.
// ---------------------------------------------------------------------------

/// Where the run of empty squares that starts at a column ends.
pub open spec fn run_end(b: Seq<Option<Piece>>, row: int, col: int) -> int
    decreases 8 - col,
{
    if col >= 8 || b[at(row, col)] is Some {
        col
    } else {
        run_end(b, row, col + 1)
    }
}

pub proof fn lemma_run_end(b: Seq<Option<Piece>>, row: int, col: int)
    requires
        0 <= col <= 8,
    ensures
        col <= run_end(b, row, col) <= 8,
        col < 8 && b[at(row, col)] is None ==> col < run_end(b, row, col),
        forall|c: int| col <= c < run_end(b, row, col) ==> b[#[trigger] at(row, c)] is None,
    decreases 8 - col,
{
    if col < 8 && b[at(row, col)] is None {
        lemma_run_end(b, row, col + 1);
    }
}

/// One rank from a column on: letters for pieces, digits for runs of empty
/// squares.
pub open spec fn rank_text(b: Seq<Option<Piece>>, row: int, col: int) -> Seq<char>
    decreases 8 - col,
    when 0 <= col
    via rank_text_decreases
{
    if col >= 8 {
        seq![]
    } else {
        match b[at(row, col)] {
            Some(p) => seq![p.char_spec()] + rank_text(b, row, col + 1),
            None => seq![digit(run_end(b, row, col) - col)] + rank_text(
                b,
                row,
                run_end(b, row, col),
            ),
        }
    }
}

#[via_fn]
proof fn rank_text_decreases(b: Seq<Option<Piece>>, row: int, col: int) {
    if 0 <= col < 8 {
        lemma_run_end(b, row, col);
    }
}

/// The ranks from a row on, separated by slashes.
pub open spec fn rows_text(b: Seq<Option<Piece>>, row: int) -> Seq<char>
    decreases 7 - row,
{
    if row >= 7 {
        rank_text(b, row, 0)
    } else {
        rank_text(b, row, 0) + seq!['/'] + rows_text(b, row + 1)
    }
}

pub open spec fn side_text(c: Color) -> Seq<char> {
    match c {
        Color::White => seq!['w'],
        Color::Black => seq!['b'],
    }
}

pub open spec fn letter_if(b: bool, c: char) -> Seq<char> {
    if b {
        seq![c]
    } else {
        seq![]
    }
}

pub open spec fn rights_text(r: Rights) -> Seq<char> {
    if r == no_rights() {
        seq!['-']
    } else {
        letter_if(r.white_king, 'K') + letter_if(r.white_queen, 'Q') + letter_if(r.black_king, 'k')
            + letter_if(r.black_queen, 'q')
    }
}

pub open spec fn ep_text(ep: Option<Square>) -> Seq<char> {
    match ep {
        Some(s) => square_name(s.i()),
        None => seq!['-'],
    }
}

/// The FEN of a position.
pub open spec fn fen_text(v: PosView) -> Seq<char> {
    rows_text(v.board, 0) + seq![' '] + (side_text(v.side) + seq![' '] + (rights_text(v.rights)
        + seq![' '] + (ep_text(v.ep) + seq![' '] + (dec(v.half as nat) + seq![' '] + dec(
        v.full as nat,
    )))))
}

/// Append the placement of the pieces.
fn push_board(out: &mut String, b: &[Option<Piece>; 64])
    ensures
        final(out)@ == old(out)@ + rows_text(b@, 0),
{
    let ghost goal = old(out)@ + rows_text(b@, 0);
    let mut row: usize = 0;
    while row < 8
        invariant
            row <= 8,
            row < 8 ==> out@ + rows_text(b@, row as int) == goal,
            row == 8 ==> out@ == goal,
        decreases 8 - row,
    {
        let ghost tail = if row < 7 {
            seq!['/'] + rows_text(b@, row as int + 1)
        } else {
            seq![]
        };
        assert(rank_text(b@, row as int, 0) + tail =~= rows_text(b@, row as int));
        let mut col: usize = 0;
        assert(out@ + (rank_text(b@, row as int, 0) + tail) == goal);
        while col < 8
            invariant
                row < 8,
                col <= 8,
                out@ + (rank_text(b@, row as int, col as int) + tail) == goal,
            decreases 8 - col,
        {
            let ghost before = out@;
            match b[8 * (7 - row) + col] {
                Some(p) => {
                    out.push(p.to_char());
                    proof {
                        assert(out@ + (rank_text(b@, row as int, col as int + 1) + tail) =~= before
                            + (rank_text(b@, row as int, col as int) + tail));
                    }
                    col = col + 1;
                },
                None => {
                    let mut e: usize = col;
                    while e < 8 && b[8 * (7 - row) + e].is_none()
                        invariant
                            row < 8,
                            col <= e <= 8,
                            run_end(b@, row as int, e as int) == run_end(
                                b@,
                                row as int,
                                col as int,
                            ),
                        decreases 8 - e,
                    {
                        e = e + 1;
                    }
                    proof {
                        lemma_run_end(b@, row as int, col as int);
                        assert(e == run_end(b@, row as int, col as int));
                    }
                    let d: u8 = (e - col) as u8;
                    out.push((48 + d) as char);
                    proof {
                        assert(out@ + (rank_text(b@, row as int, e as int) + tail) =~= before + (
                        rank_text(b@, row as int, col as int) + tail));
                    }
                    col = e;
                },
            }
        }
        assert(out@ + tail =~= goal);
        if row < 7 {
            let ghost before = out@;
            out.push('/');
            assert(out@ + rows_text(b@, row as int + 1) =~= before + tail);
        } else {
            assert(out@ =~= goal);
        }
        row = row + 1;
    }
}

fn push_rights(out: &mut String, r: Rights)
    ensures
        final(out)@ == old(out)@ + rights_text(r),
{
    if !r.white_king && !r.white_queen && !r.black_king && !r.black_queen {
        out.push('-');
    } else {
        if r.white_king {
            out.push('K');
        }
        if r.white_queen {
            out.push('Q');
        }
        if r.black_king {
            out.push('k');
        }
        if r.black_queen {
            out.push('q');
        }
    }
    assert(out@ =~= old(out)@ + rights_text(r));
}

impl Position {
    /// The FEN of the position.
    #[verifier::rlimit(30)]
    pub fn to_fen(&self) -> (r: String)
        requires
            self.wf(),
        ensures
            r@ == fen_text(self@),
    {
        let ghost v = self@;
        let ghost sp = seq![' '];
        let ghost t4 = dec(v.half as nat) + sp + dec(v.full as nat);
        let ghost t3 = ep_text(v.ep) + sp + t4;
        let ghost t2 = rights_text(v.rights) + sp + t3;
        let ghost t1 = side_text(v.side) + sp + t2;
        let ghost goal = fen_text(v);
        let mut out = String::new();
        push_board(&mut out, &self.board);
        assert(out@ =~= rows_text(v.board, 0));
        out.push(' ');
        assert(out@ + t1 =~= goal);
        let ghost so_far = out@;
        match self.side {
            Color::White => {
                out.push('w');
            },
            Color::Black => {
                out.push('b');
            },
        }
        out.push(' ');
        assert(out@ + t2 =~= so_far + t1);
        let ghost so_far = out@;
        push_rights(&mut out, self.rights);
        out.push(' ');
        assert(out@ + t3 =~= so_far + t2);
        let ghost so_far = out@;
        match self.ep {
            Some(s) => {
                push_square(&mut out, s);
            },
            None => {
                out.push('-');
            },
        }
        assert(out@ =~= so_far + ep_text(v.ep));
        out.push(' ');
        assert(out@ + t4 =~= so_far + t3);
        let ghost so_far = out@;
        text::push_u64(&mut out, self.half as u64);
        out.push(' ');
        text::push_u64(&mut out, self.full as u64);
        assert(out@ =~= so_far + t4);
        out
    }
}

// ---------------------------------------------------------------------------
// Reading what was written.
// ---------------------------------------------------------------------------

/// The squares of `b` that come before a row and column in reading order.
spec fn part(b: Seq<Option<Piece>>, row: int, col: int) -> Seq<Option<Piece>> {
    Seq::new(
        64,
        |i: int|
            if 7 - i / 8 < row || (7 - i / 8 == row && i % 8 < col) {
                b[i]
            } else {
                None
            },
    )
}

proof fn lemma_rank_round_trip(b: Seq<Option<Piece>>, row: int, col: int, rest: Seq<char>)
    requires
        b.len() == 64,
        0 <= row < 8,
        0 <= col <= 8,
    ensures
        place(rank_text(b, row, col) + rest, row, col, part(b, row, col)) == place(
            rest,
            row,
            8,
            part(b, row, 8),
        ),
    decreases 8 - col,
{
    let s = rank_text(b, row, col) + rest;
    if col == 8 {
        assert(s =~= rest);
    } else {
        match b[at(row, col)] {
            Some(p) => {
                lemma_rank_round_trip(b, row, col + 1, rest);
                assert(s[0] == p.char_spec());
                assert(s.skip(1) =~= rank_text(b, row, col + 1) + rest);
                lemma_piece_chars_distinct(p, piece_of(p.char_spec())->0);
                assert(piece_of(s[0]) == Some(p));
                assert(part(b, row, col).update(at(row, col), Some(p)) =~= part(b, row, col + 1));
            },
            None => {
                let e = run_end(b, row, col);
                lemma_run_end(b, row, col);
                lemma_rank_round_trip(b, row, e, rest);
                assert(s[0] == digit(e - col));
                assert(s.skip(1) =~= rank_text(b, row, e) + rest);
                assert(part(b, row, col) =~= part(b, row, e)) by {
                    assert forall|i: int| 0 <= i < 64 implies part(b, row, col)[i] == part(
                        b,
                        row,
                        e,
                    )[i] by {
                        if 7 - i / 8 == row && col <= i % 8 < e {
                            assert(at(row, i % 8) == i);
                        }
                    }
                }
            },
        }
    }
}

proof fn lemma_rows_round_trip(b: Seq<Option<Piece>>, row: int)
    requires
        b.len() == 64,
        0 <= row <= 7,
    ensures
        place(rows_text(b, row), row, 0, part(b, row, 0)) == Some(b),
    decreases 7 - row,
{
    if row == 7 {
        lemma_rank_round_trip(b, 7, 0, seq![]);
        assert(rank_text(b, 7, 0) + Seq::<char>::empty() =~= rows_text(b, 7));
        assert(part(b, 7, 8) =~= b);
    } else {
        let rest = seq!['/'] + rows_text(b, row + 1);
        lemma_rank_round_trip(b, row, 0, rest);
        lemma_rows_round_trip(b, row + 1);
        assert(rank_text(b, row, 0) + rest =~= rows_text(b, row));
        assert(rest.skip(1) =~= rows_text(b, row + 1));
        assert(part(b, row, 8) =~= part(b, row + 1, 0));
    }
}

proof fn lemma_rank_word(b: Seq<Option<Piece>>, row: int, col: int)
    requires
        0 <= col <= 8,
    ensures
        forall|i: int|
            0 <= i < rank_text(b, row, col).len() ==> is_plain(#[trigger] rank_text(b, row, col)[i]),
        col < 8 ==> rank_text(b, row, col).len() > 0,
    decreases 8 - col,
{
    if col < 8 {
        match b[at(row, col)] {
            Some(p) => {
                let tail = rank_text(b, row, col + 1);
                lemma_rank_word(b, row, col + 1);
                assert(rank_text(b, row, col) == seq![p.char_spec()] + tail);
                assert forall|i: int| 0 <= i < rank_text(b, row, col).len() implies is_plain(
                    #[trigger] rank_text(b, row, col)[i],
                ) by {
                    if i > 0 {
                        assert(is_plain(tail[i - 1]));
                    }
                }
            },
            None => {
                lemma_run_end(b, row, col);
                let e = run_end(b, row, col);
                let tail = rank_text(b, row, e);
                lemma_rank_word(b, row, e);
                assert(rank_text(b, row, col) == seq![digit(e - col)] + tail);
                assert forall|i: int| 0 <= i < rank_text(b, row, col).len() implies is_plain(
                    #[trigger] rank_text(b, row, col)[i],
                ) by {
                    if i > 0 {
                        assert(is_plain(tail[i - 1]));
                    }
                }
            },
        }
    }
}

proof fn lemma_rows_word(b: Seq<Option<Piece>>, row: int)
    requires
        0 <= row <= 7,
    ensures
        is_field(rows_text(b, row)),
    decreases 7 - row,
{
    lemma_rank_word(b, row, 0);
    if row < 7 {
        lemma_rows_word(b, row + 1);
        let t = rows_text(b, row);
        let r = rank_text(b, row, 0);
        let tail = rows_text(b, row + 1);
        assert(t == r + seq!['/'] + tail);
        assert forall|i: int| 0 <= i < t.len() implies is_plain(#[trigger] t[i]) by {
            if i < r.len() {
                assert(t[i] == r[i]);
            } else if i > r.len() {
                assert(t[i] == tail[i - r.len() - 1]);
            }
        }
    }
}

#[verifier::rlimit(30)]
proof fn lemma_rights_round_trip(r: Rights)
    ensures
        rights_of(rights_text(r)) == Some(r),
        is_field(rights_text(r)),
{
    let t = rights_text(r);
    if r != no_rights() {
        let a = letter_if(r.white_king, 'K');
        let b = letter_if(r.white_queen, 'Q');
        let c = letter_if(r.black_king, 'k');
        let d = letter_if(r.black_queen, 'q');
        assert(t == a + b + c + d);
        assert(forall|i: int| 0 <= i < t.len() ==> is_right(#[trigger] t[i]));
        assert forall|i: int| 0 <= i < t.len() implies is_plain(#[trigger] t[i]) by {
            assert(is_right(t[i]));
        }
        assert(t != seq!['-']) by {
            if t == seq!['-'] {
                assert(is_right(t[0]));
            }
        }
        if r.white_king {
            assert(t[0] == 'K');
        }
        if r.white_queen {
            assert(t[a.len() as int] == 'Q');
        }
        if r.black_king {
            assert(t[(a.len() + b.len()) as int] == 'k');
        }
        if r.black_queen {
            assert(t[(a.len() + b.len() + c.len()) as int] == 'q');
        }
    }
}

/// Reading the FEN of a position gives the position back.
#[verifier::rlimit(30)]
pub proof fn law_fen_round_trip(v: PosView)
    requires
        v.wf(),
    ensures
        fen_view(fen_text(v)) == Ok::<PosView, FenError>(v),
{
    let w0 = rows_text(v.board, 0);
    let w1 = side_text(v.side);
    let w2 = rights_text(v.rights);
    let w3 = ep_text(v.ep);
    let w4 = dec(v.half as nat);
    let w5 = dec(v.full as nat);
    lemma_rows_word(v.board, 0);
    lemma_rows_round_trip(v.board, 0);
    assert(part(v.board, 0, 0) =~= empty_board());
    lemma_rights_round_trip(v.rights);
    text::lemma_dec_digits(v.half as nat);
    text::lemma_dec_digits(v.full as nat);
    text::law_decimal_round_trip(v.half as nat, u32::MAX as int);
    text::law_decimal_round_trip(v.full as nat, u32::MAX as int);
    assert(is_field(w1));
    assert(is_field(w3));
    text::lemma_field_is_word(w0);
    text::lemma_field_is_word(w1);
    text::lemma_field_is_word(w2);
    text::lemma_field_is_word(w3);
    text::lemma_field_is_word(w4);
    text::lemma_field_is_word(w5);
    let t4 = w4 + seq![' '] + w5;
    let t3 = w3 + seq![' '] + t4;
    let t2 = w2 + seq![' '] + t3;
    let t1 = w1 + seq![' '] + t2;
    text::lemma_words_one(w5);
    text::lemma_words_cons(w4, w5);
    text::lemma_words_cons(w3, t4);
    text::lemma_words_cons(w2, t3);
    text::lemma_words_cons(w1, t2);
    text::lemma_words_cons(w0, t1);
    let w = words(fen_text(v));
    assert(w =~= seq![w0, w1, w2, w3, w4, w5]);
    assert(side_of(w1) == Some(v.side)) by {
        assert(seq!['w'][0] == 'w' && seq!['b'][0] == 'b');
    }
    assert(ep_of(w3) == Some(v.ep)) by {
        match v.ep {
            Some(s) => {
                assert(w3.len() == 2);
            },
            None => {},
        }
    }
}

/// A text, a space and more text.
proof fn lemma_spaced(a: Seq<char>, b: Seq<char>)
    requires
        is_field(a),
        b.len() > 0,
        is_plain(b.last()),
        forall|i: int| 0 <= i < b.len() ==> #[trigger] b[i] == ' ' || is_plain(b[i]),
    ensures
        ({
            let t = a + seq![' '] + b;
            &&& t.len() > 0
            &&& is_plain(t[0])
            &&& is_plain(t.last())
            &&& forall|i: int| 0 <= i < t.len() ==> #[trigger] t[i] == ' ' || is_plain(t[i])
        }),
{
    let t = a + seq![' '] + b;
    assert(t.last() == b.last());
    assert(t[0] == a[0]);
    assert forall|i: int| 0 <= i < t.len() implies #[trigger] t[i] == ' ' || is_plain(t[i]) by {
        if i < a.len() {
            assert(t[i] == a[i]);
        } else if i > a.len() {
            assert(t[i] == b[i - a.len() - 1]);
        }
    }
}

/// A FEN consists of plain characters and single spaces inside.
pub proof fn lemma_fen_chars(v: PosView)
    requires
        v.wf(),
    ensures
        fen_text(v).len() > 0,
        is_plain(fen_text(v)[0]),
        is_plain(fen_text(v).last()),
        forall|i: int|
            0 <= i < fen_text(v).len() ==> #[trigger] fen_text(v)[i] == ' ' || is_plain(
                fen_text(v)[i],
            ),
{
    let w0 = rows_text(v.board, 0);
    let w1 = side_text(v.side);
    let w2 = rights_text(v.rights);
    let w3 = ep_text(v.ep);
    let w4 = dec(v.half as nat);
    let w5 = dec(v.full as nat);
    lemma_rows_word(v.board, 0);
    lemma_rights_round_trip(v.rights);
    text::lemma_dec_digits(v.half as nat);
    text::lemma_dec_digits(v.full as nat);
    let t4 = w4 + seq![' '] + w5;
    let t3 = w3 + seq![' '] + t4;
    let t2 = w2 + seq![' '] + t3;
    let t1 = w1 + seq![' '] + t2;
    lemma_spaced(w4, w5);
    lemma_spaced(w3, t4);
    lemma_spaced(w2, t3);
    lemma_spaced(w1, t2);
    lemma_spaced(w0, t1);
}

} // verus!
