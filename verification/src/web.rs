//! The game in the browser: what requests ask for and what is answered.

use std::sync::Arc;
use std::sync::atomic::AtomicBool;
use vstd::prelude::*;
use vstd::string::*;
use vstd::utf8::*;

use crate::clock::SearchLimits;
use crate::fen::{fen_text, start_view};
use crate::movegen;
use crate::movegen::{generate_legal, legal_moves};
use crate::nnue::Network;
use crate::position::Position;
use crate::referee;
use crate::referee::{Game, Winner, line, occurrences, times, trail};
use crate::rules;
use crate::rules::{PosView, apply, hash, legal};
use crate::search::{Found, Searcher, finds};
use crate::text;
use crate::text::{
    dec, find_from, lower, maybe, parse_dec, pieces, strings, texts, trimmed, words,
};
use crate::tree::Mind;
use crate::types::{Color, Move, Piece, Square};
use crate::uci;
use crate::uci::named;

verus! {

// ---------------------------------------------------------------------------
// Percent encoding.
// ---------------------------------------------------------------------------

/// The value of a hexadecimal digit.
pub open spec fn hex_digit(b: u8) -> Option<int> {
    if 48 <= b <= 57 {
        Some(b - 48)
    } else if 65 <= b <= 70 {
        Some(b - 55)
    } else if 97 <= b <= 102 {
        Some(b - 87)
    } else {
        None
    }
}

/// The number that two characters stand for: two hexadecimal digits, or one
/// after a plus sign.
pub open spec fn hex_pair(a: u8, b: u8) -> Option<int> {
    match hex_digit(b) {
        Some(y) => if a == 43 {
            Some(y)
        } else {
            match hex_digit(a) {
                Some(x) => Some(16 * x + y),
                None => None,
            }
        },
        None => None,
    }
}

/// The bytes that encoded bytes stand for, from position `i` on.
pub open spec fn decoded(b: Seq<u8>, i: int) -> Seq<u8>
    decreases b.len() - i,
{
    if i < 0 || i >= b.len() {
        seq![]
    } else if b[i] == 37 && i + 2 < b.len() && hex_pair(b[i + 1], b[i + 2]) is Some {
        seq![hex_pair(b[i + 1], b[i + 2])->0 as u8] + decoded(b, i + 3)
    } else if b[i] == 43 {
        seq![32u8] + decoded(b, i + 1)
    } else {
        seq![b[i]] + decoded(b, i + 1)
    }
}

/// Somewhere from position `i` on the two bytes after a percent sign end within
/// a character.
pub open spec fn cuts(b: Seq<u8>, i: int) -> bool
    decreases b.len() - i,
{
    if i < 0 || i >= b.len() {
        false
    } else if b[i] == 37 && i + 2 < b.len() {
        if i + 3 < b.len() && is_continuation_byte(b[i + 3]) {
            true
        } else if hex_pair(b[i + 1], b[i + 2]) is Some {
            cuts(b, i + 3)
        } else {
            cuts(b, i + 1)
        }
    } else {
        cuts(b, i + 1)
    }
}

fn digit_of(b: u8) -> (r: Option<u8>)
    ensures
        match r {
            Some(n) => hex_digit(b) == Some(n as int) && n < 16,
            None => hex_digit(b) is None,
        },
{
    if 48 <= b && b <= 57 {
        Some(b - 48)
    } else if 65 <= b && b <= 70 {
        Some(b - 55)
    } else if 97 <= b && b <= 102 {
        Some(b - 87)
    } else {
        None
    }
}

fn pair_of(a: u8, b: u8) -> (r: Option<u8>)
    ensures
        match r {
            Some(n) => hex_pair(a, b) == Some(n as int),
            None => hex_pair(a, b) is None,
        },
{
    match digit_of(b) {
        Some(y) => if a == 43 {
            Some(y)
        } else {
            match digit_of(a) {
                Some(x) => Some(16 * x + y),
                None => None,
            }
        },
        None => None,
    }
}

/// Decode percent-encoded bytes; a plus sign stands for a space.
pub fn decode_bytes(b: &Vec<u8>) -> (r: Vec<u8>)
    ensures
        r@ == decoded(b@, 0),
{
    let mut out: Vec<u8> = Vec::new();
    let n: usize = b.len();
    let mut i: usize = 0;
    assert(out@ + decoded(b@, 0) =~= decoded(b@, 0));
    while i < n
        invariant
            n == b@.len(),
            i <= n,
            out@ + decoded(b@, i as int) == decoded(b@, 0),
        decreases n - i,
    {
        let ghost before = out@;
        let c: u8 = b[i];
        let pair: Option<u8> = if c == 37 && n - i > 2 {
            pair_of(b[i + 1], b[i + 2])
        } else {
            None
        };
        match pair {
            Some(x) => {
                out.push(x);
                assert(before + (seq![x] + decoded(b@, i as int + 3)) =~= out@ + decoded(
                    b@,
                    i as int + 3,
                ));
                i = i + 3;
            },
            None => {
                let x: u8 = if c == 43 {
                    32
                } else {
                    c
                };
                out.push(x);
                assert(before + (seq![x] + decoded(b@, i as int + 1)) =~= out@ + decoded(
                    b@,
                    i as int + 1,
                ));
                i = i + 1;
            },
        }
    }
    assert(out@ =~= decoded(b@, 0));
    out
}

/// Do the two bytes after some percent sign end within a character?
pub fn has_cut(b: &Vec<u8>) -> (r: bool)
    ensures
        r == cuts(b@, 0),
{
    let n: usize = b.len();
    let mut i: usize = 0;
    while i < n
        invariant
            n == b@.len(),
            i <= n,
            cuts(b@, i as int) == cuts(b@, 0),
        decreases n - i,
    {
        if b[i] == 37 && n - i > 2 {
            if n - i > 3 && 128 <= b[i + 3] && b[i + 3] < 192 {
                return true;
            }
            match pair_of(b[i + 1], b[i + 2]) {
                Some(_) => {
                    i = i + 3;
                },
                None => {
                    i = i + 1;
                },
            }
        } else {
            i = i + 1;
        }
    }
    false
}

/// The bytes that stay as they are when a component of an address is encoded.
pub open spec fn unreserved(b: u8) -> bool {
    ||| 48 <= b <= 57
    ||| 65 <= b <= 90
    ||| 97 <= b <= 122
    ||| b == 45
    ||| b == 95
    ||| b == 46
    ||| b == 33
    ||| b == 126
    ||| b == 42
    ||| b == 39
    ||| b == 40
    ||| b == 41
}

/// The hexadecimal digit for a number below sixteen.
pub open spec fn hex_char(n: int) -> u8 {
    if n < 10 {
        (48 + n) as u8
    } else {
        (55 + n) as u8
    }
}

/// A component of an address as browsers encode it.
pub open spec fn encoded(b: Seq<u8>) -> Seq<u8>
    decreases b.len(),
{
    if b.len() == 0 {
        seq![]
    } else if unreserved(b[0]) {
        seq![b[0]] + encoded(b.skip(1))
    } else {
        seq![37u8, hex_char(b[0] as int / 16), hex_char(b[0] as int % 16)] + encoded(b.skip(1))
    }
}

/// Decoding from a position on depends only on what follows.
proof fn lemma_decoded_shift(b: Seq<u8>, i: int, k: int)
    requires
        0 <= k <= i,
    ensures
        decoded(b, i) == decoded(b.skip(k), i - k) || k > b.len(),
        cuts(b, i) == cuts(b.skip(k), i - k) || k > b.len(),
    decreases b.len() - i + 3,
{
    if k <= b.len() && i < b.len() {
        let t = b.skip(k);
        assert(t[i - k] == b[i]);
        if i + 2 < b.len() {
            assert(t[i + 1 - k] == b[i + 1] && t[i + 2 - k] == b[i + 2]);
        }
        if i + 3 < b.len() {
            assert(t[i + 3 - k] == b[i + 3]);
        }
        lemma_decoded_shift(b, i + 1, k);
        lemma_decoded_shift(b, i + 3, k);
    }
}

/// Decoding what a browser encoded gives it back.
pub proof fn law_encoded_text_is_decoded(b: Seq<u8>)
    ensures
        decoded(encoded(b), 0) == b,
        !cuts(encoded(b), 0),
        encoded(b).len() > 0 ==> !is_continuation_byte(encoded(b)[0]),
    decreases b.len(),
{
    if b.len() == 0 {
        assert(decoded(encoded(b), 0) =~= b);
    } else {
        let e = encoded(b);
        let rest = encoded(b.skip(1));
        law_encoded_text_is_decoded(b.skip(1));
        if unreserved(b[0]) {
            assert(e.skip(1) =~= rest);
            lemma_decoded_shift(e, 1, 1);
            assert(e[0] == b[0]);
        } else {
            assert(e.skip(3) =~= rest);
            lemma_decoded_shift(e, 3, 3);
            assert(e[0] == 37u8);
            assert(hex_digit(e[1]) == Some(b[0] as int / 16));
            assert(hex_digit(e[2]) == Some(b[0] as int % 16));
            assert(hex_pair(e[1], e[2]) == Some(b[0] as int));
            if e.len() > 3 {
                assert(e[3] == rest[0]);
            }
        }
        assert(seq![b[0]] + b.skip(1) =~= b);
        assert(decoded(e, 0) =~= b);
    }
}

/// The text of bytes, with a replacement where they are no text.
pub uninterp spec fn lossy_text(b: Seq<u8>) -> Seq<char>;

/// `String::from_utf8_lossy` gives the text of bytes that are UTF-8, and puts a
/// replacement character where bytes are not.
#[verifier::external_body]
fn text_of(b: &Vec<u8>) -> (r: String)
    ensures
        r@ == lossy_text(b@),
        valid_utf8(b@) ==> r@ == decode_utf8(b@),
{
    String::from_utf8_lossy(b).to_string()
}

/// The text that bytes stand for: the text that UTF-8 encodes in this way or, where
/// there is none, one with replacements.
pub open spec fn read_text(b: Seq<u8>) -> Seq<char> {
    if valid_utf8(b) {
        decode_utf8(b)
    } else {
        lossy_text(b)
    }
}

/// Decode a percent-encoded text; a plus sign stands for a space.
pub fn url_decode(s: &str) -> (r: String)
    requires
        !cuts(encode_utf8(s@), 0),
    ensures
        r@ == read_text(decoded(encode_utf8(s@), 0)),
{
    let b = s.as_bytes_vec();
    let d = decode_bytes(&b);
    text_of(&d)
}

// ---------------------------------------------------------------------------
// Forms.
// ---------------------------------------------------------------------------

/// A piece of a form holds a value for the key.
pub open spec fn is_pair(p: Seq<char>, key: Seq<char>) -> bool {
    find_from(p, "="@, 0) is Some && p.take(find_from(p, "="@, 0)->0) == key
}

/// The value of a pair, still encoded.
pub open spec fn raw_value(p: Seq<char>) -> Seq<char> {
    p.skip(find_from(p, "="@, 0)->0 + 1)
}

/// The value that the first `n` pieces of a form hold for the key, still
/// encoded: the last of them counts.
pub open spec fn value_among(ps: Seq<Seq<char>>, key: Seq<char>, n: int) -> Option<Seq<char>>
    decreases n,
{
    if n <= 0 {
        None
    } else if is_pair(ps[n - 1], key) {
        Some(raw_value(ps[n - 1]))
    } else {
        value_among(ps, key, n - 1)
    }
}

/// The value that a form holds for the key, still encoded.
pub open spec fn form_value(body: Seq<char>, key: Seq<char>) -> Option<Seq<char>> {
    value_among(pieces(body, '&'), key, pieces(body, '&').len() as int)
}

/// All values of a form can be decoded.
pub open spec fn decodable(body: Seq<char>) -> bool {
    forall|i: int|
        0 <= i < pieces(body, '&').len() && find_from(
            #[trigger] pieces(body, '&')[i],
            "="@,
            0,
        ) is Some ==> !cuts(encode_utf8(raw_value(pieces(body, '&')[i])), 0)
}

/// The value of a piece of a form, still encoded.
fn pair_value(p: &Vec<char>) -> (r: Option<String>)
    ensures
        match r {
            Some(v) => find_from(p@, "="@, 0) is Some && v@ == raw_value(p@),
            None => find_from(p@, "="@, 0) is None,
        },
{
    proof {
        reveal_strlit("=");
    }
    match text::find(p, "=") {
        Some(e) => {
            let end: usize = p.len();
            assert(e + 1 <= end);
            let v = text::slice(p, e + 1, end);
            assert(v@ =~= raw_value(p@));
            Some(text::to_text(&v))
        },
        None => None,
    }
}

/// Does a piece of a form hold a value for the key?
fn has_key(p: &Vec<char>, key: &str) -> (r: bool)
    ensures
        r == is_pair(p@, key@),
{
    match text::find(p, "=") {
        Some(e) => {
            let k = text::slice(p, 0, e);
            assert(k@ =~= p@.take(e as int));
            text::same(&k, key)
        },
        None => false,
    }
}

/// Can all values of a form be decoded?
pub fn is_decodable(body: &str) -> (r: bool)
    ensures
        r == decodable(body@),
{
    let ps = text::split_at(&text::chars_of(body), '&');
    let ghost all = pieces(body@, '&');
    let mut i: usize = 0;
    while i < ps.len()
        invariant
            i <= ps@.len(),
            all == texts(ps@),
            all == pieces(body@, '&'),
            forall|k: int|
                0 <= k < i && find_from(#[trigger] all[k], "="@, 0) is Some ==> !cuts(
                    encode_utf8(raw_value(all[k])),
                    0,
                ),
        decreases ps@.len() - i,
    {
        assert(all[i as int] == ps@[i as int]@);
        match pair_value(&ps[i]) {
            Some(v) => {
                if has_cut(&v.as_str().as_bytes_vec()) {
                    return false;
                }
            },
            None => {},
        }
        i = i + 1;
    }
    true
}

/// Look up the value that a form holds for the key, and decode it.
pub fn form_get(body: &str, key: &str) -> (r: Option<String>)
    requires
        decodable(body@),
    ensures
        match r {
            Some(v) => form_value(body@, key@) is Some && v@ == read_text(
                decoded(encode_utf8(form_value(body@, key@)->0), 0),
            ),
            None => form_value(body@, key@) is None,
        },
{
    let ps = text::split_at(&text::chars_of(body), '&');
    let ghost all = pieces(body@, '&');
    let mut n: usize = ps.len();
    while n > 0
        invariant
            n <= ps@.len(),
            all == texts(ps@),
            all == pieces(body@, '&'),
            decodable(body@),
            value_among(all, key@, n as int) == form_value(body@, key@),
        decreases n,
    {
        assert(all[n - 1] == ps@[n - 1]@);
        if has_key(&ps[n - 1], key) {
            match pair_value(&ps[n - 1]) {
                Some(v) => {
                    return Some(url_decode(v.as_str()));
                },
                None => {},
            }
        }
        n = n - 1;
    }
    None
}

// ---------------------------------------------------------------------------
// Requests to play.
// ---------------------------------------------------------------------------

/// A request to play.
pub struct Request {
    /// The moves so far.
    pub moves: Vec<String>,
    /// Milliseconds for the engine to think.
    pub movetime: u64,
    /// The engine is to move.
    pub want_engine: bool,
}

/// Those of the first `n` texts that are not empty.
pub open spec fn filled(v: Seq<Seq<char>>, n: int) -> Seq<Seq<char>>
    decreases n,
{
    if n <= 0 {
        seq![]
    } else if v[n - 1].len() == 0 {
        filled(v, n - 1)
    } else {
        filled(v, n - 1).push(v[n - 1])
    }
}

/// The moves of a request, which are separated by commas.
pub open spec fn moves_of(value: Option<Seq<char>>) -> Seq<Seq<char>> {
    match value {
        Some(s) => filled(pieces(s, ','), pieces(s, ',').len() as int),
        None => seq![],
    }
}

/// The time to think that a request asks for, within bounds.
pub open spec fn movetime_of(value: Option<Seq<char>>) -> int {
    let t = match value {
        Some(s) => match parse_dec(s, u64::MAX as int) {
            Some(n) => n,
            None => 500,
        },
        None => 500,
    };
    if t < 50 {
        50
    } else if t > 5000 {
        5000
    } else {
        t
    }
}

/// Understand the values of a request.
pub fn read_request(
    moves: &Option<String>,
    movetime: &Option<String>,
    engine: &Option<String>,
) -> (r: Request)
    ensures
        strings(r.moves@) == moves_of(maybe(*moves)),
        r.movetime == movetime_of(maybe(*movetime)),
        r.want_engine == (maybe(*engine) == Some("1"@)),
{
    let mut list: Vec<String> = Vec::new();
    assert(strings(list@) =~= seq![]);
    if let Some(s) = moves {
        let ps = text::split_at(&text::chars_of(s.as_str()), ',');
        let ghost all = pieces(s@, ',');
        let mut i: usize = 0;
        while i < ps.len()
            invariant
                i <= ps@.len(),
                all == texts(ps@),
                strings(list@) == filled(all, i as int),
            decreases ps@.len() - i,
        {
            assert(all[i as int] == ps@[i as int]@);
            if ps[i].len() > 0 {
                let ghost before = list@;
                let m = text::to_text(&ps[i]);
                list.push(m);
                assert(strings(list@) =~= strings(before).push(m@));
            }
            i = i + 1;
        }
    }
    let wanted: u64 = match movetime {
        Some(s) => match text::parse_number(&text::chars_of(s.as_str()), u64::MAX) {
            Some(n) => n,
            None => 500,
        },
        None => 500,
    };
    let time: u64 = if wanted < 50 {
        50
    } else if wanted > 5000 {
        5000
    } else {
        wanted
    };
    let want_engine = match engine {
        Some(s) => text::same(&text::chars_of(s.as_str()), "1"),
        None => false,
    };
    Request { moves: list, movetime: time, want_engine }
}

/// The decoded value that a form holds for the key.
pub open spec fn form_text(body: Seq<char>, key: Seq<char>) -> Option<Seq<char>> {
    match form_value(body, key) {
        Some(v) => Some(read_text(decoded(encode_utf8(v), 0))),
        None => None,
    }
}

/// Understand a request to play.
pub fn parse_request(body: &str) -> (r: Request)
    requires
        decodable(body@),
    ensures
        strings(r.moves@) == moves_of(form_text(body@, "moves"@)),
        r.movetime == movetime_of(form_text(body@, "movetime"@)),
        r.want_engine == (form_text(body@, "engine"@) == Some("1"@)),
{
    let moves = form_get(body, "moves");
    let movetime = form_get(body, "movetime");
    let engine = form_get(body, "engine");
    read_request(&moves, &movetime, &engine)
}

// ---------------------------------------------------------------------------
// The state of a game.
// ---------------------------------------------------------------------------

/// Whether a game goes on.
#[derive(Clone, Copy, PartialEq, Eq, Structural, Debug)]
pub enum Status {
    Ongoing,
    Checkmate,
    Stalemate,
    Draw,
}

/// Whether a game goes on from a position, with the hashes of the positions so
/// far.
pub open spec fn status_of(v: PosView, keys: Seq<u64>) -> Status {
    if legal_moves(v).len() == 0 {
        if v.in_check() {
            Status::Checkmate
        } else {
            Status::Stalemate
        }
    } else if v.half >= 100 || times(keys, hash(v)) >= 3 {
        Status::Draw
    } else {
        Status::Ongoing
    }
}

/// Decide whether a game goes on.
pub fn status(pos: &Position, keys: &Vec<u64>) -> (r: Status)
    requires
        pos.wf(),
    ensures
        r == status_of(pos@, keys@),
{
    if generate_legal(pos).is_empty() {
        if pos.in_check() {
            Status::Checkmate
        } else {
            Status::Stalemate
        }
    } else if pos.halfmove_clock() >= 100 || occurrences(keys, pos.key()) >= 3 {
        Status::Draw
    } else {
        Status::Ongoing
    }
}

impl Status {
    /// The status in a word.
    pub open spec fn said(self) -> Seq<char> {
        match self {
            Status::Ongoing => "ongoing"@,
            Status::Checkmate => "checkmate"@,
            Status::Stalemate => "stalemate"@,
            Status::Draw => "draw"@,
        }
    }

    /// The status in a word.
    pub fn text(self) -> (r: &'static str)
        ensures
            r@ == self.said(),
    {
        match self {
            Status::Ongoing => "ongoing",
            Status::Checkmate => "checkmate",
            Status::Stalemate => "stalemate",
            Status::Draw => "draw",
        }
    }
}

/// A player's color in a word.
pub open spec fn color_text(c: Color) -> Seq<char> {
    match c {
        Color::White => "white"@,
        Color::Black => "black"@,
    }
}

/// A player's color in a word.
pub fn color_word(c: Color) -> (r: &'static str)
    ensures
        r@ == color_text(c),
{
    match c {
        Color::White => "white",
        Color::Black => "black",
    }
}

/// The character of a square: the piece's letter, or a dot.
pub open spec fn square_char(p: Option<Piece>) -> char {
    match p {
        Some(q) => q.char_spec(),
        None => '.',
    }
}

/// The board from a1 to h8, a character for each square.
pub open spec fn board_text(b: Seq<Option<Piece>>) -> Seq<char> {
    Seq::new(64, |i: int| square_char(b[i]))
}

/// The board from a1 to h8, a character for each square.
pub fn board_string(pos: &Position) -> (r: String)
    ensures
        r@ == board_text(pos@.board),
{
    let mut out = String::new();
    let mut i: u8 = 0;
    while i < 64
        invariant
            i <= 64,
            out@ == board_text(pos@.board).take(i as int),
        decreases 64 - i,
    {
        let c: char = match pos.piece_at(Square(i)) {
            Some(p) => p.to_char(),
            None => '.',
        };
        out.push(c);
        assert(board_text(pos@.board).take(i as int + 1) =~= board_text(pos@.board).take(
            i as int,
        ).push(c));
        i = i + 1;
    }
    assert(board_text(pos@.board).take(64) =~= board_text(pos@.board));
    out
}

/// A digit of a number to the base sixteen.
pub open spec fn sixteenth(n: int) -> char {
    if n < 10 {
        (48 + n) as char
    } else {
        (87 + n) as char
    }
}

/// A character inside a JSON string: control characters, quotes and backslashes are
/// written as escapes.
pub open spec fn escape_of(c: char) -> Seq<char> {
    if c == '\\' || c == '"' {
        seq!['\\', c]
    } else if (c as int) < 0x20 {
        seq!['\\', 'u', '0', '0', sixteenth(c as int / 16), sixteenth(c as int % 16)]
    } else {
        seq![c]
    }
}

/// A text inside a JSON string.
pub open spec fn escaped(s: Seq<char>) -> Seq<char>
    decreases s.len(),
{
    if s.len() == 0 {
        seq![]
    } else {
        escaped(s.drop_last()) + escape_of(s.last())
    }
}

/// A digit to the base sixteen, for a number below sixteen.
fn sixteenth_char(n: u8) -> (r: char)
    requires
        n < 16,
    ensures
        r == sixteenth(n as int),
{
    if n < 10 {
        (48 + n) as char
    } else {
        (87 + n) as char
    }
}

/// The number of a character.
fn code_of(c: char) -> (r: u32)
    ensures
        r == c as int,
{
    c as u32
}

/// A text to put inside a JSON string.
#[verifier::rlimit(30)]
pub fn escape(s: &str) -> (r: String)
    ensures
        r@ == escaped(s@),
{
    let cs = text::chars_of(s);
    let mut out = String::new();
    let mut i: usize = 0;
    assert(cs@.take(0) =~= Seq::<char>::empty());
    while i < cs.len()
        invariant
            i <= cs@.len(),
            out@ == escaped(cs@.take(i as int)),
        decreases cs@.len() - i,
    {
        assert(cs@.take(i as int + 1).drop_last() =~= cs@.take(i as int));
        let c: char = cs[i];
        let code: u32 = code_of(c);
        let ghost before = out@;
        if c == '\\' || c == '"' {
            out.push('\\');
            out.push(c);
        } else if code < 0x20 {
            let n: u8 = code as u8;
            out.push('\\');
            out.push('u');
            out.push('0');
            out.push('0');
            out.push(sixteenth_char(n / 16));
            out.push(sixteenth_char(n % 16));
        } else {
            out.push(c);
        }
        assert(out@ =~= before + escape_of(c));
        i = i + 1;
    }
    assert(cs@.take(i as int) =~= cs@);
    out
}

/// The value of a digit to the base sixteen.
pub open spec fn hex_value(c: char) -> Option<int> {
    if '0' <= c <= '9' {
        Some(c as int - 48)
    } else if 'a' <= c <= 'f' {
        Some(c as int - 87)
    } else if 'A' <= c <= 'F' {
        Some(c as int - 55)
    } else {
        None
    }
}

/// The number that four digits to the base sixteen from `i` on stand for.
pub open spec fn hex_number(s: Seq<char>, i: int) -> Option<int> {
    if i + 4 > s.len() {
        None
    } else {
        match (hex_value(s[i]), hex_value(s[i + 1]), hex_value(s[i + 2]), hex_value(s[i + 3])) {
            (Some(a), Some(b), Some(c), Some(d)) => Some(4096 * a + 256 * b + 16 * c + d),
            _ => None,
        }
    }
}

/// The character at position `i` inside a JSON string, and how many characters write
/// it.  None if JSON has no such thing there: a quote would end the string, control
/// characters must be escaped, and a backslash starts an escape.  Halves of surrogate
/// pairs are no characters.
#[verifier::opaque]
pub open spec fn json_char(s: Seq<char>, i: int) -> Option<(char, int)> {
    let c = s[i];
    if c == '"' || (c as int) < 0x20 {
        None
    } else if c != '\\' {
        Some((c, 1))
    } else if i + 1 >= s.len() {
        None
    } else {
        let e = s[i + 1];
        if e == '"' || e == '\\' || e == '/' {
            Some((e, 2))
        } else if e == 'b' {
            Some((8u8 as char, 2))
        } else if e == 'f' {
            Some((12u8 as char, 2))
        } else if e == 'n' {
            Some((10u8 as char, 2))
        } else if e == 'r' {
            Some((13u8 as char, 2))
        } else if e == 't' {
            Some((9u8 as char, 2))
        } else if e == 'u' {
            match hex_number(s, i + 2) {
                Some(n) => if 0xD800 <= n < 0xE000 {
                    None
                } else {
                    Some((n as char, 6))
                },
                None => None,
            }
        } else {
            None
        }
    }
}

/// What a text between the quotes of a JSON string stands for, from position `i` on;
/// none if it is no JSON string.
pub open spec fn json_text(s: Seq<char>, i: int) -> Option<Seq<char>>
    decreases s.len() - i,
{
    if i < 0 || i >= s.len() {
        Some(seq![])
    } else {
        match json_char(s, i) {
            Some((c, n)) => if n < 1 || i + n > s.len() {
                None
            } else {
                match json_text(s, i + n) {
                    Some(rest) => Some(seq![c] + rest),
                    None => None,
                }
            },
            None => None,
        }
    }
}

/// Reading from a position on depends only on what follows.
#[verifier::rlimit(30)]
proof fn lemma_json_shift(s: Seq<char>, i: int, k: int)
    requires
        0 <= k <= i,
        k <= s.len(),
    ensures
        json_text(s, i) == json_text(s.skip(k), i - k),
    decreases s.len() - i + 6,
{
    let t = s.skip(k);
    if i < s.len() {
        assert forall|j: int| i <= j < s.len() implies #[trigger] s[j] == t[j - k] by {
        }
        assert(s[i] == t[i - k]);
        assert(i + 1 < s.len() ==> s[i + 1] == t[i - k + 1]);
        assert(i + 2 < s.len() ==> s[i + 2] == t[i - k + 2]);
        assert(i + 3 < s.len() ==> s[i + 3] == t[i - k + 3]);
        assert(i + 4 < s.len() ==> s[i + 4] == t[i - k + 4]);
        assert(i + 5 < s.len() ==> s[i + 5] == t[i - k + 5]);
        assert(json_char(s, i) == json_char(t, i - k)) by {
            reveal(json_char);
            assert(hex_number(s, i + 2) == hex_number(t, i - k + 2));
        }
        assert(match json_char(s, i) {
            Some((_, n)) => n == 1 || n == 2 || n == 6,
            None => true,
        }) by {
            reveal(json_char);
        }
        lemma_json_shift(s, i + 1, k);
        lemma_json_shift(s, i + 2, k);
        lemma_json_shift(s, i + 6, k);
    }
}

/// A digit stands for its number.
proof fn lemma_sixteenth(n: int)
    requires
        0 <= n < 16,
    ensures
        hex_value(sixteenth(n)) == Some(n),
{
    if n < 10 {
        assert(sixteenth(n) as int == 48 + n);
    } else {
        assert(sixteenth(n) as int == 87 + n);
    }
}

/// The escape of a control character is read as the character.
proof fn lemma_control(c: char, u: Seq<char>)
    requires
        (c as int) < 0x20,
        u.len() >= 6,
        u[0] == '\\',
        u[1] == 'u',
        u[2] == '0',
        u[3] == '0',
        u[4] == sixteenth(c as int / 16),
        u[5] == sixteenth(c as int % 16),
    ensures
        json_char(u, 0) == Some((c, 6int)),
{
    reveal(json_char);
    let n = c as int;
    lemma_sixteenth(n / 16);
    lemma_sixteenth(n % 16);
    lemma_sixteenth(0);
    assert(hex_value('0') == Some(0int));
    assert(n == 16 * (n / 16) + n % 16);
    assert(hex_number(u, 2) == Some(n));
    assert(n as char == c);
}

/// A character inside a JSON string is read as it was.
proof fn lemma_escape_of(c: char, t: Seq<char>)
    ensures
        json_char(escape_of(c) + t, 0) == Some((c, escape_of(c).len() as int)),
{
    let e = escape_of(c);
    let u = e + t;
    assert(u[0] == e[0]);
    if e.len() == 6 {
        assert(u[1] == e[1] && u[2] == e[2] && u[3] == e[3] && u[4] == e[4] && u[5] == e[5]);
        lemma_control(c, u);
    } else {
        reveal(json_char);
        if e.len() == 2 {
            assert(u[1] == e[1]);
        }
    }
}

/// Reading an escaped text with more behind it.
#[verifier::rlimit(30)]
proof fn lemma_json_prefix(s: Seq<char>, t: Seq<char>)
    ensures
        json_text(escaped(s) + t, 0) == (match json_text(t, 0) {
            Some(rest) => Some(s + rest),
            None => None,
        }),
    decreases s.len(),
{
    if s.len() == 0 {
        assert(escaped(s) + t =~= t);
        if json_text(t, 0) is Some {
            assert(s + json_text(t, 0)->0 =~= json_text(t, 0)->0);
        }
    } else {
        let c = s.last();
        let r = s.drop_last();
        let e = escape_of(c);
        let u = e + t;
        assert(escaped(s) + t =~= escaped(r) + u);
        lemma_json_prefix(r, u);
        assert(u.skip(e.len() as int) =~= t);
        lemma_json_shift(u, e.len() as int, e.len() as int);
        lemma_escape_of(c, t);
        if json_text(t, 0) is Some {
            let rest = json_text(t, 0)->0;
            assert(json_text(u, 0) == Some(seq![c] + rest));
            assert(r + (seq![c] + rest) =~= s + rest);
        } else {
            assert(json_text(u, 0) is None);
        }
    }
}

/// An escaped text between quotes is a JSON string that stands for the text.
pub proof fn law_escaped_text_is_read_back(s: Seq<char>)
    ensures
        json_text(escaped(s), 0) == Some(s),
{
    let none = Seq::<char>::empty();
    lemma_json_prefix(s, none);
    assert(escaped(s) + none =~= escaped(s));
    assert(s + none =~= s);
}

// ---------------------------------------------------------------------------
// Answers.
// ---------------------------------------------------------------------------

/// The complaint about move number `i`.
pub open spec fn refusal(names: Seq<Seq<char>>, i: int) -> Seq<char> {
    "illegal move '"@ + names[i] + "' at ply "@ + dec((i + 1) as nat)
}

/// Move number `i` is the first that is not legal.
pub open spec fn first_illegal(names: Seq<Seq<char>>, i: int) -> bool {
    &&& 0 <= i < names.len()
    &&& line(start_view(), names.take(i)) is Some
    &&& named(line(start_view(), names.take(i))->0, names[i]) is None
}

/// Play moves from the start position, or complain about the first that is not
/// legal.
pub fn build_position(moves: &Vec<String>) -> (r: Result<Game, String>)
    ensures
        match r {
            Ok(g) => g.wf() && strings(g.moves@) == strings(moves@),
            Err(e) => exists|i: int| #[trigger]
                first_illegal(strings(moves@), i) && e@ == refusal(strings(moves@), i),
        },
{
    let ghost names = strings(moves@);
    let mut game = Game::new();
    let mut i: usize = 0;
    assert(names.take(0) =~= Seq::<Seq<char>>::empty());
    while i < moves.len()
        invariant
            i <= moves@.len(),
            names == strings(moves@),
            game.wf(),
            strings(game.moves@) == names.take(i as int),
        decreases moves@.len() - i,
    {
        assert(names[i as int] == moves@[i as int]@);
        if !game.play(moves[i].as_str()) {
            let mut e = text::copy("illegal move '");
            text::push_str(&mut e, moves[i].as_str());
            text::push_str(&mut e, "' at ply ");
            text::push_u64(&mut e, i as u64 + 1);
            assert(first_illegal(names, i as int));
            return Err(e);
        }
        assert(names.take(i as int + 1) =~= names.take(i as int).push(names[i as int]));
        i = i + 1;
    }
    assert(names.take(i as int) =~= names);
    Ok(game)
}

/// The first illegal move of a line is one and no other.
pub proof fn law_first_illegal_move_is_unique(names: Seq<Seq<char>>, i: int, j: int)
    requires
        first_illegal(names, i),
        first_illegal(names, j),
    ensures
        i == j,
        line(start_view(), names) is None,
{
    lemma_illegal_from(names, i, names.len() as int);
    assert(names.take(names.len() as int) =~= names);
    if i < j {
        lemma_illegal_from(names, i, j);
    }
    if j < i {
        lemma_illegal_from(names, j, i);
    }
}

/// After a move that is not legal there is no position.
proof fn lemma_illegal_from(names: Seq<Seq<char>>, i: int, k: int)
    requires
        first_illegal(names, i),
        i < k <= names.len(),
    ensures
        line(start_view(), names.take(k)) is None,
{
    let t = names.take(k);
    let u = t.take(i + 1);
    assert(u.drop_last() =~= names.take(i));
    assert(u.last() == names[i]);
    referee::lemma_line_prefix(start_view(), t, i + 1);
}

/// A text between quotes.
pub open spec fn quoted(s: Seq<char>) -> Seq<char> {
    seq!['"'] + s + seq!['"']
}

/// A text between quotes, or `null`.
pub open spec fn quoted_or_null(s: Option<Seq<char>>) -> Seq<char> {
    match s {
        Some(t) => quoted(t),
        None => "null"@,
    }
}

/// The first `n` moves between quotes, separated by commas.
pub open spec fn move_list(ms: Seq<Move>, n: int) -> Seq<char>
    decreases n,
{
    if n <= 0 {
        seq![]
    } else if n == 1 {
        quoted(ms[0].uci())
    } else {
        move_list(ms, n - 1) + seq![','] + quoted(ms[n - 1].uci())
    }
}

/// Who has won in a position, if somebody has.
pub open spec fn winner_of(v: PosView, keys: Seq<u64>) -> Option<Seq<char>> {
    if status_of(v, keys) == Status::Checkmate {
        Some(color_text(v.side.other()))
    } else {
        None
    }
}

/// The answer that describes a game, with the engine's move if it made one.
pub open spec fn state_text(v: PosView, keys: Seq<u64>, reply: Option<Seq<char>>) -> Seq<char> {
    "{\"ok\":true,\"board\":"@ + quoted(board_text(v.board)) + ",\"fen\":"@ + quoted(
        escaped(fen_text(v)),
    ) + ",\"side\":"@ + quoted(color_text(v.side)) + ",\"status\":"@ + quoted(
        status_of(v, keys).said(),
    ) + ",\"winner\":"@ + quoted_or_null(winner_of(v, keys)) + ",\"engineMove\":"@
        + quoted_or_null(reply) + ",\"legal\":["@ + move_list(
        legal_moves(v),
        legal_moves(v).len() as int,
    ) + "],\"check\":"@ + (if v.in_check() {
        "true"@
    } else {
        "false"@
    }) + "}"@
}

/// The answer to a request that cannot be met.
pub open spec fn error_text(e: Seq<char>) -> Seq<char> {
    "{\"ok\":false,\"error\":"@ + quoted(escaped(e)) + "}"@
}

fn push_quoted(out: &mut String, s: &str)
    ensures
        final(out)@ == old(out)@ + quoted(s@),
{
    out.push('"');
    text::push_str(out, s);
    out.push('"');
    assert(out@ =~= old(out)@ + quoted(s@));
}

fn push_moves(out: &mut String, pos: &Position)
    requires
        pos.wf(),
    ensures
        final(out)@ == old(out)@ + move_list(
            legal_moves(pos@),
            legal_moves(pos@).len() as int,
        ),
{
    let ms = generate_legal(pos);
    let mut i: usize = 0;
    assert(out@ =~= old(out)@ + move_list(ms@, 0));
    while i < ms.len()
        invariant
            i <= ms@.len(),
            ms@ == legal_moves(pos@),
            out@ == old(out)@ + move_list(ms@, i as int),
        decreases ms@.len() - i,
    {
        proof {
            movegen::lemma_listed_legal(pos@, i as int);
        }
        if i > 0 {
            out.push(',');
        }
        push_quoted(out, ms.get(i).to_string().as_str());
        i = i + 1;
        assert(out@ =~= old(out)@ + move_list(ms@, i as int));
    }
}

/// The answer that describes a game, with the engine's move if it made one.
pub fn format_state(pos: &Position, keys: &Vec<u64>, reply: &Option<String>) -> (r: String)
    requires
        pos.wf(),
    ensures
        r@ == state_text(pos@, keys@, maybe(*reply)),
{
    let st = status(pos, keys);
    let mut out = text::copy("{\"ok\":true,\"board\":");
    push_quoted(&mut out, board_string(pos).as_str());
    text::push_str(&mut out, ",\"fen\":");
    push_quoted(&mut out, escape(pos.to_fen().as_str()).as_str());
    text::push_str(&mut out, ",\"side\":");
    push_quoted(&mut out, color_word(pos.side_to_move()));
    text::push_str(&mut out, ",\"status\":");
    push_quoted(&mut out, st.text());
    text::push_str(&mut out, ",\"winner\":");
    if st == Status::Checkmate {
        push_quoted(&mut out, color_word(pos.side_to_move().opponent()));
    } else {
        text::push_str(&mut out, "null");
    }
    text::push_str(&mut out, ",\"engineMove\":");
    match reply {
        Some(m) => {
            push_quoted(&mut out, m.as_str());
        },
        None => {
            text::push_str(&mut out, "null");
        },
    }
    text::push_str(&mut out, ",\"legal\":[");
    push_moves(&mut out, pos);
    text::push_str(&mut out, "],\"check\":");
    text::push_str(
        &mut out,
        if pos.in_check() {
            "true"
        } else {
            "false"
        },
    );
    text::push_str(&mut out, "}");
    out
}

/// The answer to a request that cannot be met.
pub fn format_error(e: &str) -> (r: String)
    ensures
        r@ == error_text(e@),
{
    let mut out = text::copy("{\"ok\":false,\"error\":");
    push_quoted(&mut out, escape(e).as_str());
    text::push_str(&mut out, "}");
    out
}

/// The limits of the engine's search.
pub open spec fn reply_limits(movetime: u64) -> SearchLimits {
    SearchLimits { movetime_ms: Some(movetime), ..SearchLimits::unlimited() }
}

/// The answer after the engine's move `m` in a game.
pub open spec fn answer_with(v: PosView, keys: Seq<u64>, m: Move) -> Seq<char> {
    state_text(apply(v, m), keys.push(hash(apply(v, m))), Some(m.uci()))
}

/// The answer after the engine's move in a game.
pub fn engine_answer(game: &mut Game, m: Move) -> (r: String)
    requires
        old(game).wf(),
        legal(old(game).pos@, m),
    ensures
        r@ == answer_with(old(game).pos@, old(game).keys@, m),
        final(game).wf(),
        strings(final(game).moves@) == strings(old(game).moves@).push(m.uci()),
{
    let name = m.to_string();
    proof {
        uci::law_legal_moves_are_found(game.pos@, m);
    }
    let ghost before = strings(game.moves@);
    let _ = game.play(name.as_str());
    assert(strings(game.moves@).drop_last() =~= before);
    format_state(&game.pos, &game.keys, &Some(name))
}

/// The text answers a request to play: it complains about the first move that is
/// not legal, or describes the game, after the engine's move if one is asked for
/// and the game goes on.  What the engine has in mind then is what its search left.
pub open spec fn answers<N: Network>(
    s: Searcher<N>,
    stop: &Arc<AtomicBool>,
    names: Seq<Seq<char>>,
    movetime: u64,
    wanted: bool,
    r: Seq<char>,
    after: Mind,
) -> bool {
    match line(start_view(), names) {
        None => exists|i: int| #[trigger]
            first_illegal(names, i) && r == error_text(refusal(names, i)) && after == s.mind(),
        Some(v) => {
            let keys = trail(start_view(), names);
            if wanted && status_of(v, keys) == Status::Ongoing {
                exists|f: Found| #[trigger]
                    finds(s.net, s.mind(), v, reply_limits(movetime), stop, f) && r == answer_with(
                        v,
                        keys,
                        f.best_move,
                    ) && after == f.mind
            } else {
                r == state_text(v, keys, None) && after == s.mind()
            }
        },
    }
}

/// Answer a request to play: the game so far is replayed, the engine moves if it
/// is asked to and the game goes on, and the answer describes the game.
pub fn play<N: Network>(req: &Request, searcher: &mut Searcher<N>, stop: &Arc<AtomicBool>) -> (r:
    String)
    requires
        old(searcher).wf(),
    ensures
        final(searcher).wf(),
        final(searcher).net == old(searcher).net,
        answers(
            *old(searcher),
            stop,
            strings(req.moves@),
            req.movetime,
            req.want_engine,
            r@,
            final(searcher).mind(),
        ),
{
    let mut game = match build_position(&req.moves) {
        Ok(g) => g,
        Err(e) => {
            proof {
                let i = choose|i: int| #[trigger]
                    first_illegal(strings(req.moves@), i) && e@ == refusal(
                        strings(req.moves@),
                        i,
                    );
                law_first_illegal_move_is_unique(strings(req.moves@), i, i);
            }
            return format_error(e.as_str());
        },
    };
    if req.want_engine && status(&game.pos, &game.keys) == Status::Ongoing {
        let mut limits = SearchLimits::default();
        limits.movetime_ms = Some(req.movetime);
        let result = searcher.search(&game.pos, &limits, stop);
        assert(finds(
            old(searcher).net,
            old(searcher).mind(),
            game.pos@,
            reply_limits(req.movetime),
            stop,
            searcher.found(result),
        ));
        return engine_answer(&mut game, result.best_move);
    }
    format_state(&game.pos, &game.keys, &None)
}

/// Answer the body of a request to play.
pub fn api_play<N: Network>(body: &str, searcher: &mut Searcher<N>, stop: &Arc<AtomicBool>) -> (r:
    String)
    requires
        old(searcher).wf(),
        decodable(body@),
    ensures
        final(searcher).wf(),
        final(searcher).net == old(searcher).net,
        answers_form(*old(searcher), stop, body@, r@, final(searcher).mind()),
{
    let req = parse_request(body);
    play(&req, searcher, stop)
}

/// The text answers the form in the body of a request to play.
pub open spec fn answers_form<N: Network>(
    s: Searcher<N>,
    stop: &Arc<AtomicBool>,
    form: Seq<char>,
    r: Seq<char>,
    after: Mind,
) -> bool {
    answers(
        s,
        stop,
        moves_of(form_text(form, "moves"@)),
        movetime_of(form_text(form, "movetime"@)) as u64,
        form_text(form, "engine"@) == Some("1"@),
        r,
        after,
    )
}

/// Answer the bytes of the body of a request to play.  There is no answer where a
/// percent sign stands within a character.
pub fn answer_body<N: Network>(
    body: &Vec<u8>,
    searcher: &mut Searcher<N>,
    stop: &Arc<AtomicBool>,
) -> (r: Option<String>)
    requires
        old(searcher).wf(),
    ensures
        final(searcher).wf(),
        final(searcher).net == old(searcher).net,
        match r {
            Some(t) => decodable(read_text(body@)) && answers_form(
                *old(searcher),
                stop,
                read_text(body@),
                t@,
                final(searcher).mind(),
            ),
            None => !decodable(read_text(body@)) && *final(searcher) == *old(searcher),
        },
{
    let form = text_of(body);
    if is_decodable(form.as_str()) {
        Some(api_play(form.as_str(), searcher, stop))
    } else {
        None
    }
}

// ---------------------------------------------------------------------------
// What holds of every answer.
// ---------------------------------------------------------------------------

/// The text holds the phrase.
pub open spec fn says(t: Seq<char>, phrase: Seq<char>) -> bool {
    exists|a: Seq<char>, b: Seq<char>| #![trigger a + phrase + b] t == a + phrase + b
}

/// A name of a field and its value.
pub open spec fn field(name: Seq<char>, value: Seq<char>) -> Seq<char> {
    seq![',', '"'] + name + seq!['"', ':'] + value
}

/// The parts of an answer that describes a game.
#[verifier::rlimit(30)]
proof fn lemma_state_parts(v: PosView, keys: Seq<u64>, reply: Option<Seq<char>>)
    ensures
        says(state_text(v, keys, reply), field("side"@, quoted(color_text(v.side)))),
        says(state_text(v, keys, reply), field("status"@, quoted(status_of(v, keys).said()))),
        says(state_text(v, keys, reply), field("winner"@, quoted_or_null(winner_of(v, keys)))),
        says(state_text(v, keys, reply), field("engineMove"@, quoted_or_null(reply))),
        says(state_text(v, keys, reply), field("fen"@, quoted(escaped(fen_text(v))))),
        says(
            state_text(v, keys, reply),
            field(
                "legal"@,
                seq!['['] + move_list(legal_moves(v), legal_moves(v).len() as int) + seq![']'],
            ),
        ),
        says(
            state_text(v, keys, reply),
            field(
                "check"@,
                if v.in_check() {
                    "true"@
                } else {
                    "false"@
                },
            ),
        ),
        says(state_text(v, keys, reply), field("board"@, quoted(board_text(v.board)))),
{
    reveal_strlit("side");
    reveal_strlit("status");
    reveal_strlit("winner");
    reveal_strlit("engineMove");
    reveal_strlit("fen");
    reveal_strlit("legal");
    reveal_strlit("check");
    reveal_strlit("board");
    reveal_strlit(",\"side\":");
    reveal_strlit(",\"status\":");
    reveal_strlit(",\"winner\":");
    reveal_strlit(",\"engineMove\":");
    reveal_strlit(",\"fen\":");
    reveal_strlit(",\"legal\":[");
    reveal_strlit("],\"check\":");
    reveal_strlit("{\"ok\":true,\"board\":");
    reveal_strlit("}");
    let t = state_text(v, keys, reply);
    let none = Seq::<char>::empty();
    let l0 = "{\"ok\":true,\"board\":"@;
    let v0 = quoted(board_text(v.board));
    let l1 = ",\"fen\":"@;
    let v1 = quoted(escaped(fen_text(v)));
    let l2 = ",\"side\":"@;
    let v2 = quoted(color_text(v.side));
    let l3 = ",\"status\":"@;
    let v3 = quoted(status_of(v, keys).said());
    let l4 = ",\"winner\":"@;
    let v4 = quoted_or_null(winner_of(v, keys));
    let l5 = ",\"engineMove\":"@;
    let v5 = quoted_or_null(reply);
    let l6 = ",\"legal\":["@;
    let v6 = move_list(legal_moves(v), legal_moves(v).len() as int);
    let l7 = "],\"check\":"@;
    let v7 = if v.in_check() {
        "true"@
    } else {
        "false"@
    };
    let end = "}"@;
    let h1 = l0 + v0;
    let h2 = h1 + l1 + v1;
    let h3 = h2 + l2 + v2;
    let h4 = h3 + l3 + v3;
    let h5 = h4 + l4 + v4;
    let h6 = h5 + l5 + v5;
    let t7 = l7 + v7 + end;
    let t6 = l6 + v6 + t7;
    let t5 = l5 + v5 + t6;
    let t4 = l4 + v4 + t5;
    let t3 = l3 + v3 + t4;
    let t2 = l2 + v2 + t3;
    let t1 = l1 + v1 + t2;
    assert(t == h6 + l6 + v6 + l7 + v7 + end);
    lemma_glue(h6 + l6 + v6, l7, v7, end);
    lemma_glue(h6, l6, v6, t7);
    lemma_glue(h5, l5, v5, t6);
    lemma_glue(h4, l4, v4, t5);
    lemma_glue(h3, l3, v3, t4);
    lemma_glue(h2, l2, v2, t3);
    lemma_glue(h1, l1, v1, t2);
    assert(l1 =~= seq![',', '"'] + "fen"@ + seq!['"', ':']);
    assert(l2 =~= seq![',', '"'] + "side"@ + seq!['"', ':']);
    assert(l3 =~= seq![',', '"'] + "status"@ + seq!['"', ':']);
    assert(l4 =~= seq![',', '"'] + "winner"@ + seq!['"', ':']);
    assert(l5 =~= seq![',', '"'] + "engineMove"@ + seq!['"', ':']);
    assert(t == h1 + field("fen"@, v1) + t2);
    assert(t == h2 + field("side"@, v2) + t3);
    assert(t == h3 + field("status"@, v3) + t4);
    assert(t == h4 + field("winner"@, v4) + t5);
    assert(t == h5 + field("engineMove"@, v5) + t6);
    // The last field follows the list of moves, whose bracket belongs to that field.
    let c7 = seq![',', '"'] + "check"@ + seq!['"', ':'];
    assert(l7 =~= seq![']'] + c7);
    let f7 = field("check"@, v7);
    assert(f7 =~= c7 + v7);
    assert(h6 + l6 + v6 + l7 + v7 + end =~= (h6 + l6 + v6 + seq![']']) + f7 + end);
    let c6 = seq![',', '"'] + "legal"@ + seq!['"', ':'];
    assert(l6 =~= c6 + seq!['[']);
    let f6 = field("legal"@, seq!['['] + v6 + seq![']']);
    assert(h6 + l6 + v6 + l7 + v7 + end =~= h6 + f6 + (f7 + end));
    let f0 = field("board"@, v0);
    reveal_strlit("{\"ok\":true");
    let c0 = seq![',', '"'] + "board"@ + seq!['"', ':'];
    assert(l0 =~= "{\"ok\":true"@ + c0);
    assert(t == l0 + v0 + t1) by {
        lemma_glue(none, l0, v0, t1);
        assert(h1 + l1 + v1 + t2 =~= h1 + t1);
    }
    assert(t =~= "{\"ok\":true"@ + f0 + t1);
}

/// Texts one after another.
proof fn lemma_glue(a: Seq<char>, l: Seq<char>, v: Seq<char>, b: Seq<char>)
    ensures
        a + l + v + b == a + (l + v) + b,
        a + l + v + b == a + (l + v + b),
{
    assert(a + l + v + b =~= a + (l + v) + b);
    assert(a + l + v + b =~= a + (l + v + b));
}

/// Where a player is mated, the answer says so and names the other player as the winner;
/// where nobody is, it names no winner.
pub proof fn law_answers_name_the_winner(v: PosView, keys: Seq<u64>, reply: Option<Seq<char>>)
    ensures
        rules::stuck(v) && v.in_check() ==> says(
            state_text(v, keys, reply),
            field("status"@, quoted("checkmate"@)),
        ),
        rules::stuck(v) && v.in_check() && v.side == Color::Black ==> says(
            state_text(v, keys, reply),
            field("winner"@, quoted("white"@)),
        ),
        rules::stuck(v) && v.in_check() && v.side == Color::White ==> says(
            state_text(v, keys, reply),
            field("winner"@, quoted("black"@)),
        ),
        !(rules::stuck(v) && v.in_check()) ==> says(
            state_text(v, keys, reply),
            field("winner"@, "null"@),
        ),
{
    movegen::lemma_stuck(v);
    lemma_state_parts(v, keys, reply);
}

/// The answer gives the winner that the referee of a match gives.
pub proof fn law_answers_follow_the_referee(
    v: PosView,
    keys: Seq<u64>,
    reply: Option<Seq<char>>,
    ply: int,
    maxplies: int,
)
    requires
        referee::verdict(v, keys, ply, maxplies) is Some,
    ensures
        says(
            state_text(v, keys, reply),
            field(
                "winner"@,
                match referee::verdict(v, keys, ply, maxplies)->0.winner {
                    Winner::White => quoted("white"@),
                    Winner::Black => quoted("black"@),
                    Winner::Draw => "null"@,
                },
            ),
        ),
{
    lemma_state_parts(v, keys, reply);
}

/// The answer says whether the game goes on: without a legal move it is over, and it is
/// drawn after a hundred plies without a capture or a pawn move and at the third
/// occurrence of its position.
pub proof fn law_answers_tell_the_status(v: PosView, keys: Seq<u64>, reply: Option<Seq<char>>)
    ensures
        rules::stuck(v) && !v.in_check() ==> says(
            state_text(v, keys, reply),
            field("status"@, quoted("stalemate"@)),
        ),
        !rules::stuck(v) && (v.half >= 100 || referee::thrice(keys, hash(v))) ==> says(
            state_text(v, keys, reply),
            field("status"@, quoted("draw"@)),
        ),
        !rules::stuck(v) && v.half < 100 && !referee::thrice(keys, hash(v)) ==> says(
            state_text(v, keys, reply),
            field("status"@, quoted("ongoing"@)),
        ),
        status_of(v, keys) == Status::Ongoing <==> !rules::stuck(v) && v.half < 100
            && !referee::thrice(keys, hash(v)),
{
    movegen::lemma_stuck(v);
    referee::law_counts_find_the_places(keys, hash(v));
    lemma_state_parts(v, keys, reply);
}

/// The answer says whose turn it is, whether that player is in check, how the board looks
/// and what the engine played.
pub proof fn law_answers_describe_the_position(
    v: PosView,
    keys: Seq<u64>,
    reply: Seq<char>,
)
    ensures
        v.side == Color::White ==> says(
            state_text(v, keys, None),
            field("side"@, quoted("white"@)),
        ),
        v.side == Color::Black ==> says(
            state_text(v, keys, None),
            field("side"@, quoted("black"@)),
        ),
        v.in_check() ==> says(state_text(v, keys, None), field("check"@, "true"@)),
        !v.in_check() ==> says(state_text(v, keys, None), field("check"@, "false"@)),
        says(state_text(v, keys, None), field("engineMove"@, "null"@)),
        says(state_text(v, keys, Some(reply)), field("engineMove"@, quoted(reply))),
        says(state_text(v, keys, None), field("fen"@, quoted(escaped(fen_text(v))))),
        says(state_text(v, keys, None), field("board"@, quoted(board_text(v.board)))),
        board_text(v.board).len() == 64,
        forall|i: int|
            0 <= i < 64 ==> #[trigger] board_text(v.board)[i] == (match v.board[i] {
                Some(p) => p.char_spec(),
                None => '.',
            }),
{
    lemma_state_parts(v, keys, None);
    lemma_state_parts(v, keys, Some(reply));
}

/// A list of moves holds the name of each of them between quotes, and commas between
/// them.
pub proof fn law_legal_moves_are_listed(v: PosView, keys: Seq<u64>, reply: Option<Seq<char>>)
    ensures
        ({
            let names = legal_moves(v).map_values(|m: Move| quoted(m.uci()));
            says(
                state_text(v, keys, reply),
                field(
                    "legal"@,
                    seq!['['] + text::joined(names, ',', names.len() as int) + seq![']'],
                ),
            )
        }),
        forall|m: Move| legal(v, m) <==> #[trigger] legal_moves(v).contains(m),
{
    lemma_state_parts(v, keys, reply);
    lemma_move_list(legal_moves(v), legal_moves(v).len() as int);
    assert forall|m: Move| legal(v, m) <==> #[trigger] legal_moves(v).contains(m) by {
        movegen::law_legal_moves_complete(v, m);
    }
}

proof fn lemma_move_list(ms: Seq<Move>, n: int)
    requires
        n <= ms.len(),
    ensures
        move_list(ms, n) == text::joined(
            ms.map_values(|m: Move| quoted(m.uci())),
            ',',
            n,
        ),
    decreases n,
{
    if n > 1 {
        lemma_move_list(ms, n - 1);
    }
}

/// The engine plays a legal move if it is asked to and the game goes on, and the answer
/// describes the game after it; otherwise it does not play, and the answer describes the
/// game as it is.
pub proof fn law_the_engine_plays_when_asked<N: Network>(
    s: Searcher<N>,
    stop: &Arc<AtomicBool>,
    names: Seq<Seq<char>>,
    movetime: u64,
    wanted: bool,
    r: Seq<char>,
    after: Mind,
)
    requires
        answers(s, stop, names, movetime, wanted, r, after),
        line(start_view(), names) is Some,
    ensures
        ({
            let v = line(start_view(), names)->0;
            let keys = trail(start_view(), names);
            let over = rules::stuck(v) || v.half >= 100 || referee::thrice(keys, hash(v));
            &&& !wanted || over ==> r == state_text(v, keys, None) && after == s.mind()
            &&& wanted && !over ==> exists|m: Move| #[trigger]
                legal(v, m) && r == state_text(
                    apply(v, m),
                    keys.push(hash(apply(v, m))),
                    Some(m.uci()),
                ) && chosen_within(s, stop, v, movetime, m)
        }),
{
    let v = line(start_view(), names)->0;
    let keys = trail(start_view(), names);
    law_answers_tell_the_status(v, keys, None);
    if wanted && status_of(v, keys) == Status::Ongoing {
        let f = choose|f: Found| #[trigger]
            finds(s.net, s.mind(), v, reply_limits(movetime), stop, f) && r == answer_with(
                v,
                keys,
                f.best_move,
            ) && after == f.mind;
        assert(legal(v, f.best_move));
        assert(chosen_within(s, stop, v, movetime, f.best_move));
    }
}

/// The move is the one that a search within the given time finds best.
pub open spec fn chosen_within<N: Network>(
    s: Searcher<N>,
    stop: &Arc<AtomicBool>,
    v: PosView,
    movetime: u64,
    m: Move,
) -> bool {
    exists|l: SearchLimits, f: Found| #[trigger]
        finds(s.net, s.mind(), v, l, stop, f) && f.best_move == m && l.movetime_ms == Some(movetime)
            && l.depth is None && l.nodes is None
}

/// The engine thinks for as long as it is asked to, within a twentieth of a second and
/// five seconds, and for half a second if no number is given.
pub proof fn law_thinking_times(n: u64, value: Seq<char>)
    ensures
        50 <= movetime_of(Some(value)) <= 5000,
        50 <= n <= 5000 ==> movetime_of(Some(dec(n as nat))) == n,
        n < 50 ==> movetime_of(Some(dec(n as nat))) == 50,
        n > 5000 ==> movetime_of(Some(dec(n as nat))) == 5000,
        movetime_of(None) == 500,
        parse_dec(value, u64::MAX as int) is None ==> movetime_of(Some(value)) == 500,
        reply_limits(n).budget(Color::White) == Some(n as int),
        reply_limits(n).budget(Color::Black) == Some(n as int),
{
    text::law_decimal_round_trip(n as nat, u64::MAX as int);
}

/// Moves that are joined by commas are read as these moves.
pub proof fn law_moves_are_read(names: Seq<Seq<char>>)
    requires
        forall|k: int, i: int|
            0 <= k < names.len() && 0 <= i < names[k].len() ==> #[trigger] names[k][i] != ',',
        forall|k: int| 0 <= k < names.len() ==> (#[trigger] names[k]).len() > 0,
    ensures
        moves_of(Some(text::joined(names, ',', names.len() as int))) == names,
        moves_of(None) == Seq::<Seq<char>>::empty(),
{
    let n = names.len() as int;
    if n == 0 {
        let t = text::joined(names, ',', 0);
        text::law_pieces_of_two_texts(t, ',', t);
        let ps = pieces(t, ',');
        assert(ps.len() == 1 && ps[0].len() == 0);
        reveal_with_fuel(filled, 2);
        assert(moves_of(Some(t)) =~= names);
    } else {
        text::law_joined_texts_are_split(names, ',', n);
        assert(names.take(n) =~= names);
        lemma_filled(names, n);
    }
}

proof fn lemma_filled(v: Seq<Seq<char>>, n: int)
    requires
        0 <= n <= v.len(),
        forall|k: int| 0 <= k < n ==> (#[trigger] v[k]).len() > 0,
    ensures
        filled(v, n) == v.take(n),
    decreases n,
{
    if n > 0 {
        lemma_filled(v, n - 1);
        assert(v[n - 1].len() > 0);
        assert(v.take(n) =~= v.take(n - 1).push(v[n - 1]));
    } else {
        assert(v.take(0) =~= seq![]);
    }
}

/// Of several values for one key of a form the last counts.
pub proof fn law_the_last_value_counts(a: Seq<char>, b: Seq<char>, key: Seq<char>)
    ensures
        form_value(a + seq!['&'] + b, key) == (match form_value(b, key) {
            Some(x) => Some(x),
            None => form_value(a, key),
        }),
{
    text::law_pieces_of_two_texts(a, '&', b);
    lemma_value_among(pieces(a, '&'), pieces(b, '&'), key, pieces(b, '&').len() as int);
}

/// A key, an equals sign and a value are the value of that key and of no other.
pub proof fn law_pairs_are_read(name: Seq<char>, value: Seq<char>, key: Seq<char>)
    requires
        forall|i: int| 0 <= i < name.len() ==> name[i] != '=' && name[i] != '&',
        forall|i: int| 0 <= i < value.len() ==> value[i] != '&',
    ensures
        form_value(name + seq!['='] + value, key) == (if key == name {
            Some(value)
        } else {
            None
        }),
{
    let p = name + seq!['='] + value;
    text::law_pieces_of_two_texts(p, '&', p);
    lemma_first_equals(name, value, 0);
    assert(p.take(name.len() as int) =~= name);
    assert(p.skip(name.len() as int + 1) =~= value);
    reveal_with_fuel(value_among, 2);
    assert(pieces(p, '&')[0] == p);
}

proof fn lemma_first_equals(name: Seq<char>, value: Seq<char>, i: int)
    requires
        forall|j: int| 0 <= j < name.len() ==> name[j] != '=',
        0 <= i <= name.len(),
    ensures
        find_from(name + seq!['='] + value, "="@, i) == Some(name.len() as int),
    decreases name.len() - i,
{
    reveal_strlit("=");
    let s = name + seq!['='] + value;
    if i < name.len() {
        assert(s.subrange(i, i + 1)[0] == name[i]);
        assert("="@[0] == '=');
        lemma_first_equals(name, value, i + 1);
    } else {
        assert(s.subrange(i, i + 1) =~= "="@);
    }
}

proof fn lemma_value_among(p: Seq<Seq<char>>, q: Seq<Seq<char>>, key: Seq<char>, n: int)
    requires
        0 <= n <= q.len(),
    ensures
        value_among(p + q, key, p.len() + n) == (match value_among(q, key, n) {
            Some(x) => Some(x),
            None => value_among(p, key, p.len() as int),
        }),
    decreases n,
{
    if n > 0 {
        lemma_value_among(p, q, key, n - 1);
        assert((p + q)[p.len() + n - 1] == q[n - 1]);
    } else {
        lemma_value_prefix(p, q, key, p.len() as int);
    }
}

proof fn lemma_value_prefix(p: Seq<Seq<char>>, q: Seq<Seq<char>>, key: Seq<char>, n: int)
    requires
        0 <= n <= p.len(),
    ensures
        value_among(p + q, key, n) == value_among(p, key, n),
    decreases n,
{
    if n > 0 {
        lemma_value_prefix(p, q, key, n - 1);
        assert((p + q)[n - 1] == p[n - 1]);
    }
}

// ---------------------------------------------------------------------------
// HTTP.
// ---------------------------------------------------------------------------

/// What a request is for.
#[derive(Clone, Copy, PartialEq, Eq, Structural, Debug)]
pub enum Route {
    /// The page with the board.
    Page,
    Icon,
    Play,
    Unknown,
}

/// What a request is for.
pub open spec fn route_of(method: Seq<char>, path: Seq<char>) -> Route {
    if method == "GET"@ && path == "/"@ {
        Route::Page
    } else if method == "GET"@ && path == "/favicon.ico"@ {
        Route::Icon
    } else if method == "POST"@ && path == "/api/play"@ {
        Route::Play
    } else {
        Route::Unknown
    }
}

/// Word number `i` of a line, or nothing.
pub open spec fn word_at(line: Seq<char>, i: int) -> Seq<char> {
    if i < words(line).len() {
        words(line)[i]
    } else {
        seq![]
    }
}

/// Decide from the first line of a request what it is for.
pub fn route(request_line: &str) -> (r: Route)
    ensures
        r == route_of(word_at(request_line@, 0), word_at(request_line@, 1)),
{
    let w = text::split_words(&text::chars_of(request_line));
    let ghost ws = words(request_line@);
    assert(ws.len() == w@.len());
    proof {
        reveal_strlit("GET");
        reveal_strlit("POST");
        reveal_strlit("/");
        reveal_strlit("/favicon.ico");
        reveal_strlit("/api/play");
        if w@.len() > 0 {
            assert(ws[0] == w@[0]@);
        }
        if w@.len() > 1 {
            assert(ws[1] == w@[1]@);
        }
    }
    if w.len() < 2 {
        assert(word_at(request_line@, 1).len() == 0);
        return Route::Unknown;
    }
    if text::same(&w[0], "GET") && text::same(&w[1], "/") {
        Route::Page
    } else if text::same(&w[0], "GET") && text::same(&w[1], "/favicon.ico") {
        Route::Icon
    } else if text::same(&w[0], "POST") && text::same(&w[1], "/api/play") {
        Route::Play
    } else {
        Route::Unknown
    }
}

impl Route {
    /// The status of the answer.
    pub open spec fn status_said(self) -> Seq<char> {
        match self {
            Route::Page => "200 OK"@,
            Route::Icon => "204 No Content"@,
            Route::Play => "200 OK"@,
            Route::Unknown => "404 Not Found"@,
        }
    }

    /// The status of the answer.
    pub fn status(self) -> (r: &'static str)
        ensures
            r@ == self.status_said(),
    {
        match self {
            Route::Page => "200 OK",
            Route::Icon => "204 No Content",
            Route::Play => "200 OK",
            Route::Unknown => "404 Not Found",
        }
    }

    /// What kind of text the answer is.
    pub open spec fn type_said(self) -> Seq<char> {
        match self {
            Route::Page => "text/html; charset=utf-8"@,
            Route::Icon => "text/plain"@,
            Route::Play => "application/json"@,
            Route::Unknown => "text/plain"@,
        }
    }

    /// What kind of text the answer is.
    pub fn content_type(self) -> (r: &'static str)
        ensures
            r@ == self.type_said(),
    {
        match self {
            Route::Page => "text/html; charset=utf-8",
            Route::Icon => "text/plain",
            Route::Play => "application/json",
            Route::Unknown => "text/plain",
        }
    }
}

/// The head of an answer.
pub open spec fn head_text(route: Route, length: nat) -> Seq<char> {
    "HTTP/1.1 "@ + route.status_said() + "\r\nContent-Type: "@ + route.type_said()
        + "\r\nContent-Length: "@ + dec(length) + "\r\nConnection: close\r\n\r\n"@
}

/// The head of an answer of `length` bytes.
pub fn format_head(route: Route, length: usize) -> (r: String)
    ensures
        r@ == head_text(route, length as nat),
{
    let mut out = text::copy("HTTP/1.1 ");
    text::push_str(&mut out, route.status());
    text::push_str(&mut out, "\r\nContent-Type: ");
    text::push_str(&mut out, route.content_type());
    text::push_str(&mut out, "\r\nContent-Length: ");
    text::push_u64(&mut out, length as u64);
    text::push_str(&mut out, "\r\nConnection: close\r\n\r\n");
    out
}

/// The length that a header line gives for the body; zero if it is no number.
pub open spec fn length_in(line: Seq<char>) -> Option<int> {
    let l = line.map_values(|c: char| lower(c));
    if text::starts_with(l, "content-length:"@) {
        Some(
            match parse_dec(trimmed(l.skip(15)), usize::MAX as int) {
                Some(n) => n,
                None => 0,
            },
        )
    } else {
        None
    }
}

/// Read the length that a header line gives for the body.
pub fn content_length(line: &str) -> (r: Option<usize>)
    ensures
        match r {
            Some(n) => length_in(line@) == Some(n as int),
            None => length_in(line@) is None,
        },
{
    proof {
        reveal_strlit("content-length:");
    }
    let cs = text::chars_of(line);
    let mut l: Vec<char> = Vec::new();
    let mut i: usize = 0;
    while i < cs.len()
        invariant
            i <= cs@.len(),
            l@.len() == i,
            forall|k: int| 0 <= k < i ==> #[trigger] l@[k] == lower(cs@[k]),
        decreases cs@.len() - i,
    {
        l.push(text::to_lower(cs[i]));
        i = i + 1;
    }
    assert(l@ =~= line@.map_values(|c: char| lower(c)));
    if !text::has_prefix(&l, "content-length:") {
        return None;
    }
    let end: usize = l.len();
    let rest = text::slice(&l, 15, end);
    assert(rest@ =~= l@.skip(15));
    match text::parse_number(&text::trim(&rest), usize::MAX as u64) {
        Some(n) => Some(n as usize),
        None => Some(0),
    }
}

/// Each byte stands for itself, but a plus sign for a space, and a percent sign with two
/// digits to the base sixteen for the byte of that number.
pub proof fn law_bytes_are_decoded(b: Seq<u8>, rest: Seq<u8>, n: u8)
    ensures
        b.len() > 0 && b[0] != 37 && b[0] != 43 ==> decoded(b, 0) == seq![b[0]] + decoded(
            b.skip(1),
            0,
        ),
        b.len() > 0 && b[0] == 43 ==> decoded(b, 0) == seq![32u8] + decoded(b.skip(1), 0),
        decoded(seq![37u8, upper_digit(n as int / 16), upper_digit(n as int % 16)] + rest, 0)
            == seq![n] + decoded(rest, 0),
{
    if b.len() > 0 {
        lemma_decoded_shift(b, 1, 1);
    }
    let e = seq![37u8, upper_digit(n as int / 16), upper_digit(n as int % 16)] + rest;
    assert(e[0] == 37 && e[1] == upper_digit(n as int / 16) && e[2] == upper_digit(n as int % 16));
    assert(e.skip(3) =~= rest);
    lemma_decoded_shift(e, 3, 3);
}

/// A digit to the base sixteen, from zero to nine and from A to F.
pub open spec fn upper_digit(n: int) -> u8 {
    if n < 10 {
        (48 + n) as u8
    } else {
        (55 + n) as u8
    }
}

/// The page, the icon and the game have their paths, each with its method; everything else
/// is not found.
pub proof fn law_routes(method: Seq<char>, path: Seq<char>)
    ensures
        route_of("GET"@, "/"@) == Route::Page,
        route_of("GET"@, "/favicon.ico"@) == Route::Icon,
        route_of("POST"@, "/api/play"@) == Route::Play,
        method != "POST"@ ==> route_of(method, path) != Route::Play,
        method != "GET"@ ==> route_of(method, path) != Route::Page && route_of(method, path)
            != Route::Icon,
        path != "/"@ && path != "/favicon.ico"@ && path != "/api/play"@ ==> route_of(method, path)
            == Route::Unknown,
        Route::Unknown.status_said() == "404 Not Found"@,
        Route::Play.type_said() == "application/json"@,
{
    reveal_strlit("GET");
    reveal_strlit("POST");
    reveal_strlit("/");
    reveal_strlit("/favicon.ico");
    reveal_strlit("/api/play");
    assert("GET"@.len() == 3 && "POST"@.len() == 4 && "/"@.len() == 1);
    assert("/favicon.ico"@.len() == 12 && "/api/play"@.len() == 9);
}

} // verus!
