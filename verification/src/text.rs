//! Text: characters, words and decimal numbers.

use vstd::prelude::*;

verus! {

/// `String::push` appends the character at the end of the string.
pub assume_specification[ String::push ](s: &mut String, c: char)
    ensures
        final(s)@ == old(s)@.push(c),
;

// ---------------------------------------------------------------------------
// Characters.
// ---------------------------------------------------------------------------

/// The characters of a string.
pub fn chars_of(s: &str) -> (r: Vec<char>)
    ensures
        r@ == s@,
{
    let mut out: Vec<char> = Vec::new();
    for c in it: s.chars()
        invariant
            it.seq() == s@,
            out@ == s@.take(it.index() as int),
    {
        out.push(c);
        assert(out@ =~= s@.take(it.index() as int + 1));
    }
    assert(out@ =~= s@);
    out
}

/// Append characters to a string.
pub fn push_all(out: &mut String, s: &Vec<char>)
    ensures
        final(out)@ == old(out)@ + s@,
{
    let mut i: usize = 0;
    while i < s.len()
        invariant
            i <= s@.len(),
            out@ == old(out)@ + s@.take(i as int),
        decreases s@.len() - i,
    {
        out.push(s[i]);
        i = i + 1;
        assert(out@ =~= old(out)@ + s@.take(i as int));
    }
    assert(s@.take(i as int) =~= s@);
}

/// Append a string to a string.
pub fn push_str(out: &mut String, s: &str)
    ensures
        final(out)@ == old(out)@ + s@,
{
    let cs = chars_of(s);
    push_all(out, &cs);
}

/// Do the characters spell the string?
pub fn same(a: &Vec<char>, b: &str) -> (r: bool)
    ensures
        r == (a@ == b@),
{
    let cs = chars_of(b);
    same_chars(a, &cs)
}

/// Are the two texts equal?
pub fn same_chars(a: &Vec<char>, b: &Vec<char>) -> (r: bool)
    ensures
        r == (a@ == b@),
{
    if a.len() != b.len() {
        return false;
    }
    let mut i: usize = 0;
    while i < a.len()
        invariant
            i <= a@.len(),
            a@.len() == b@.len(),
            forall|j: int| 0 <= j < i ==> a@[j] == b@[j],
        decreases a@.len() - i,
    {
        if a[i] != b[i] {
            assert(a@[i as int] != b@[i as int]);
            return false;
        }
        i = i + 1;
    }
    assert(a@ =~= b@);
    true
}

/// Part of a text.
pub fn slice(s: &Vec<char>, a: usize, b: usize) -> (r: Vec<char>)
    requires
        a <= b <= s@.len(),
    ensures
        r@ == s@.subrange(a as int, b as int),
{
    let mut out: Vec<char> = Vec::new();
    let mut i: usize = a;
    while i < b
        invariant
            a <= i <= b <= s@.len(),
            out@ == s@.subrange(a as int, i as int),
        decreases b - i,
    {
        out.push(s[i]);
        i = i + 1;
        assert(out@ =~= s@.subrange(a as int, i as int));
    }
    out
}

/// The characters that separate words: those with the Unicode property
/// `White_Space`.
pub open spec fn is_space(c: char) -> bool {
    ||| 0x09 <= c as u32 <= 0x0D
    ||| c as u32 == 0x20
    ||| c as u32 == 0x85
    ||| c as u32 == 0xA0
    ||| c as u32 == 0x1680
    ||| 0x2000 <= c as u32 <= 0x200A
    ||| c as u32 == 0x2028
    ||| c as u32 == 0x2029
    ||| c as u32 == 0x202F
    ||| c as u32 == 0x205F
    ||| c as u32 == 0x3000
}

/// Does the character separate words?
pub fn space(c: char) -> (r: bool)
    ensures
        r == is_space(c),
{
    let n: u32 = c as u32;
    (0x09 <= n && n <= 0x0D) || n == 0x20 || n == 0x85 || n == 0xA0 || n == 0x1680 || (0x2000 <= n
        && n <= 0x200A) || n == 0x2028 || n == 0x2029 || n == 0x202F || n == 0x205F || n == 0x3000
}

// ---------------------------------------------------------------------------
// Words.
// ---------------------------------------------------------------------------

/// Where the word that covers position `i` ends.
pub open spec fn word_end(s: Seq<char>, i: int) -> int
    decreases s.len() - i,
{
    if i >= s.len() || is_space(s[i]) {
        i
    } else {
        word_end(s, i + 1)
    }
}

/// The words of a text from position `i` on.
pub open spec fn words_from(s: Seq<char>, i: int) -> Seq<Seq<char>>
    decreases s.len() - i,
    when 0 <= i
    via words_from_decreases
{
    if i >= s.len() {
        seq![]
    } else if is_space(s[i]) {
        words_from(s, i + 1)
    } else {
        seq![s.subrange(i, word_end(s, i))] + words_from(s, word_end(s, i))
    }
}

#[via_fn]
proof fn words_from_decreases(s: Seq<char>, i: int) {
    if i < s.len() && !is_space(s[i]) {
        lemma_word_end(s, i);
    }
}

/// A word ends after it starts and within the text.
pub proof fn lemma_word_end(s: Seq<char>, i: int)
    requires
        0 <= i <= s.len(),
    ensures
        i <= word_end(s, i) <= s.len(),
        i < s.len() && !is_space(s[i]) ==> i < word_end(s, i),
        word_end(s, i) < s.len() ==> is_space(s[word_end(s, i)]),
        forall|j: int| i <= j < word_end(s, i) ==> !is_space(#[trigger] s[j]),
    decreases s.len() - i,
{
    if i < s.len() && !is_space(s[i]) {
        lemma_word_end(s, i + 1);
    }
}

/// The words of a text: its longest stretches without a separator.
pub open spec fn words(s: Seq<char>) -> Seq<Seq<char>> {
    words_from(s, 0)
}

/// The texts behind a vector of vectors.
pub open spec fn texts(v: Seq<Vec<char>>) -> Seq<Seq<char>> {
    v.map_values(|w: Vec<char>| w@)
}

/// Split a text into its words.
pub fn split_words(s: &Vec<char>) -> (r: Vec<Vec<char>>)
    ensures
        texts(r@) == words(s@),
{
    let mut out: Vec<Vec<char>> = Vec::new();
    let mut i: usize = 0;
    assert(texts(out@) + words_from(s@, 0) =~= words(s@));
    while i < s.len()
        invariant
            i <= s@.len(),
            texts(out@) + words_from(s@, i as int) == words(s@),
        decreases s@.len() - i,
    {
        if space(s[i]) {
            i = i + 1;
        } else {
            let mut e: usize = i;
            while e < s.len() && !space(s[e])
                invariant
                    i <= e <= s@.len(),
                    word_end(s@, e as int) == word_end(s@, i as int),
                decreases s@.len() - e,
            {
                e = e + 1;
            }
            proof {
                lemma_word_end(s@, i as int);
            }
            let ghost before = out@;
            let w = slice(s, i, e);
            out.push(w);
            proof {
                assert(texts(out@) =~= texts(before).push(w@));
                assert(words_from(s@, i as int) == seq![w@] + words_from(s@, e as int));
                assert(texts(out@) + words_from(s@, e as int) =~= texts(before) + (seq![w@]
                    + words_from(s@, e as int)));
            }
            i = e;
        }
    }
    assert(texts(out@) =~= words(s@));
    out
}

// ---------------------------------------------------------------------------
// Decimal numbers.
// ---------------------------------------------------------------------------

pub open spec fn is_digit(c: char) -> bool {
    '0' <= c <= '9'
}

pub open spec fn digit_value(c: char) -> int {
    c as int - 48
}

/// The digit for a number below ten.
pub open spec fn digit(n: int) -> char {
    (48 + n) as char
}

/// A number in decimal notation.
pub open spec fn dec(n: nat) -> Seq<char>
    decreases n,
{
    if n < 10 {
        seq![digit(n as int)]
    } else {
        dec(n / 10).push(digit((n % 10) as int))
    }
}

/// A number with a sign in front if it is negative.
pub open spec fn dec_int(n: int) -> Seq<char> {
    if n < 0 {
        seq!['-'] + dec((-n) as nat)
    } else {
        dec(n as nat)
    }
}

/// The number that digits stand for.
pub open spec fn dec_value(s: Seq<char>) -> int
    decreases s.len(),
{
    if s.len() == 0 {
        0
    } else {
        10 * dec_value(s.drop_last()) + digit_value(s.last())
    }
}

/// The text consists of one or more digits.
pub open spec fn all_digits(s: Seq<char>) -> bool {
    s.len() > 0 && forall|i: int| 0 <= i < s.len() ==> is_digit(#[trigger] s[i])
}

/// The number that a text stands for, if it is digits after at most one plus
/// sign and the number is at most `max`.
pub open spec fn parse_dec(s: Seq<char>, max: int) -> Option<int> {
    let d = if s.len() > 0 && s[0] == '+' {
        s.skip(1)
    } else {
        s
    };
    if all_digits(d) && dec_value(d) <= max {
        Some(dec_value(d))
    } else {
        None
    }
}

/// Append a number in decimal notation.
pub fn push_u64(out: &mut String, n: u64)
    ensures
        final(out)@ == old(out)@ + dec(n as nat),
    decreases n,
{
    if n >= 10 {
        push_u64(out, n / 10);
    }
    let d: u8 = (n % 10) as u8;
    out.push((48 + d) as char);
    assert(out@ =~= old(out)@ + dec(n as nat));
}

/// Append a number in decimal notation, with a sign in front if it is negative.
pub fn push_i32(out: &mut String, n: i32)
    ensures
        final(out)@ == old(out)@ + dec_int(n as int),
{
    if n < 0 {
        out.push('-');
        let m: u64 = (-(n as i64)) as u64;
        push_u64(out, m);
        assert(out@ =~= old(out)@ + dec_int(n as int));
    } else {
        push_u64(out, n as u64);
    }
}

/// Digits never stand for a negative number.
pub proof fn lemma_dec_value_bound(s: Seq<char>)
    requires
        forall|i: int| 0 <= i < s.len() ==> is_digit(#[trigger] s[i]),
    ensures
        dec_value(s) >= 0,
    decreases s.len(),
{
    if s.len() > 0 {
        let t = s.drop_last();
        assert forall|i: int| 0 <= i < t.len() implies is_digit(#[trigger] t[i]) by {
            assert(t[i] == s[i]);
        }
        lemma_dec_value_bound(t);
    }
}

/// A longer row of digits stands for no smaller a number.
proof fn lemma_dec_value_grows(s: Seq<char>, k: int)
    requires
        0 <= k <= s.len(),
        forall|i: int| 0 <= i < s.len() ==> is_digit(#[trigger] s[i]),
    ensures
        dec_value(s.take(k)) <= dec_value(s),
    decreases s.len() - k,
{
    if k < s.len() {
        let t = s.take(k + 1);
        lemma_dec_value_grows(s, k + 1);
        assert(t.drop_last() =~= s.take(k));
        assert(t.last() == s[k]);
        assert forall|i: int| 0 <= i < k implies is_digit(#[trigger] s.take(k)[i]) by {
            assert(s.take(k)[i] == s[i]);
        }
        lemma_dec_value_bound(s.take(k));
    } else {
        assert(s.take(k) =~= s);
    }
}

/// Read a number of at most `max`.
pub fn parse_number(s: &Vec<char>, max: u64) -> (r: Option<u64>)
    ensures
        match r {
            Some(n) => parse_dec(s@, max as int) == Some(n as int),
            None => parse_dec(s@, max as int) is None,
        },
{
    let start: usize = if s.len() > 0 && s[0] == '+' {
        1
    } else {
        0
    };
    let ghost d = s@.skip(start as int);
    assert(start == 0 ==> d =~= s@);
    if start == s.len() {
        return None;
    }
    let mut n: u64 = 0;
    let mut i: usize = start;
    assert(d.take(0).len() == 0);
    while i < s.len()
        invariant
            start <= i <= s@.len(),
            start < s@.len(),
            d == s@.skip(start as int),
            n <= max,
            n == dec_value(d.take(i - start)),
            forall|j: int| 0 <= j < i - start ==> is_digit(#[trigger] d[j]),
            parse_dec(s@, max as int) == (if all_digits(d) && dec_value(d) <= max {
                Some(dec_value(d))
            } else {
                None
            }),
        decreases s@.len() - i,
    {
        let c: char = s[i];
        proof {
            assert(d[i - start] == c);
            assert(d.take(i - start + 1).drop_last() =~= d.take(i - start));
            assert(d.take(i - start + 1).last() == c);
        }
        if !('0' <= c && c <= '9') {
            return None;
        }
        let v: u64 = (c as u32 - 48) as u64;
        let big: u128 = 10 * (n as u128) + v as u128;
        if big > max as u128 {
            proof {
                if all_digits(d) {
                    lemma_dec_value_grows(d, i - start + 1);
                }
            }
            return None;
        }
        n = big as u64;
        i = i + 1;
    }
    proof {
        assert(d.take(i - start) =~= d);
    }
    Some(n)
}

/// Decimal notation consists of digits.
pub proof fn lemma_dec_digits(n: nat)
    ensures
        all_digits(dec(n)),
        is_field(dec(n)),
    decreases n,
{
    if n >= 10 {
        lemma_dec_digits(n / 10);
    }
}

/// Reading what was written gives the number back.
pub proof fn law_decimal_round_trip(n: nat, max: int)
    requires
        n <= max,
    ensures
        parse_dec(dec(n), max) == Some(n as int),
{
    lemma_dec_digits(n);
    lemma_dec_value(n);
}

proof fn lemma_dec_value(n: nat)
    ensures
        dec_value(dec(n)) == n,
    decreases n,
{
    if n < 10 {
        assert(dec(n).drop_last() =~= Seq::<char>::empty());
        assert(dec_value(dec(n).drop_last()) == 0);
    } else {
        lemma_dec_value(n / 10);
        assert(dec(n).drop_last() =~= dec(n / 10));
    }
}

/// The words from a position on are the words of the rest of the text.
pub proof fn lemma_words_shift(s: Seq<char>, i: int, k: int)
    requires
        0 <= k <= i <= s.len(),
    ensures
        words_from(s, i) == words_from(s.skip(k), i - k),
        word_end(s, i) == word_end(s.skip(k), i - k) + k,
    decreases s.len() - i,
{
    let t = s.skip(k);
    if i < s.len() {
        assert(t[i - k] == s[i]);
        lemma_words_shift(s, i + 1, k);
        if !is_space(s[i]) {
            lemma_word_end(s, i);
            lemma_words_shift(s, word_end(s, i), k);
            assert(s.subrange(i, word_end(s, i)) =~= t.subrange(i - k, word_end(t, i - k)));
        }
    }
}

/// A text without separators that is not empty.
pub open spec fn is_word(w: Seq<char>) -> bool {
    w.len() > 0 && forall|i: int| 0 <= i < w.len() ==> !is_space(#[trigger] w[i])
}

/// A character from the minus sign to the small z, which is no separator.
pub open spec fn is_plain(c: char) -> bool {
    45 <= c as u32 <= 122
}

/// A text of plain characters that is not empty.
pub open spec fn is_field(w: Seq<char>) -> bool {
    w.len() > 0 && forall|i: int| 0 <= i < w.len() ==> is_plain(#[trigger] w[i])
}

/// A text of plain characters has no separators.
pub proof fn lemma_field_is_word(w: Seq<char>)
    requires
        is_field(w),
    ensures
        is_word(w),
{
    assert forall|i: int| 0 <= i < w.len() implies !is_space(#[trigger] w[i]) by {
        assert(is_plain(w[i]));
    }
}

/// A word at the end of a text.
pub proof fn lemma_words_one(w: Seq<char>)
    requires
        is_word(w),
    ensures
        words(w) == seq![w],
{
    lemma_word_end(w, 0);
    assert(word_end(w, 0) == w.len()) by {
        if word_end(w, 0) < w.len() {
            assert(is_space(w[word_end(w, 0)]));
        }
    }
    assert(w.subrange(0, w.len() as int) =~= w);
    assert(words_from(w, w.len() as int) =~= Seq::<Seq<char>>::empty());
    assert(words(w) =~= seq![w]);
}

/// A word, a space and the rest of a text.
pub proof fn lemma_words_cons(w: Seq<char>, rest: Seq<char>)
    requires
        is_word(w),
    ensures
        words(w + seq![' '] + rest) == seq![w] + words(rest),
{
    let s = w + seq![' '] + rest;
    let n = w.len() as int;
    lemma_word_end(s, 0);
    assert(s[n] == ' ');
    assert(word_end(s, 0) == n) by {
        if word_end(s, 0) < n {
            assert(s[word_end(s, 0)] == w[word_end(s, 0)]);
        }
        if word_end(s, 0) > n {
            assert(!is_space(s[n]));
        }
    }
    assert(s[0] == w[0]);
    assert(s.subrange(0, n) =~= w);
    assert(words_from(s, n) == words_from(s, n + 1));
    lemma_words_shift(s, n + 1, n + 1);
    assert(s.skip(n + 1) =~= rest);
}

// ---------------------------------------------------------------------------
// Parts of texts.
// ---------------------------------------------------------------------------

/// The position of the first character from `i` on that is no separator.
pub open spec fn skip_spaces(s: Seq<char>, i: int) -> int
    decreases s.len() - i,
{
    if 0 <= i < s.len() && is_space(s[i]) {
        skip_spaces(s, i + 1)
    } else {
        i
    }
}

/// The position after the last character before `n` that is no separator.
pub open spec fn drop_spaces(s: Seq<char>, n: int) -> int
    decreases n,
{
    if 0 < n <= s.len() && is_space(s[n - 1]) {
        drop_spaces(s, n - 1)
    } else {
        n
    }
}

/// The text without separators at its start.
pub open spec fn trimmed_start(s: Seq<char>) -> Seq<char> {
    s.skip(skip_spaces(s, 0))
}

/// The text without separators at its end.
pub open spec fn trimmed_end(s: Seq<char>) -> Seq<char> {
    s.take(drop_spaces(s, s.len() as int))
}

/// The text without separators at its ends.
pub open spec fn trimmed(s: Seq<char>) -> Seq<char> {
    trimmed_end(trimmed_start(s))
}

/// The text starts with `p`.
pub open spec fn starts_with(s: Seq<char>, p: Seq<char>) -> bool {
    p.len() <= s.len() && s.take(p.len() as int) == p
}

/// `p` stands in the text at position `i`.
pub open spec fn stands_at(s: Seq<char>, p: Seq<char>, i: int) -> bool {
    0 <= i && i + p.len() <= s.len() && s.subrange(i, i + p.len()) == p
}

/// The first position from `i` on at which `p` stands in the text.
pub open spec fn find_from(s: Seq<char>, p: Seq<char>, i: int) -> Option<int>
    decreases s.len() - i + 1,
{
    if i < 0 || i + p.len() > s.len() {
        None
    } else if stands_at(s, p, i) {
        Some(i)
    } else {
        find_from(s, p, i + 1)
    }
}

/// A letter from A to Z as the small letter, other characters as they are.
pub open spec fn lower(c: char) -> char {
    if 'A' <= c <= 'Z' {
        (c as u32 + 32) as char
    } else {
        c
    }
}

/// The texts are equal but for the case of the letters from A to Z.
pub open spec fn same_ignoring_case(a: Seq<char>, b: Seq<char>) -> bool {
    a.len() == b.len() && forall|i: int| 0 <= i < a.len() ==> lower(#[trigger] a[i]) == lower(b[i])
}

/// The text without separators at its start.
pub fn trim_start(s: &Vec<char>) -> (r: Vec<char>)
    ensures
        r@ == trimmed_start(s@),
{
    let mut i: usize = 0;
    while i < s.len() && space(s[i])
        invariant
            i <= s@.len(),
            skip_spaces(s@, i as int) == skip_spaces(s@, 0),
        decreases s@.len() - i,
    {
        i = i + 1;
    }
    let r = slice(s, i, s.len());
    assert(r@ =~= trimmed_start(s@));
    r
}

/// The text without separators at its ends.
pub fn trim(s: &Vec<char>) -> (r: Vec<char>)
    ensures
        r@ == trimmed(s@),
{
    let t = trim_start(s);
    let mut n: usize = t.len();
    while n > 0 && space(t[n - 1])
        invariant
            n <= t@.len(),
            drop_spaces(t@, n as int) == drop_spaces(t@, t@.len() as int),
        decreases n,
    {
        n = n - 1;
    }
    let r = slice(&t, 0, n);
    assert(r@ =~= trimmed_end(t@));
    r
}

/// Does `p` stand in the text at a position?
fn is_at(s: &Vec<char>, p: &Vec<char>, i: usize) -> (r: bool)
    requires
        i + p@.len() <= s@.len(),
    ensures
        r == stands_at(s@, p@, i as int),
{
    let mut k: usize = 0;
    let n: usize = s.len();
    while k < p.len()
        invariant
            n == s@.len(),
            i + p@.len() <= n,
            k <= p@.len(),
            forall|j: int| 0 <= j < k ==> s@[i + j] == p@[j],
        decreases p@.len() - k,
    {
        if s[i + k] != p[k] {
            assert(s@.subrange(i as int, i + p@.len())[k as int] != p@[k as int]);
            return false;
        }
        k = k + 1;
    }
    assert(s@.subrange(i as int, i + p@.len()) =~= p@);
    true
}

/// Does the text start with `p`?
pub fn has_prefix(s: &Vec<char>, p: &str) -> (r: bool)
    ensures
        r == starts_with(s@, p@),
{
    let cs = chars_of(p);
    if cs.len() > s.len() {
        return false;
    }
    let r = is_at(s, &cs, 0);
    assert(s@.subrange(0, cs@.len() as int) =~= s@.take(cs@.len() as int));
    r
}

/// The first position at which `p` stands in the text.
pub fn find(s: &Vec<char>, p: &str) -> (r: Option<usize>)
    ensures
        match r {
            Some(i) => find_from(s@, p@, 0) == Some(i as int) && i + p@.len() <= s@.len(),
            None => find_from(s@, p@, 0) is None,
        },
{
    let cs = chars_of(p);
    if cs.len() > s.len() {
        return None;
    }
    let last: usize = s.len() - cs.len();
    let mut i: usize = 0;
    while i <= last
        invariant
            cs@ == p@,
            last == s@.len() - p@.len(),
            last < usize::MAX || i <= last,
            i <= last + 1,
            find_from(s@, p@, i as int) == find_from(s@, p@, 0),
        decreases last + 1 - i,
    {
        if is_at(s, &cs, i) {
            return Some(i);
        }
        if i == last {
            assert(find_from(s@, p@, i as int + 1) is None);
            return None;
        }
        i = i + 1;
    }
    None
}

/// A letter from A to Z as the small letter, other characters as they are.
pub fn to_lower(c: char) -> (r: char)
    ensures
        r == lower(c),
{
    if 'A' <= c && c <= 'Z' {
        (c as u8 + 32) as char
    } else {
        c
    }
}

/// Are the texts equal but for the case of the letters from A to Z?
pub fn same_word(a: &Vec<char>, b: &str) -> (r: bool)
    ensures
        r == same_ignoring_case(a@, b@),
{
    let cs = chars_of(b);
    if a.len() != cs.len() {
        return false;
    }
    let mut i: usize = 0;
    while i < a.len()
        invariant
            i <= a@.len(),
            cs@ == b@,
            a@.len() == cs@.len(),
            forall|j: int| 0 <= j < i ==> lower(#[trigger] a@[j]) == lower(cs@[j]),
        decreases a@.len() - i,
    {
        if to_lower(a[i]) != to_lower(cs[i]) {
            assert(lower(a@[i as int]) != lower(cs@[i as int]));
            return false;
        }
        i = i + 1;
    }
    true
}

/// The characters as a string.
pub fn to_text(s: &Vec<char>) -> (r: String)
    ensures
        r@ == s@,
{
    let mut out = String::new();
    push_all(&mut out, s);
    assert(out@ =~= s@);
    out
}

/// A second string with the same text.
pub fn copy(s: &str) -> (r: String)
    ensures
        r@ == s@,
{
    let mut out = String::new();
    push_str(&mut out, s);
    assert(out@ =~= s@);
    out
}

/// The texts behind strings.
pub open spec fn strings(v: Seq<String>) -> Seq<Seq<char>> {
    v.map_values(|s: String| s@)
}

/// The text of a string that may be absent.
pub open spec fn maybe(s: Option<String>) -> Option<Seq<char>> {
    match s {
        Some(t) => Some(t@),
        None => None,
    }
}

/// The first `n` texts, with `sep` between them.
pub open spec fn joined(v: Seq<Seq<char>>, sep: char, n: int) -> Seq<char>
    decreases n,
{
    if n <= 0 {
        seq![]
    } else if n == 1 {
        v[0]
    } else {
        joined(v, sep, n - 1) + seq![sep] + v[n - 1]
    }
}

/// Append strings with `sep` between them.
pub fn push_joined(out: &mut String, v: &Vec<String>, sep: char)
    ensures
        final(out)@ == old(out)@ + joined(strings(v@), sep, v@.len() as int),
{
    let mut i: usize = 0;
    assert(out@ =~= old(out)@ + joined(strings(v@), sep, 0));
    while i < v.len()
        invariant
            i <= v@.len(),
            out@ == old(out)@ + joined(strings(v@), sep, i as int),
        decreases v@.len() - i,
    {
        if i > 0 {
            out.push(sep);
        }
        assert(strings(v@)[i as int] == v@[i as int]@);
        push_str(out, v[i].as_str());
        i = i + 1;
        assert(out@ =~= old(out)@ + joined(strings(v@), sep, i as int));
    }
}

/// The words of two texts with a space between them, from a position of the first on.
proof fn lemma_words_apart_from(a: Seq<char>, b: Seq<char>, i: int)
    requires
        0 <= i <= a.len(),
    ensures
        words_from(a + seq![' '] + b, i) == words_from(a, i) + words(b),
    decreases a.len() - i,
{
    let s = a + seq![' '] + b;
    let n = a.len() as int;
    assert(s[n] == ' ');
    if i == n {
        lemma_words_shift(s, n + 1, n + 1);
        assert(s.skip(n + 1) =~= b);
        assert(words_from(s, n) == words_from(s, n + 1));
        assert(words_from(a, n) =~= Seq::<Seq<char>>::empty());
        assert(Seq::<Seq<char>>::empty() + words(b) =~= words(b));
    } else if is_space(a[i]) {
        assert(s[i] == a[i]);
        lemma_words_apart_from(a, b, i + 1);
    } else {
        assert(s[i] == a[i]);
        lemma_word_end(a, i);
        lemma_word_end(s, i);
        let e = word_end(a, i);
        assert(word_end(s, i) == e) by {
            if word_end(s, i) < e {
                assert(s[word_end(s, i)] == a[word_end(s, i)]);
            }
            if word_end(s, i) > e {
                assert(!is_space(s[e]));
                assert(e < n ==> s[e] == a[e]);
            }
        }
        lemma_words_apart_from(a, b, e);
        assert(s.subrange(i, e) =~= a.subrange(i, e));
        assert(words_from(s, i) =~= words_from(a, i) + words(b));
    }
}

/// The words of two texts with a space between them are those of the first and those
/// of the second.
pub proof fn law_words_of_two_texts(a: Seq<char>, b: Seq<char>)
    ensures
        words(a + seq![' '] + b) == words(a) + words(b),
{
    lemma_words_apart_from(a, b, 0);
}

/// The words of texts that are words and stand apart.
pub proof fn lemma_words_joined(v: Seq<Seq<char>>, n: int)
    requires
        0 <= n <= v.len(),
        forall|i: int| 0 <= i < n ==> is_word(#[trigger] v[i]),
    ensures
        words(joined(v, ' ', n)) == v.take(n),
    decreases n,
{
    if n == 0 {
        assert(words(joined(v, ' ', n)) =~= v.take(n));
    } else if n == 1 {
        lemma_words_one(v[0]);
        assert(v.take(1) =~= seq![v[0]]);
    } else {
        lemma_words_joined(v, n - 1);
        law_words_of_two_texts(joined(v, ' ', n - 1), v[n - 1]);
        lemma_words_one(v[n - 1]);
        assert(v.take(n) =~= v.take(n - 1) + seq![v[n - 1]]);
    }
}

/// Separators at the start of a text make no difference to its words.
pub proof fn lemma_words_trimmed_start(s: Seq<char>, i: int)
    requires
        0 <= i <= s.len(),
    ensures
        i <= skip_spaces(s, i) <= s.len(),
        words_from(s, i) == words_from(s, skip_spaces(s, i)),
        i == 0 ==> words(trimmed_start(s)) == words(s),
        skip_spaces(s, i) < s.len() ==> !is_space(s[skip_spaces(s, i)]),
    decreases s.len() - i,
{
    if i < s.len() && is_space(s[i]) {
        lemma_words_trimmed_start(s, i + 1);
    }
    if i == 0 {
        lemma_words_shift(s, skip_spaces(s, 0), skip_spaces(s, 0));
    }
}

// ---------------------------------------------------------------------------
// Pieces.
// ---------------------------------------------------------------------------

/// The pieces between separators of the text from `a` on, where no separator
/// stands from `a` up to `j`.
pub open spec fn pieces_from(s: Seq<char>, sep: char, a: int, j: int) -> Seq<Seq<char>>
    decreases s.len() - j,
{
    if j >= s.len() {
        seq![s.subrange(a, s.len() as int)]
    } else if s[j] == sep {
        seq![s.subrange(a, j)] + pieces_from(s, sep, j + 1, j + 1)
    } else {
        pieces_from(s, sep, a, j + 1)
    }
}

/// The pieces of a text between separators; there is always at least one.
pub open spec fn pieces(s: Seq<char>, sep: char) -> Seq<Seq<char>> {
    pieces_from(s, sep, 0, 0)
}

/// Split a text at each separator.
pub fn split_at(s: &Vec<char>, sep: char) -> (r: Vec<Vec<char>>)
    ensures
        texts(r@) == pieces(s@, sep),
        r@.len() >= 1,
{
    let mut out: Vec<Vec<char>> = Vec::new();
    let mut a: usize = 0;
    let mut j: usize = 0;
    assert(texts(out@) + pieces_from(s@, sep, 0, 0) =~= pieces(s@, sep));
    while j < s.len()
        invariant
            a <= j <= s@.len(),
            texts(out@) + pieces_from(s@, sep, a as int, j as int) == pieces(s@, sep),
        decreases s@.len() - j,
    {
        if s[j] == sep {
            let ghost before = out@;
            let piece = slice(s, a, j);
            out.push(piece);
            proof {
                let rest = pieces_from(s@, sep, j as int + 1, j as int + 1);
                assert(texts(out@) =~= texts(before).push(piece@));
                assert(texts(before) + (seq![piece@] + rest) =~= texts(out@) + rest);
            }
            a = j + 1;
        }
        j = j + 1;
    }
    let ghost before = out@;
    let piece = slice(s, a, s.len());
    out.push(piece);
    proof {
        assert(texts(out@) =~= texts(before).push(piece@));
        assert(texts(before) + seq![piece@] =~= texts(out@));
    }
    out
}

/// A text without the separator is one piece.
pub proof fn lemma_pieces_one(s: Seq<char>, sep: char, a: int, j: int)
    requires
        0 <= a <= j <= s.len(),
        forall|i: int| j <= i < s.len() ==> s[i] != sep,
    ensures
        pieces_from(s, sep, a, j) == seq![s.subrange(a, s.len() as int)],
    decreases s.len() - j,
{
    if j < s.len() {
        lemma_pieces_one(s, sep, a, j + 1);
    }
}

/// The pieces from a position on are the pieces of the rest of the text.
proof fn lemma_pieces_shift(s: Seq<char>, sep: char, a: int, j: int, k: int)
    requires
        0 <= k <= a <= j <= s.len(),
    ensures
        pieces_from(s, sep, a, j) == pieces_from(s.skip(k), sep, a - k, j - k),
    decreases s.len() - j,
{
    let t = s.skip(k);
    if j < s.len() {
        assert(t[j - k] == s[j]);
        assert(s.subrange(a, j) =~= t.subrange(a - k, j - k));
        if s[j] == sep {
            lemma_pieces_shift(s, sep, j + 1, j + 1, k);
        } else {
            lemma_pieces_shift(s, sep, a, j + 1, k);
        }
    } else {
        assert(s.subrange(a, s.len() as int) =~= t.subrange(a - k, t.len() as int));
    }
}

/// A piece, a separator and the rest of a text.
pub proof fn lemma_pieces_cons(p: Seq<char>, sep: char, rest: Seq<char>, j: int)
    requires
        forall|i: int| 0 <= i < p.len() ==> p[i] != sep,
        0 <= j <= p.len(),
    ensures
        pieces_from(p + seq![sep] + rest, sep, 0, j) == seq![p] + pieces(rest, sep),
    decreases p.len() - j,
{
    let s = p + seq![sep] + rest;
    if j < p.len() {
        assert(s[j] == p[j]);
        lemma_pieces_cons(p, sep, rest, j + 1);
    } else {
        let n = p.len() as int;
        assert(s[n] == sep);
        assert(s.subrange(0, n) =~= p);
        lemma_pieces_shift(s, sep, n + 1, n + 1, n + 1);
        assert(s.skip(n + 1) =~= rest);
    }
}

/// The pieces of two texts with a separator between them, from a position of the first on.
proof fn lemma_pieces_apart(a: Seq<char>, sep: char, b: Seq<char>, i: int, j: int)
    requires
        0 <= i <= j <= a.len(),
    ensures
        pieces_from(a + seq![sep] + b, sep, i, j) == pieces_from(a, sep, i, j) + pieces(b, sep),
    decreases a.len() - j,
{
    let s = a + seq![sep] + b;
    let n = a.len() as int;
    if j == n {
        assert(s[n] == sep);
        assert(s.subrange(i, n) =~= a.subrange(i, n));
        lemma_pieces_shift(s, sep, n + 1, n + 1, n + 1);
        assert(s.skip(n + 1) =~= b);
    } else {
        assert(s[j] == a[j]);
        if a[j] == sep {
            lemma_pieces_apart(a, sep, b, j + 1, j + 1);
            assert(s.subrange(i, j) =~= a.subrange(i, j));
            assert(seq![a.subrange(i, j)] + (pieces_from(a, sep, j + 1, j + 1) + pieces(b, sep))
                =~= seq![a.subrange(i, j)] + pieces_from(a, sep, j + 1, j + 1) + pieces(b, sep));
        } else {
            lemma_pieces_apart(a, sep, b, i, j + 1);
        }
    }
}

/// The pieces of two texts with a separator between them are those of the first and those
/// of the second; a text without a separator is its only piece.
pub proof fn law_pieces_of_two_texts(a: Seq<char>, sep: char, b: Seq<char>)
    ensures
        pieces(a + seq![sep] + b, sep) == pieces(a, sep) + pieces(b, sep),
        (forall|i: int| 0 <= i < a.len() ==> a[i] != sep) ==> pieces(a, sep) == seq![a],
{
    lemma_pieces_apart(a, sep, b, 0, 0);
    if forall|i: int| 0 <= i < a.len() ==> a[i] != sep {
        lemma_pieces_one(a, sep, 0, 0);
        assert(a.subrange(0, a.len() as int) =~= a);
    }
}

/// Joining texts without separators and splitting them again gives the texts back.
pub proof fn law_joined_texts_are_split(v: Seq<Seq<char>>, sep: char, n: int)
    requires
        1 <= n <= v.len(),
        forall|k: int, i: int| 0 <= k < n && 0 <= i < v[k].len() ==> #[trigger] v[k][i] != sep,
    ensures
        pieces(joined(v, sep, n), sep) == v.take(n),
    decreases n,
{
    law_pieces_of_two_texts(v[n - 1], sep, v[n - 1]);
    if n == 1 {
        assert(v.take(1) =~= seq![v[0]]);
    } else {
        law_joined_texts_are_split(v, sep, n - 1);
        law_pieces_of_two_texts(joined(v, sep, n - 1), sep, v[n - 1]);
        assert(v.take(n) =~= v.take(n - 1) + seq![v[n - 1]]);
    }
}

// ---------------------------------------------------------------------------
// Texts with separators around them.
// ---------------------------------------------------------------------------

/// All characters are separators.
pub open spec fn all_spaces(s: Seq<char>) -> bool {
    forall|i: int| 0 <= i < s.len() ==> is_space(#[trigger] s[i])
}

proof fn lemma_skip_to(s: Seq<char>, i: int, n: int)
    requires
        0 <= i <= n < s.len(),
        forall|k: int| i <= k < n ==> is_space(#[trigger] s[k]),
        !is_space(s[n]),
    ensures
        skip_spaces(s, i) == n,
    decreases n - i,
{
    if i < n {
        lemma_skip_to(s, i + 1, n);
    }
}

proof fn lemma_drop_to(s: Seq<char>, i: int, n: int)
    requires
        0 < n <= i <= s.len(),
        forall|k: int| n <= k < i ==> is_space(#[trigger] s[k]),
        !is_space(s[n - 1]),
    ensures
        drop_spaces(s, i) == n,
    decreases i - n,
{
    if n < i {
        lemma_drop_to(s, i - 1, n);
    }
}

/// Trimming takes away what is around a text that neither starts nor ends with
/// a separator.
pub proof fn lemma_trimmed(a: Seq<char>, b: Seq<char>, c: Seq<char>)
    requires
        all_spaces(a),
        all_spaces(c),
        b.len() > 0,
        !is_space(b[0]),
        !is_space(b.last()),
    ensures
        trimmed(a + b + c) == b,
{
    let s = a + b + c;
    let n = a.len() as int;
    assert(s[n] == b[0]);
    assert forall|k: int| 0 <= k < n implies is_space(#[trigger] s[k]) by {
        assert(s[k] == a[k]);
    }
    lemma_skip_to(s, 0, n);
    let t = trimmed_start(s);
    assert(t =~= b + c);
    let m = b.len() as int;
    assert(t[m - 1] == b.last());
    assert forall|k: int| m <= k < t.len() implies is_space(#[trigger] t[k]) by {
        assert(t[k] == c[k - m]);
    }
    lemma_drop_to(t, t.len() as int, m);
    assert(t.take(m) =~= b);
}

} // verus!
