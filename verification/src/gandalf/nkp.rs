//! Reading patches from `.nkp` files rather than from Rust.
//!
//! A patch is data: some bytes to look for and some bytes to put there. A file
//! keeps the bytes and the reasoning behind them together.
//!
//! # The format
//!
//! ```text
//! # Everything after a hash is a comment, and that is where the case for the
//! # patch goes: what it works around, and what would make it unnecessary.
//! name: SD folder
//! because: so a card mounts where KeySoft looks for the flash disk
//! reach: sole
//! at: 12
//!
//! signature:
//!   53 00 44 00 4d 00 4d 00 43 00 00 00   # "SDMMC" and its terminator
//!   53 00 44 00 4d 00 4d 00 43 00 20 00   # "SDMMC "
//!
//! replacement:
//!   46 00 6c 00 61 00 73 00 68 00 20 00   # "Flash "
//! ```
//!
//! `at` is the offset within the signature that gets replaced, and defaults to
//! zero. `reach` is `sole` or `every`, and defaults to `sole` — see [`Reach`],
//! because `every` is a claim about the firmware that has to be earned.
//!
//! Anything wrong is reported with the line it is on. A patch that quietly
//! does not parse is worse than one that refuses to.

use super::patch::{is_well_formed, Patch, Reach};
use crate::bytes::push_all;
use crate::text::{characters, push_decimal, white};
use vstd::prelude::*;
use vstd::string::*;

verus! {

// ------------------------------------------------------------- characters
/// An ASCII capital made small; anything else as it is.
pub open spec fn lower(c: char) -> char {
    if 'A' <= c && c <= 'Z' {
        (c as u32 + 32) as char
    } else {
        c
    }
}

pub open spec fn lowered(s: Seq<char>) -> Seq<char> {
    s.map_values(|c: char| lower(c))
}

/// How many bytes a character takes in UTF-8.
pub open spec fn width_of(c: char) -> int {
    let v = c as u32;
    if v < 0x80 {
        1
    } else if v < 0x800 {
        2
    } else if v < 0x1_0000 {
        3
    } else {
        4
    }
}

fn width(c: char) -> (r: usize)
    ensures
        r == width_of(c),
{
    let v: u32 = c as u32;
    if v < 0x80 {
        1
    } else if v < 0x800 {
        2
    } else if v < 0x1_0000 {
        3
    } else {
        4
    }
}

/// How many bytes a text takes, modulo two.
pub open spec fn odd_bytes(s: Seq<char>) -> bool
    decreases s.len(),
{
    if s.len() == 0 {
        false
    } else {
        odd_bytes(s.drop_last()) != (width_of(s.last()) % 2 == 1)
    }
}

/// A digit's value in hexadecimal.
pub open spec fn digit_value(c: char) -> Option<int> {
    let v = c as u32;
    if 0x30 <= v <= 0x39 {
        Some(v - 0x30)
    } else if 0x61 <= v <= 0x66 {
        Some(v - 0x61 + 10)
    } else if 0x41 <= v <= 0x46 {
        Some(v - 0x41 + 10)
    } else {
        None
    }
}

fn digit_of(c: char) -> (r: Option<u8>)
    ensures
        match r {
            Some(d) => digit_value(c) == Some(d as int) && d < 16,
            None => digit_value(c) is None,
        },
{
    let v: u32 = c as u32;
    if 0x30 <= v && v <= 0x39 {
        Some((v - 0x30) as u8)
    } else if 0x61 <= v && v <= 0x66 {
        Some((v - 0x61 + 10) as u8)
    } else if 0x41 <= v && v <= 0x46 {
        Some((v - 0x41 + 10) as u8)
    } else {
        None
    }
}

// ---------------------------------------------------------------- strings
/// What `str`'s `Debug` makes of a text: quoted, with what does not print
/// escaped.
pub uninterp spec fn quoted(s: Seq<char>) -> Seq<char>;

/// `format!("{:?}", s)` from std: the text as its `Debug` shows it. That it is
/// a function of the text alone is all that is claimed.
#[verifier::external_body]
fn quote(s: &str) -> (r: String)
    ensures
        r@ == quoted(s@),
{
    format!("{:?}", s)
}

/// Where the white space at `i` ends.
pub open spec fn past_white(s: Seq<char>, i: int) -> int
    decreases s.len() - i,
{
    if i < 0 || i >= s.len() || !crate::text::is_white(s[i]) {
        i
    } else {
        past_white(s, i + 1)
    }
}

/// Where the word at `i` ends.
pub open spec fn past_word(s: Seq<char>, i: int) -> int
    decreases s.len() - i,
{
    if i < 0 || i >= s.len() || crate::text::is_white(s[i]) {
        i
    } else {
        past_word(s, i + 1)
    }
}

/// A text without the white space at its ends.
pub open spec fn trimmed(s: Seq<char>) -> Seq<char> {
    let from = past_white(s, 0);
    let to = crate::text::before_white(s, s.len() as int);
    if from >= to {
        Seq::empty()
    } else {
        s.subrange(from, to)
    }
}

/// Where the first `c` at or after `i` stands, or the end.
pub open spec fn index_of(s: Seq<char>, c: char, i: int) -> int
    decreases s.len() - i,
{
    if i < 0 || i >= s.len() || s[i] == c {
        i
    } else {
        index_of(s, c, i + 1)
    }
}

proof fn lemma_index_of(s: Seq<char>, c: char, i: int)
    requires
        0 <= i <= s.len(),
    ensures
        i <= index_of(s, c, i) <= s.len(),
    decreases s.len() - i,
{
    if i < s.len() && s[i] != c {
        lemma_index_of(s, c, i + 1);
    }
}

proof fn lemma_past(s: Seq<char>, i: int)
    requires
        0 <= i <= s.len(),
    ensures
        i <= past_white(s, i) <= s.len(),
        i <= past_word(s, i) <= s.len(),
        past_white(s, i) < s.len() ==> !crate::text::is_white(s[past_white(s, i)]),
        i < s.len() && !crate::text::is_white(s[i]) ==> past_word(s, i) > i,
    decreases s.len() - i,
{
    if i < s.len() {
        lemma_past(s, i + 1);
    }
}

/// A stretch of characters: `s[from..to]`.
#[derive(Clone, Copy)]
struct Span {
    from: usize,
    to: usize,
}

impl Span {
    spec fn of(self, s: Seq<char>) -> Seq<char> {
        s.subrange(self.from as int, self.to as int)
    }

    spec fn within(self, s: Seq<char>) -> bool {
        self.from <= self.to <= s.len()
    }
}

/// The first `c` in a stretch, or its end.
fn find(s: &Vec<char>, span: Span, c: char) -> (r: usize)
    requires
        span.within(s@),
    ensures
        span.from <= r <= span.to,
        r - span.from == index_of(span.of(s@), c, 0),
{
    let mut i: usize = span.from;
    while i < span.to && s[i] != c
        invariant
            span.within(s@),
            span.from <= i <= span.to,
            index_of(span.of(s@), c, 0) == index_of(span.of(s@), c, i - span.from),
        decreases span.to - i,
    {
        i = i + 1;
    }
    i
}

/// A stretch without the white space at its ends.
fn trim(s: &Vec<char>, span: Span) -> (r: Span)
    requires
        span.within(s@),
    ensures
        r.within(s@),
        r.of(s@) == trimmed(span.of(s@)),
{
    let ghost t = span.of(s@);
    let mut from: usize = span.from;
    while from < span.to && white(s[from])
        invariant
            span.within(s@),
            t == span.of(s@),
            span.from <= from <= span.to,
            past_white(t, 0) == past_white(t, from - span.from),
        decreases span.to - from,
    {
        from = from + 1;
    }
    let mut to: usize = span.to;
    while to > span.from && white(s[to - 1])
        invariant
            span.within(s@),
            t == span.of(s@),
            span.from <= to <= span.to,
            crate::text::before_white(t, t.len() as int) == crate::text::before_white(t, to - span.from),
        decreases to,
    {
        to = to - 1;
    }
    if from >= to {
        let r = Span { from: span.from, to: span.from };
        assert(r.of(s@) =~= trimmed(t));
        r
    } else {
        let r = Span { from, to };
        assert(r.of(s@) =~= trimmed(t));
        r
    }
}

/// A stretch as a string of its own.
fn taken(text: &str, s: &Vec<char>, span: Span) -> (r: String)
    requires
        s@ == text@,
        span.within(s@),
    ensures
        r@ == span.of(s@),
{
    text.substring_char(span.from, span.to).to_owned()
}

fn lower_char(c: char) -> (r: char)
    ensures
        r == lower(c),
{
    match c {
        'A' => 'a',
        'B' => 'b',
        'C' => 'c',
        'D' => 'd',
        'E' => 'e',
        'F' => 'f',
        'G' => 'g',
        'H' => 'h',
        'I' => 'i',
        'J' => 'j',
        'K' => 'k',
        'L' => 'l',
        'M' => 'm',
        'N' => 'n',
        'O' => 'o',
        'P' => 'p',
        'Q' => 'q',
        'R' => 'r',
        'S' => 's',
        'T' => 't',
        'U' => 'u',
        'V' => 'v',
        'W' => 'w',
        'X' => 'x',
        'Y' => 'y',
        'Z' => 'z',
        _ => c,
    }
}

/// A stretch as a string of its own, its letters made small.
fn to_lower(text: &str, s: &Vec<char>, span: Span) -> (r: String)
    requires
        s@ == text@,
        span.within(s@),
    ensures
        r@ == lowered(span.of(s@)),
{
    proof {
        reveal_strlit("abcdefghijklmnopqrstuvwxyz");
    }
    let ghost t = lowered(span.of(s@));
    let mut r: String = String::new();
    let mut i: usize = span.from;
    while i < span.to
        invariant
            s@ == text@,
            span.within(s@),
            t == lowered(span.of(s@)),
            span.from <= i <= span.to,
            "abcdefghijklmnopqrstuvwxyz"@.len() == 26,
            forall|k: int|
                0 <= k < 26 ==> #[trigger] "abcdefghijklmnopqrstuvwxyz"@[k] == (0x61 + k) as char,
            r@ == t.take(i - span.from),
        decreases span.to - i,
    {
        let c: u32 = s[i] as u32;
        if 0x41 <= c && c <= 0x5A {
            let k: usize = (c - 0x41) as usize;
            r.append("abcdefghijklmnopqrstuvwxyz".substring_char(k, k + 1));
        } else {
            r.append(text.substring_char(i, i + 1));
        }
        assert(r@ =~= t.take(i - span.from + 1));
        i = i + 1;
    }
    assert(t.take(t.len() as int) =~= t);
    r
}

/// A stretch reads as `word`, whatever its case.
fn reads(s: &Vec<char>, span: Span, word: &str) -> (r: bool)
    requires
        span.within(s@),
    ensures
        r == (lowered(span.of(s@)) == word@),
{
    let ghost t = lowered(span.of(s@));
    if span.to - span.from != word.unicode_len() {
        assert(t.len() != word@.len());
        return false;
    }
    let mut i: usize = 0;
    while i < span.to - span.from
        invariant
            span.within(s@),
            t == lowered(span.of(s@)),
            i <= span.to - span.from,
            t.len() == word@.len(),
            forall|j: int| 0 <= j < i ==> #[trigger] t[j] == word@[j],
        decreases span.to - span.from - i,
    {
        let c: char = lower_char(s[span.from + i]);
        assert(t[i as int] == c);
        if c != word.get_char(i) {
            return false;
        }
        i = i + 1;
    }
    assert(t =~= word@);
    true
}

// ---------------------------------------------------------------- numbers
/// What a stretch of a file turned out to be.
pub enum Reading<T> {
    /// It says this.
    Got(T),
    /// It is wrong, and this is what to say of it.
    Wrong(Seq<char>),
}

/// The number that digits of a radix spell, if digits are all there is.
pub open spec fn number_of(s: Seq<char>, radix: int) -> Option<int>
    decreases s.len(),
{
    if s.len() == 0 {
        Some(0)
    } else {
        match (number_of(s.drop_last(), radix), digit_value(s.last())) {
            (Some(n), Some(d)) => if d < radix {
                Some(n * radix + d)
            } else {
                None
            },
            _ => None,
        }
    }
}

/// An unsigned number that fits a `usize`, with a plus in front if it likes.
pub open spec fn unsigned(s: Seq<char>, radix: int) -> Option<int> {
    let body = if s.len() > 1 && s[0] == '+' {
        s.skip(1)
    } else {
        s
    };
    match number_of(body, radix) {
        Some(n) => if body.len() > 0 && n <= usize::MAX {
            Some(n)
        } else {
            None
        },
        None => None,
    }
}

/// A number as a file writes it: decimal, or hexadecimal behind `0x`.
pub open spec fn number_in(text: Seq<char>) -> Option<int> {
    let t = trimmed(text);
    if t.len() >= 2 && t[0] == '0' && (t[1] == 'x' || t[1] == 'X') {
        unsigned(t.skip(2), 16)
    } else {
        unsigned(t, 10)
    }
}

/// More digits never make a number smaller, and never make one of what was
/// none.
proof fn lemma_number_grows(s: Seq<char>, radix: int, k: int)
    requires
        0 <= k <= s.len(),
        radix >= 1,
    ensures
        match number_of(s, radix) {
            Some(n) => number_of(s.take(k), radix) is Some && 0 <= number_of(s.take(k), radix)->0
                <= n,
            None => true,
        },
    decreases s.len(),
{
    if k == s.len() {
        assert(s.take(k) =~= s);
        if s.len() > 0 {
            lemma_number_grows(s.drop_last(), radix, s.len() - 1);
            assert(s.drop_last().take(s.len() - 1) =~= s.drop_last());
            if number_of(s, radix) is Some {
                let n = number_of(s.drop_last(), radix)->0;
                assert(n * radix >= 0) by (nonlinear_arith)
                    requires
                        n >= 0,
                        radix >= 1,
                ;
            }
        }
    } else {
        lemma_number_grows(s.drop_last(), radix, k);
        assert(s.drop_last().take(k) =~= s.take(k));
        if number_of(s, radix) is Some {
            let n = number_of(s.drop_last(), radix)->0;
            assert(n * radix >= n) by (nonlinear_arith)
                requires
                    n >= 0,
                    radix >= 1,
            ;
        }
    }
}

fn parse_unsigned(s: &Vec<char>, span: Span, radix: usize) -> (r: Option<usize>)
    requires
        span.within(s@),
        radix == 10 || radix == 16,
    ensures
        match r {
            Some(n) => unsigned(span.of(s@), radix as int) == Some(n as int),
            None => unsigned(span.of(s@), radix as int) is None,
        },
{
    let ghost t = span.of(s@);
    let from: usize = if span.to - span.from > 1 && s[span.from] == '+' {
        span.from + 1
    } else {
        span.from
    };
    let ghost body = if t.len() > 1 && t[0] == '+' {
        t.skip(1)
    } else {
        t
    };
    assert(body =~= s@.subrange(from as int, span.to as int));
    if from == span.to {
        return None;
    }
    let mut n: usize = 0;
    let mut i: usize = from;
    while i < span.to
        invariant
            span.within(s@),
            radix == 10 || radix == 16,
            from <= i <= span.to,
            t == span.of(s@),
            body == (if t.len() > 1 && t[0] == '+' {
                t.skip(1)
            } else {
                t
            }),
            body == s@.subrange(from as int, span.to as int),
            number_of(body.take(i - from), radix as int) == Some(n as int),
        decreases span.to - i,
    {
        let ghost k = i - from;
        proof {
            assert(body.take(k + 1).drop_last() =~= body.take(k));
            assert(body.take(k + 1).last() == s@[i as int]);
            lemma_number_grows(body, radix as int, k + 1);
        }
        let d: usize = match digit_of(s[i]) {
            Some(d) => d as usize,
            None => {
                return None;
            },
        };
        if d >= radix {
            return None;
        }
        if n > (usize::MAX - d) / radix {
            assert(n * radix + d > usize::MAX) by (nonlinear_arith)
                requires
                    n > (usize::MAX - d) / radix as int,
                    radix >= 1,
                    d <= usize::MAX,
            ;
            return None;
        }
        assert(n * radix + d <= usize::MAX) by (nonlinear_arith)
            requires
                n <= (usize::MAX - d) / radix as int,
                radix >= 1,
        ;
        assert(n * radix >= 0) by (nonlinear_arith)
            requires
                n >= 0,
                radix >= 0,
        ;
        n = n * radix + d;
        i = i + 1;
    }
    assert(body.take(span.to - from) =~= body);
    Some(n)
}

fn number_at(s: &Vec<char>, span: Span) -> (r: Option<usize>)
    requires
        span.within(s@),
    ensures
        match r {
            Some(n) => number_in(span.of(s@)) == Some(n as int),
            None => number_in(span.of(s@)) is None,
        },
{
    let t: Span = trim(s, span);
    if t.to - t.from >= 2 && s[t.from] == '0' && (s[t.from + 1] == 'x' || s[t.from + 1] == 'X') {
        let rest = Span { from: t.from + 2, to: t.to };
        assert(rest.of(s@) =~= trimmed(span.of(s@)).skip(2));
        parse_unsigned(s, rest, 16)
    } else {
        parse_unsigned(s, t, 10)
    }
}

/// A number as a file writes it.
pub fn parse_number(text: &str) -> (r: Option<usize>)
    ensures
        match r {
            Some(n) => number_in(text@) == Some(n as int),
            None => number_in(text@) is None,
        },
{
    let s: Vec<char> = characters(text);
    let all = Span { from: 0, to: s.len() };
    assert(all.of(s@) =~= text@);
    number_at(&s, all)
}

// -------------------------------------------------------------- hex bytes
/// The byte that two characters spell.
pub open spec fn pair_value(a: char, b: char) -> Option<int> {
    match (digit_value(a), digit_value(b)) {
        (Some(h), Some(l)) => Some(16 * h + l),
        _ => None,
    }
}

/// The bytes that a word spells from character `i` on, two bytes of text to
/// each. Where two of them end in the middle of a character, it is the word
/// that is no hex.
pub open spec fn word_from(w: Seq<char>, i: int) -> Reading<Seq<u8>>
    decreases w.len() - i,
{
    if i < 0 || i >= w.len() {
        Reading::Got(Seq::empty())
    } else if width_of(w[i]) == 2 {
        Reading::Wrong(quoted(seq![w[i]]) + " is not hex"@)
    } else if width_of(w[i]) != 1 || i + 1 >= w.len() || width_of(w[i + 1]) != 1 {
        Reading::Wrong(quoted(w) + " is not hex"@)
    } else {
        match pair_value(w[i], w[i + 1]) {
            None => Reading::Wrong(quoted(seq![w[i], w[i + 1]]) + " is not hex"@),
            Some(v) => match word_from(w, i + 2) {
                Reading::Got(rest) => Reading::Got(seq![v as u8] + rest),
                other => other,
            },
        }
    }
}

/// The bytes that a word spells.
pub open spec fn word_bytes(w: Seq<char>) -> Reading<Seq<u8>> {
    if odd_bytes(w) {
        Reading::Wrong(quoted(w) + " is not whole bytes"@)
    } else {
        word_from(w, 0)
    }
}

/// The bytes that the words from `i` on spell.
pub open spec fn hex_from(s: Seq<char>, i: int) -> Reading<Seq<u8>>
    decreases s.len() - i,
{
    let from = past_white(s, i);
    let to = past_word(s, from);
    if i < 0 || from < i || from >= s.len() || to <= from || to > s.len() {
        Reading::Got(Seq::empty())
    } else {
        match word_bytes(s.subrange(from, to)) {
            Reading::Got(bytes) => match hex_from(s, to) {
                Reading::Got(rest) => Reading::Got(bytes + rest),
                other => other,
            },
            other => other,
        }
    }
}

/// Hex bytes, whitespace-separated or run together.
pub open spec fn hex_bytes(s: Seq<char>) -> Reading<Seq<u8>> {
    hex_from(s, 0)
}

/// `done` in front of what is still to be read.
spec fn after(done: Seq<u8>, rest: Reading<Seq<u8>>) -> Reading<Seq<u8>> {
    match rest {
        Reading::Got(b) => Reading::Got(done + b),
        other => other,
    }
}

/// Says that what was read is what the text says, or why it is wrong.
pub open spec fn reads_as(r: Result<Vec<u8>, String>, spec: Reading<Seq<u8>>) -> bool {
    match r {
        Ok(v) => spec == Reading::<Seq<u8>>::Got(v@),
        Err(e) => spec == Reading::<Seq<u8>>::Wrong(e@),
    }
}

fn read_word(text: &str, s: &Vec<char>, span: Span) -> (r: Result<Vec<u8>, String>)
    requires
        s@ == text@,
        span.within(s@),
    ensures
        reads_as(r, word_bytes(span.of(s@))),
{
    let ghost w = span.of(s@);
    let mut odd = false;
    let mut i: usize = span.from;
    while i < span.to
        invariant
            span.within(s@),
            w == span.of(s@),
            span.from <= i <= span.to,
            odd == odd_bytes(w.take(i - span.from)),
        decreases span.to - i,
    {
        assert(w.take(i - span.from + 1).drop_last() =~= w.take(i - span.from));
        if width(s[i]) % 2 == 1 {
            odd = !odd;
        }
        i = i + 1;
    }
    assert(w.take(span.to - span.from) =~= w);
    if odd {
        let word: String = taken(text, s, span);
        let mut e: String = quote(word.as_str());
        e.append(" is not whole bytes");
        return Err(e);
    }
    let mut out: Vec<u8> = Vec::new();
    let mut i: usize = span.from;
    assert(after(out@, word_from(w, 0)) == word_from(w, 0)) by {
        if let Reading::Got(b) = word_from(w, 0) {
            assert(out@ + b =~= b);
        }
    }
    while i < span.to
        invariant
            s@ == text@,
            span.within(s@),
            w == span.of(s@),
            span.from <= i <= span.to,
            !odd_bytes(w),
            word_from(w, 0) == after(out@, word_from(w, i - span.from)),
        decreases span.to - i,
    {
        let ghost k = i - span.from;
        assert(w[k] == s@[i as int]);
        if width(s[i]) == 2 {
            let piece = Span { from: i, to: i + 1 };
            assert(piece.of(s@) =~= seq![w[k]]);
            let bad: String = taken(text, s, piece);
            let mut e: String = quote(bad.as_str());
            e.append(" is not hex");
            return Err(e);
        }
        assert(i + 1 < span.to ==> w[k + 1] == s@[i + 1]);
        if width(s[i]) != 1 || i + 1 >= span.to || width(s[i + 1]) != 1 {
            let word: String = taken(text, s, span);
            let mut e: String = quote(word.as_str());
            e.append(" is not hex");
            return Err(e);
        }
        let high: Option<u8> = digit_of(s[i]);
        let low: Option<u8> = digit_of(s[i + 1]);
        let value: Option<u8> = match (high, low) {
            (Some(h), Some(l)) => Some(16 * h + l),
            _ => None,
        };
        match value {
            Some(v) => {
                let ghost before = out@;
                out.push(v);
                proof {
                    if let Reading::Got(b) = word_from(w, k + 2) {
                        assert(before + (seq![v] + b) =~= out@ + b);
                    }
                }
            },
            None => {
                let piece = Span { from: i, to: i + 2 };
                assert(piece.of(s@) =~= seq![w[k], w[k + 1]]);
                let bad: String = taken(text, s, piece);
                let mut e: String = quote(bad.as_str());
                e.append(" is not hex");
                return Err(e);
            },
        }
        i = i + 2;
    }
    assert(out@ + Seq::<u8>::empty() =~= out@);
    Ok(out)
}

fn read_hex(text: &str, s: &Vec<char>, span: Span) -> (r: Result<Vec<u8>, String>)
    requires
        s@ == text@,
        span.within(s@),
    ensures
        reads_as(r, hex_bytes(span.of(s@))),
{
    let ghost t = span.of(s@);
    let mut out: Vec<u8> = Vec::new();
    let mut i: usize = span.from;
    assert(after(out@, hex_from(t, 0)) == hex_from(t, 0)) by {
        if let Reading::Got(b) = hex_from(t, 0) {
            assert(out@ + b =~= b);
        }
    }
    loop
        invariant
            s@ == text@,
            span.within(s@),
            t == span.of(s@),
            span.from <= i <= span.to,
            hex_bytes(t) == after(out@, hex_from(t, i - span.from)),
        decreases span.to - i,
    {
        let ghost k = i - span.from;
        proof {
            lemma_past(t, k);
        }
        let mut from: usize = i;
        while from < span.to && white(s[from])
            invariant
                span.within(s@),
                t == span.of(s@),
                span.from <= i <= from <= span.to,
                past_white(t, i - span.from) == past_white(t, from - span.from),
            decreases span.to - from,
        {
            from = from + 1;
        }
        if from == span.to {
            assert(hex_from(t, k) == Reading::Got(Seq::<u8>::empty()));
            assert(out@ + Seq::<u8>::empty() =~= out@);
            return Ok(out);
        }
        proof {
            lemma_past(t, from - span.from);
        }
        let mut to: usize = from;
        while to < span.to && !white(s[to])
            invariant
                span.within(s@),
                t == span.of(s@),
                span.from <= from <= to <= span.to,
                past_word(t, from - span.from) == past_word(t, to - span.from),
            decreases span.to - to,
        {
            to = to + 1;
        }
        let word = Span { from, to };
        assert(word.of(s@) =~= t.subrange(from - span.from, to - span.from));
        match read_word(text, s, word) {
            Err(e) => {
                return Err(e);
            },
            Ok(bytes) => {
                let ghost before = out@;
                push_all(&mut out, bytes.as_slice());
                proof {
                    if let Reading::Got(b) = hex_from(t, to - span.from) {
                        assert(before + (bytes@ + b) =~= out@ + b);
                    }
                }
                i = to;
            },
        }
    }
}

/// Hex bytes, whitespace-separated or run together.
pub fn hex(text: &str) -> (r: Result<Vec<u8>, String>)
    ensures
        reads_as(r, hex_bytes(text@)),
{
    let s: Vec<char> = characters(text);
    let all = Span { from: 0, to: s.len() };
    assert(all.of(s@) =~= text@);
    read_hex(text, &s, all)
}

// --------------------------------------------------------------- the file
/// Which hex block the bytes on a line belong to, if any.
#[derive(Debug, Clone, Copy, PartialEq, Eq, Structural)]
pub enum Block {
    Outside,
    Signature,
    Replacement,
}

/// What has been read of a file so far.
pub struct Draft {
    pub name: Option<Seq<char>>,
    pub because: Option<Seq<char>>,
    pub reach: Reach,
    pub at: usize,
    pub signature: Seq<u8>,
    pub replacement: Seq<u8>,
    pub block: Block,
}

impl Draft {
    pub open spec fn empty() -> Draft {
        Draft {
            name: None,
            because: None,
            reach: Reach::Sole,
            at: 0,
            signature: Seq::empty(),
            replacement: Seq::empty(),
            block: Block::Outside,
        }
    }

    /// More bytes of a block.
    pub open spec fn with_bytes(self, block: Block, text: Seq<char>) -> Reading<Draft> {
        match hex_bytes(text) {
            Reading::Got(b) => Reading::Got(
                if block == Block::Signature {
                    Draft { signature: self.signature + b, block, ..self }
                } else {
                    Draft { replacement: self.replacement + b, block, ..self }
                },
            ),
            Reading::Wrong(e) => Reading::Wrong(e),
        }
    }

    /// A field given a value.
    pub open spec fn with_field(self, key: Seq<char>, value: Seq<char>) -> Reading<Draft> {
        let out = Draft { block: Block::Outside, ..self };
        if key == "signature"@ {
            self.with_bytes(Block::Signature, value)
        } else if key == "replacement"@ {
            self.with_bytes(Block::Replacement, value)
        } else if key == "name"@ {
            Reading::Got(Draft { name: Some(value), ..out })
        } else if key == "because"@ {
            Reading::Got(Draft { because: Some(value), ..out })
        } else if key == "at"@ {
            match number_in(value) {
                Some(n) => Reading::Got(Draft { at: n as usize, ..out }),
                None => Reading::Wrong("at needs a number"@),
            }
        } else if key == "reach"@ {
            if lowered(value) == "sole"@ {
                Reading::Got(Draft { reach: Reach::Sole, ..out })
            } else if lowered(value) == "every"@ {
                Reading::Got(Draft { reach: Reach::Every, ..out })
            } else {
                Reading::Wrong(quoted(lowered(value)) + " is not sole or every"@)
            }
        } else {
            Reading::Wrong(quoted(key) + " is not a field"@)
        }
    }

    /// One line of a file.
    pub open spec fn with_line(self, line: Seq<char>) -> Reading<Draft> {
        let body = trimmed(line.take(index_of(line, '#', 0)));
        let colon = index_of(body, ':', 0);
        if body.len() == 0 {
            Reading::Got(self)
        } else if colon < body.len() {
            self.with_field(
                lowered(trimmed(body.take(colon))),
                trimmed(body.skip(colon + 1)),
            )
        } else if self.block == Block::Outside {
            Reading::Wrong("bytes outside a signature or replacement block"@)
        } else {
            self.with_bytes(self.block, body)
        }
    }

    /// The lines from character `i` on, the first of them being line `line`.
    /// What is wrong is reported with the line it is on.
    pub open spec fn with_lines(self, text: Seq<char>, i: int, line: nat) -> Reading<Draft>
        decreases text.len() + 1 - i,
    {
        let end = index_of(text, '\n', i);
        if i < 0 || i >= text.len() || end < i || end > text.len() {
            Reading::Got(self)
        } else {
            match self.with_line(text.subrange(i, end)) {
                Reading::Got(d) => d.with_lines(text, end + 1, line + 1),
                Reading::Wrong(e) => Reading::Wrong(
                    ": line "@ + crate::text::decimal(line) + ": "@ + e,
                ),
            }
        }
    }

    /// What is wrong with a file that has been read to its end.
    pub open spec fn flaw(self) -> Option<Seq<char>> {
        if self.name is None {
            Some(": no name"@)
        } else if self.because is None {
            Some(": no because"@)
        } else if self.signature.len() == 0 {
            Some(": no signature, so it would match everywhere"@)
        } else if self.replacement.len() == 0 {
            Some(": no replacement, so it would change nothing"@)
        } else if self.at + self.replacement.len() > self.signature.len() {
            Some(
                ": the replacement runs past the signature: "@ + crate::text::decimal(
                    self.replacement.len(),
                ) + " bytes at offset "@ + crate::text::decimal(self.at as nat) + " of "@
                    + crate::text::decimal(self.signature.len()),
            )
        } else {
            None
        }
    }

    /// The patch says what was read.
    pub open spec fn describes(self, p: Patch) -> bool {
        &&& self.name == Some(p.name@)
        &&& self.because == Some(p.because@)
        &&& self.reach == p.reach
        &&& self.at == p.at
        &&& self.signature == p.signature@
        &&& self.replacement == p.replacement@
    }
}

/// What the lines of a file say, all of them together.
pub open spec fn file_of(text: Seq<char>) -> Reading<Draft> {
    Draft::empty().with_lines(text, 0, 1)
}

/// What has been read of a file so far, in memory.
struct Fields {
    name: Option<String>,
    because: Option<String>,
    reach: Reach,
    at: usize,
    signature: Vec<u8>,
    replacement: Vec<u8>,
    block: Block,
}

impl View for Fields {
    type V = Draft;

    closed spec fn view(&self) -> Draft {
        Draft {
            name: match self.name {
                Some(s) => Some(s@),
                None => None,
            },
            because: match self.because {
                Some(s) => Some(s@),
                None => None,
            },
            reach: self.reach,
            at: self.at,
            signature: self.signature@,
            replacement: self.replacement@,
            block: self.block,
        }
    }
}

impl Fields {
    fn take_bytes(&mut self, block: Block, text: &str, s: &Vec<char>, span: Span) -> (r: Result<
        (),
        String,
    >)
        requires
            s@ == text@,
            span.within(s@),
            block != Block::Outside,
        ensures
            match r {
                Ok(()) => old(self)@.with_bytes(block, span.of(s@)) == Reading::Got(final(self)@),
                Err(e) => old(self)@.with_bytes(block, span.of(s@))
                    == Reading::<Draft>::Wrong(e@),
            },
    {
        let bytes: Vec<u8> = match read_hex(text, s, span) {
            Ok(b) => b,
            Err(e) => {
                return Err(e);
            },
        };
        self.block = block;
        match block {
            Block::Signature => {
                push_all(&mut self.signature, bytes.as_slice());
            },
            _ => {
                push_all(&mut self.replacement, bytes.as_slice());
            },
        }
        Ok(())
    }

    fn take_field(&mut self, text: &str, s: &Vec<char>, key: Span, value: Span) -> (r: Result<
        (),
        String,
    >)
        requires
            s@ == text@,
            key.within(s@),
            value.within(s@),
        ensures
            match r {
                Ok(()) => old(self)@.with_field(lowered(key.of(s@)), value.of(s@))
                    == Reading::Got(final(self)@),
                Err(e) => old(self)@.with_field(
                    lowered(key.of(s@)),
                    value.of(s@),
                ) == Reading::<Draft>::Wrong(e@),
            },
    {
        // Bytes may start on the same line as the label.
        if reads(s, key, "signature") {
            return self.take_bytes(Block::Signature, text, s, value);
        }
        if reads(s, key, "replacement") {
            return self.take_bytes(Block::Replacement, text, s, value);
        }
        self.block = Block::Outside;
        if reads(s, key, "name") {
            self.name = Some(taken(text, s, value));
        } else if reads(s, key, "because") {
            self.because = Some(taken(text, s, value));
        } else if reads(s, key, "at") {
            match number_at(s, value) {
                Some(n) => {
                    self.at = n;
                },
                None => {
                    return Err(String::from_str("at needs a number"));
                },
            }
        } else if reads(s, key, "reach") {
            if reads(s, value, "sole") {
                self.reach = Reach::Sole;
            } else if reads(s, value, "every") {
                self.reach = Reach::Every;
            } else {
                let small: String = to_lower(text, s, value);
                let mut e: String = quote(small.as_str());
                e.append(" is not sole or every");
                return Err(e);
            }
        } else {
            let small: String = to_lower(text, s, key);
            let mut e: String = quote(small.as_str());
            e.append(" is not a field");
            return Err(e);
        }
        Ok(())
    }

    fn take_line(&mut self, text: &str, s: &Vec<char>, line: Span) -> (r: Result<(), String>)
        requires
            s@ == text@,
            line.within(s@),
        ensures
            match r {
                Ok(()) => old(self)@.with_line(line.of(s@)) == Reading::Got(final(self)@),
                Err(e) => old(self)@.with_line(line.of(s@))
                    == Reading::<Draft>::Wrong(e@),
            },
    {
        let hash: usize = find(s, line, '#');
        let said = Span { from: line.from, to: hash };
        assert(said.of(s@) =~= line.of(s@).take(hash - line.from));
        let body: Span = trim(s, said);
        if body.from == body.to {
            return Ok(());
        }
        let colon: usize = find(s, body, ':');
        if colon < body.to {
            let label = Span { from: body.from, to: colon };
            let rest = Span { from: colon + 1, to: body.to };
            assert(label.of(s@) =~= body.of(s@).take(colon - body.from));
            assert(rest.of(s@) =~= body.of(s@).skip(colon - body.from + 1));
            let key: Span = trim(s, label);
            let value: Span = trim(s, rest);
            return self.take_field(text, s, key, value);
        }
        match self.block {
            Block::Outside => Err(
                String::from_str("bytes outside a signature or replacement block"),
            ),
            _ => {
                let block = self.block;
                self.take_bytes(block, text, s, body)
            },
        }
    }
}

/// `source`, and what is wrong with it.
fn complaint(source: &str, what: &str) -> (r: String)
    ensures
        r@ == source@ + what@,
{
    let mut e: String = source.to_owned();
    e.append(what);
    e
}

/// Read every line of a file.
fn read_file(text: &str, source: &str) -> (r: Result<Fields, String>)
    ensures
        match r {
            Ok(f) => file_of(text@) == Reading::Got(f@),
            Err(e) => match file_of(text@) {
                Reading::Wrong(what) => e@ == source@ + what,
                _ => false,
            },
        },
{
    let s: Vec<char> = characters(text);
    let mut f = Fields {
        name: None,
        because: None,
        reach: Reach::Sole,
        at: 0,
        signature: Vec::new(),
        replacement: Vec::new(),
        block: Block::Outside,
    };
    assert(f@.signature =~= Seq::empty() && f@.replacement =~= Seq::empty());
    let mut i: usize = 0;
    let mut before: u64 = 0;
    while i < s.len()
        invariant
            s@ == text@,
            i <= s@.len(),
            before <= i,
            file_of(text@) == f@.with_lines(text@, i as int, (before + 1) as nat),
        decreases s.len() - i,
    {
        let rest = Span { from: i, to: s.len() };
        let end: usize = find(&s, rest, '\n');
        proof {
            lemma_index_shift(s@, '\n', i as int, 0);
        }
        let span = Span { from: i, to: end };
        match f.take_line(text, &s, span) {
            Ok(()) => {},
            Err(e) => {
                let mut all: String = source.to_owned();
                all.append(": line ");
                push_decimal(&mut all, before + 1);
                all.append(": ");
                all.append(e.as_str());
                let ghost what = ": line "@ + crate::text::decimal((before + 1) as nat)
                    + ": "@ + e@;
                assert(file_of(text@) == Reading::<Draft>::Wrong(what));
                assert(all@ =~= source@ + what);
                return Err(all);
            },
        }
        if end == s.len() {
            assert(f@.with_lines(text@, end + 1, (before + 2) as nat) == Reading::Got(f@));
            return Ok(f);
        }
        i = end + 1;
        before = before + 1;
    }
    Ok(f)
}

/// Searching a tail is searching the whole from there.
proof fn lemma_index_shift(s: Seq<char>, c: char, i: int, k: int)
    requires
        0 <= i,
        0 <= k,
        i + k <= s.len(),
    ensures
        index_of(s, c, i + k) == i + index_of(s.subrange(i, s.len() as int), c, k),
    decreases s.len() - i - k,
{
    if i + k < s.len() && s[i + k] != c {
        lemma_index_shift(s, c, i, k + 1);
    }
}

/// What [`parse`] makes of a text: a patch, or a complaint.
pub open spec fn parsed(text: Seq<char>, source: Seq<char>, r: Result<Patch, String>) -> bool {
    match file_of(text) {
        Reading::Got(d) => match d.flaw() {
            None => r is Ok && d.describes(r->Ok_0) && r->Ok_0.well_formed(),
            Some(what) => r is Err && r->Err_0@ == source + what,
        },
        Reading::Wrong(what) => r is Err && r->Err_0@ == source + what,
    }
}

/// The text is that of a patch with nothing wrong with it.
pub open spec fn parses(text: Seq<char>) -> bool {
    file_of(text) matches Reading::Got(d) && d.flaw() is None
}

/// Parse one `.nkp` file.
pub fn parse(text: &str, source: &str) -> (r: Result<Patch, String>)
    ensures
        parsed(text@, source@, r),
{
    let f: Fields = match read_file(text, source) {
        Ok(f) => f,
        Err(e) => {
            return Err(e);
        },
    };
    let ghost d = f@;
    let name: String = match f.name {
        Some(n) => n,
        None => {
            return Err(complaint(source, ": no name"));
        },
    };
    let because: String = match f.because {
        Some(b) => b,
        None => {
            return Err(complaint(source, ": no because"));
        },
    };
    if f.signature.len() == 0 {
        return Err(complaint(source, ": no signature, so it would match everywhere"));
    }
    if f.replacement.len() == 0 {
        return Err(complaint(source, ": no replacement, so it would change nothing"));
    }
    let patch = Patch {
        name,
        signature: f.signature,
        at: f.at,
        replacement: f.replacement,
        because,
        reach: f.reach,
    };
    if !is_well_formed(&patch) {
        let mut e: String = complaint(source, ": the replacement runs past the signature: ");
        push_decimal(&mut e, patch.replacement.len() as u64);
        e.append(" bytes at offset ");
        push_decimal(&mut e, patch.at as u64);
        e.append(" of ");
        push_decimal(&mut e, patch.signature.len() as u64);
        assert(e@ =~= source@ + d.flaw()->0);
        return Err(e);
    }
    Ok(patch)
}

/// A file that parses gives a patch that stays inside what it matched, with a
/// signature to look for and something to put there.
pub proof fn law_parsed_patch_is_usable(text: Seq<char>, source: Seq<char>, p: Patch)
    requires
        parsed(text, source, Ok(p)),
    ensures
        p.well_formed(),
        p.signature@.len() > 0,
        p.replacement@.len() > 0,
{
}

/// A number that is spelled out is read as the number it is, in decimal and in
/// hexadecimal.
pub proof fn law_numbers_are_read_as_they_are_spelled(n: nat)
    ensures
        number_of(crate::text::decimal(n), 10) == Some(n as int),
        number_of(crate::text::hexadecimal(n), 16) == Some(n as int),
{
    lemma_decimal(n);
    lemma_hexadecimal(n);
}

proof fn lemma_decimal(n: nat)
    ensures
        number_of(crate::text::decimal(n), 10) == Some(n as int),
    decreases n,
{
    let s = crate::text::decimal(n);
    crate::text::lemma_digit((n % 10) as int);
    if n >= 10 {
        lemma_decimal(n / 10);
        assert(s.drop_last() =~= crate::text::decimal(n / 10));
        assert(s.last() == crate::text::digit((n % 10) as int));
    } else {
        assert(s.drop_last() =~= Seq::<char>::empty());
        assert(s.last() == crate::text::digit(n as int));
        assert(number_of(s.drop_last(), 10) == Some(0int));
    }
}

proof fn lemma_hexadecimal(n: nat)
    ensures
        number_of(crate::text::hexadecimal(n), 16) == Some(n as int),
    decreases n,
{
    let s = crate::text::hexadecimal(n);
    crate::text::lemma_digit((n % 16) as int);
    if n >= 16 {
        lemma_hexadecimal(n / 16);
        assert(s.drop_last() =~= crate::text::hexadecimal(n / 16));
        assert(s.last() == crate::text::digit((n % 16) as int));
    } else {
        assert(s.drop_last() =~= Seq::<char>::empty());
        assert(s.last() == crate::text::digit(n as int));
        assert(number_of(s.drop_last(), 16) == Some(0int));
    }
}

/// Bytes as two hexadecimal digits each, run together.
pub open spec fn spelled(bytes: Seq<u8>) -> Seq<char> {
    Seq::new(
        2 * bytes.len(),
        |i: int|
            crate::text::digit(
                if i % 2 == 0 {
                    bytes[i / 2] / 16
                } else {
                    bytes[i / 2] % 16
                } as int,
            ),
    )
}

/// Bytes that are spelled out as hexadecimal digits are read as the bytes they
/// are, in order.
pub proof fn law_bytes_are_read_as_they_are_spelled(bytes: Seq<u8>, i: int)
    requires
        0 <= i <= bytes.len(),
    ensures
        word_from(spelled(bytes), 2 * i) == Reading::Got(bytes.skip(i)),
    decreases bytes.len() - i,
{
    let w = spelled(bytes);
    if i == bytes.len() {
        assert(bytes.skip(i) =~= Seq::<u8>::empty());
    } else {
        let h = (bytes[i] / 16) as int;
        let l = (bytes[i] % 16) as int;
        crate::text::lemma_digit(h);
        crate::text::lemma_digit(l);
        assert((2 * i) / 2 == i && (2 * i) % 2 == 0 && (2 * i + 1) / 2 == i && (2 * i + 1) % 2 == 1);
        assert(w[2 * i] == crate::text::digit(h));
        assert(w[2 * i + 1] == crate::text::digit(l));
        law_bytes_are_read_as_they_are_spelled(bytes, i + 1);
        assert(seq![bytes[i]] + bytes.skip(i + 1) =~= bytes.skip(i));
    }
}

} // verus!
