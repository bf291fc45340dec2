//! Texts: numbers spelled out for messages, and white space.

use vstd::prelude::*;
use vstd::string::*;

verus! {

/// The character for one digit.
pub open spec fn digit(d: int) -> char {
    "0123456789abcdef"@[d]
}

/// `n` in decimal.
pub open spec fn decimal(n: nat) -> Seq<char>
    decreases n,
{
    if n < 10 {
        seq![digit(n as int)]
    } else {
        decimal(n / 10).push(digit((n % 10) as int))
    }
}

/// `n` in hexadecimal, as short as it goes.
pub open spec fn hexadecimal(n: nat) -> Seq<char>
    decreases n,
{
    if n < 16 {
        seq![digit(n as int)]
    } else {
        hexadecimal(n / 16).push(digit((n % 16) as int))
    }
}

/// The last `places` hexadecimal digits of `n`.
pub open spec fn padded(n: nat, places: nat) -> Seq<char>
    decreases places,
{
    if places == 0 {
        Seq::empty()
    } else {
        padded(n / 16, (places - 1) as nat).push(digit((n % 16) as int))
    }
}

/// `0x` and eight digits.
pub open spec fn address(n: u32) -> Seq<char> {
    "0x"@ + padded(n as nat, 8)
}

/// `0x` and as many digits as it takes.
pub open spec fn short_hex(n: nat) -> Seq<char> {
    "0x"@ + hexadecimal(n)
}

pub fn push_digit(s: &mut String, d: u64)
    requires
        d < 16,
    ensures
        final(s)@ == old(s)@.push(digit(d as int)),
{
    proof {
        reveal_strlit("0123456789abcdef");
        reveal_strlit("0");
        reveal_strlit("1");
        reveal_strlit("2");
        reveal_strlit("3");
        reveal_strlit("4");
        reveal_strlit("5");
        reveal_strlit("6");
        reveal_strlit("7");
        reveal_strlit("8");
        reveal_strlit("9");
        reveal_strlit("a");
        reveal_strlit("b");
        reveal_strlit("c");
        reveal_strlit("d");
        reveal_strlit("e");
        reveal_strlit("f");
    }
    let c: &str = match d {
        0 => "0",
        1 => "1",
        2 => "2",
        3 => "3",
        4 => "4",
        5 => "5",
        6 => "6",
        7 => "7",
        8 => "8",
        9 => "9",
        10 => "a",
        11 => "b",
        12 => "c",
        13 => "d",
        14 => "e",
        _ => "f",
    };
    assert(c@ =~= seq![digit(d as int)]);
    s.append(c);
}

pub fn push_decimal(s: &mut String, n: u64)
    ensures
        final(s)@ == old(s)@ + decimal(n as nat),
    decreases n,
{
    if n >= 10 {
        push_decimal(s, n / 10);
    }
    push_digit(s, n % 10);
}

pub fn push_hexadecimal(s: &mut String, n: u64)
    ensures
        final(s)@ == old(s)@ + hexadecimal(n as nat),
    decreases n,
{
    if n >= 16 {
        push_hexadecimal(s, n / 16);
    }
    push_digit(s, n % 16);
}

fn push_padded(s: &mut String, n: u64, places: u64)
    ensures
        final(s)@ == old(s)@ + padded(n as nat, places as nat),
    decreases places,
{
    if places > 0 {
        push_padded(s, n / 16, places - 1);
        push_digit(s, n % 16);
    }
}

pub fn push_address(s: &mut String, n: u32)
    ensures
        final(s)@ == old(s)@ + address(n),
{
    s.append("0x");
    push_padded(s, n as u64, 8);
}

/// `0x` and two digits.
pub open spec fn byte_hex(n: u8) -> Seq<char> {
    "0x"@ + padded(n as nat, 2)
}

pub fn push_byte_hex(s: &mut String, n: u8)
    ensures
        final(s)@ == old(s)@ + byte_hex(n),
{
    s.append("0x");
    push_padded(s, n as u64, 2);
}

/// `n` spaces.
pub open spec fn spaces(n: nat) -> Seq<char> {
    Seq::new(n, |i: int| ' ')
}

/// `word`, and spaces up to `width` characters.
pub open spec fn left_aligned(word: Seq<char>, width: int) -> Seq<char> {
    word + spaces(
        if word.len() < width {
            (width - word.len()) as nat
        } else {
            0
        },
    )
}

pub fn push_left_aligned(s: &mut String, word: &str, width: usize)
    ensures
        final(s)@ == old(s)@ + left_aligned(word@, width as int),
{
    let ghost start = s@;
    s.append(word);
    let mut at: usize = word.unicode_len();
    proof {
        reveal_strlit(" ");
    }
    assert(s@ =~= start + word@ + spaces(0));
    let ghost first = at;
    while at < width
        invariant
            first <= at,
            first <= width ==> at <= width,
            first > width ==> at == first,
            " "@ == seq![' '],
            s@ == start + word@ + spaces((at - first) as nat),
        decreases width - at,
    {
        s.append(" ");
        at = at + 1;
        assert(s@ =~= start + word@ + spaces((at - first) as nat));
    }
    assert(s@ =~= start + left_aligned(word@, width as int));
}

pub fn push_short_hex(s: &mut String, n: u64)
    ensures
        final(s)@ == old(s)@ + short_hex(n as nat),
{
    s.append("0x");
    push_hexadecimal(s, n);
}

/// Unicode's White_Space property.
pub open spec fn is_white(c: char) -> bool {
    let v = c as u32;
    ||| 0x09 <= v <= 0x0D
    ||| v == 0x20
    ||| v == 0x85
    ||| v == 0xA0
    ||| v == 0x1680
    ||| 0x2000 <= v <= 0x200A
    ||| v == 0x2028
    ||| v == 0x2029
    ||| v == 0x202F
    ||| v == 0x205F
    ||| v == 0x3000
}

/// Whether a character is white space.
pub fn white(c: char) -> (r: bool)
    ensures
        r == is_white(c),
{
    let v: u32 = c as u32;
    (0x09 <= v && v <= 0x0D) || v == 0x20 || v == 0x85 || v == 0xA0 || v == 0x1680 || (0x2000 <= v
        && v <= 0x200A) || v == 0x2028 || v == 0x2029 || v == 0x202F || v == 0x205F || v == 0x3000
}

/// The characters of a text.
pub fn characters(text: &str) -> (r: Vec<char>)
    ensures
        r@ == text@,
{
    let mut out: Vec<char> = Vec::new();
    for c in it: text.chars()
        invariant
            it.seq() == text@,
            out@ == text@.take(it.index() as int),
    {
        out.push(c);
    }
    assert(text@.take(text@.len() as int) =~= text@);
    out
}

/// Where the white space in front of `i` starts.
pub open spec fn before_white(s: Seq<char>, i: int) -> int
    decreases i,
{
    if i <= 0 || i > s.len() || !is_white(s[i - 1]) {
        i
    } else {
        before_white(s, i - 1)
    }
}

pub proof fn lemma_before_white(s: Seq<char>, i: int)
    requires
        0 <= i <= s.len(),
    ensures
        0 <= before_white(s, i) <= i,
    decreases i,
{
    if i > 0 && is_white(s[i - 1]) {
        lemma_before_white(s, i - 1);
    }
}

/// A text without the white space at its end.
pub open spec fn trimmed_end(s: Seq<char>) -> Seq<char> {
    s.take(before_white(s, s.len() as int))
}

/// Drop the white space at the end of a text.
pub fn trim_end(text: &str) -> (r: String)
    ensures
        r@ == trimmed_end(text@),
{
    let s: Vec<char> = characters(text);
    let mut to: usize = s.len();
    while to > 0 && white(s[to - 1])
        invariant
            s@ == text@,
            to <= s@.len(),
            before_white(text@, text@.len() as int) == before_white(text@, to as int),
        decreases to,
    {
        to = to - 1;
    }
    text.substring_char(0, to).to_owned()
}

/// What a digit stands for.
pub open spec fn place_of(c: char) -> int {
    if '0' <= c <= '9' {
        c as int - '0' as int
    } else {
        c as int - 'a' as int + 10
    }
}

/// The number that digits spell in a base.
pub open spec fn value_of(s: Seq<char>, base: int) -> int
    decreases s.len(),
{
    if s.len() == 0 {
        0
    } else {
        value_of(s.drop_last(), base) * base + place_of(s.last())
    }
}

/// Each digit stands for its own value.
pub proof fn lemma_digit(d: int)
    requires
        0 <= d < 16,
    ensures
        place_of(digit(d)) == d,
        d > 0 ==> digit(d) != '0',
        digit(0) == '0',
        d < 10 ==> '0' <= digit(d) <= '9',
        d >= 10 ==> 'a' <= digit(d) <= 'f',
{
    reveal_strlit("0123456789abcdef");
}

/// A number in decimal spells that number, with no zero in front that it could
/// do without.
pub proof fn law_decimal_spells_the_number(n: nat)
    ensures
        value_of(decimal(n), 10) == n,
        decimal(n).len() > 0,
        n > 0 ==> decimal(n)[0] != '0',
    decreases n,
{
    lemma_digit((n % 10) as int);
    if n >= 10 {
        law_decimal_spells_the_number(n / 10);
        assert(decimal(n).drop_last() =~= decimal(n / 10));
        assert(decimal(n).last() == digit((n % 10) as int));
    } else {
        assert(decimal(n).drop_last() =~= Seq::<char>::empty());
        assert(decimal(n).last() == digit(n as int));
        assert(value_of(decimal(n).drop_last(), 10) == 0);
    }
}

/// A number in hexadecimal spells that number, with no zero in front that it
/// could do without.
pub proof fn law_hexadecimal_spells_the_number(n: nat)
    ensures
        value_of(hexadecimal(n), 16) == n,
        hexadecimal(n).len() > 0,
        n > 0 ==> hexadecimal(n)[0] != '0',
    decreases n,
{
    lemma_digit((n % 16) as int);
    if n >= 16 {
        law_hexadecimal_spells_the_number(n / 16);
        assert(hexadecimal(n).drop_last() =~= hexadecimal(n / 16));
        assert(hexadecimal(n).last() == digit((n % 16) as int));
    } else {
        assert(hexadecimal(n).drop_last() =~= Seq::<char>::empty());
        assert(hexadecimal(n).last() == digit(n as int));
        assert(value_of(hexadecimal(n).drop_last(), 16) == 0);
    }
}

/// How many numbers so many hexadecimal digits can spell.
pub open spec fn spelled_by(places: nat) -> int
    decreases places,
{
    if places == 0 {
        1
    } else {
        16 * spelled_by((places - 1) as nat)
    }
}

/// A number padded to so many digits has that many, and spells the number if it
/// can be spelled with them.
pub proof fn law_padding_keeps_the_number(n: nat, places: nat)
    requires
        n < spelled_by(places),
    ensures
        padded(n, places).len() == places,
        value_of(padded(n, places), 16) == n,
    decreases places,
{
    if places > 0 {
        lemma_digit((n % 16) as int);
        law_padding_keeps_the_number(n / 16, (places - 1) as nat);
        assert(padded(n, places).drop_last() =~= padded(n / 16, (places - 1) as nat));
    }
}

/// An address is spelled with eight digits behind `0x`, and a byte with two.
pub proof fn law_addresses_have_eight_digits(n: u32, b: u8)
    ensures
        address(n).len() == 10,
        address(n).take(2) == "0x"@,
        value_of(address(n).skip(2), 16) == n,
        byte_hex(b).len() == 4,
        value_of(byte_hex(b).skip(2), 16) == b,
{
    reveal_strlit("0x");
    reveal_with_fuel(spelled_by, 9);
    law_padding_keeps_the_number(n as nat, 8);
    law_padding_keeps_the_number(b as nat, 2);
    assert(address(n).take(2) =~= "0x"@);
    assert(address(n).skip(2) =~= padded(n as nat, 8));
    assert(byte_hex(b).skip(2) =~= padded(b as nat, 2));
}

/// Texts set to a width are that wide, unless they are wider by themselves, and
/// lose nothing.
pub proof fn law_alignment_loses_nothing(word: Seq<char>, width: int)
    ensures
        left_aligned(word, width).take(word.len() as int) == word,
        word.len() <= width ==> left_aligned(word, width).len() == width,
        word.len() > width ==> left_aligned(word, width) == word,
{
    assert(left_aligned(word, width).take(word.len() as int) =~= word);
    if word.len() > width {
        assert(left_aligned(word, width) =~= word);
    }
}

} // verus!
