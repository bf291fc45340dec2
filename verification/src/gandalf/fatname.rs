//! The names in a FAT directory: the 8.3 alias, and the long name in front of
//! it.
//!
//! **The long-name checksum.** A long filename is stored in entries *before*
//! its short one, each carrying a checksum of that short name. If they
//! disagree the long name is ignored and the file appears under its 8.3
//! alias, which looks like the name was mangled rather than like a bug here.

use crate::bytes::{get16, push16};
use crate::text::{characters, trim_end};
use vstd::prelude::*;
use vstd::string::*;

verus! {

/// How many UTF-16 units one long-name entry carries.
pub const UNITS: usize = 13;

// ----------------------------------------------------------------- UTF-16
/// One character in UTF-16: a unit, or a surrogate pair.
pub open spec fn units_of(c: char) -> Seq<u16> {
    let v = c as u32;
    if v < 0x1_0000 {
        seq![v as u16]
    } else {
        seq![
            (0xD800 + (v - 0x1_0000) / 0x400) as u16,
            (0xDC00 + (v - 0x1_0000) % 0x400) as u16,
        ]
    }
}

/// A name in UTF-16.
pub open spec fn units(name: Seq<char>) -> Seq<u16>
    decreases name.len(),
{
    if name.len() == 0 {
        Seq::empty()
    } else {
        units(name.drop_last()) + units_of(name.last())
    }
}

pub open spec fn is_high(u: u16) -> bool {
    0xD800 <= u <= 0xDBFF
}

pub open spec fn is_low(u: u16) -> bool {
    0xDC00 <= u <= 0xDFFF
}

/// The text that UTF-16 units spell. A surrogate without its other half comes
/// out as the replacement character.
pub open spec fn decoded(u: Seq<u16>) -> Seq<char>
    decreases u.len(),
{
    if u.len() == 0 {
        Seq::empty()
    } else if is_high(u[0]) && u.len() >= 2 && is_low(u[1]) {
        seq![(0x1_0000 + (u[0] - 0xD800) * 0x400 + (u[1] - 0xDC00)) as char] + decoded(u.skip(2))
    } else if is_high(u[0]) || is_low(u[0]) {
        seq!['\u{FFFD}'] + decoded(u.skip(1))
    } else {
        seq![u[0] as char] + decoded(u.skip(1))
    }
}

/// `String::from_utf16_lossy` from std: pairs of surrogates make one
/// character, any other surrogate is replaced by U+FFFD, and every other unit
/// is the character of that number.
#[verifier::external_body]
fn decode(u: &[u16]) -> (r: String)
    ensures
        r@ == decoded(u@),
{
    String::from_utf16_lossy(u)
}

/// What `String::from_utf8_lossy` makes of bytes: the text they encode, with
/// what is not UTF-8 replaced.
pub uninterp spec fn lossy(b: Seq<u8>) -> Seq<char>;

/// `String::from_utf8_lossy` from std. That its result is a function of the
/// bytes alone is all that is claimed.
#[verifier::external_body]
fn from_utf8(b: &[u8]) -> (r: String)
    ensures
        r@ == lossy(b@),
{
    String::from_utf8_lossy(b).into_owned()
}

/// Encode a name in UTF-16.
pub fn encode(name: &str) -> (r: Vec<u16>)
    ensures
        r@ == units(name@),
{
    let mut out: Vec<u16> = Vec::new();
    for c in it: name.chars()
        invariant
            it.seq() == name@,
            out@ == units(name@.take(it.index() as int)),
    {
        let ghost k = it.index() as int;
        assert(name@.take(k + 1).drop_last() =~= name@.take(k));
        assert(name@.take(k + 1).last() == c);
        let ghost before = out@;
        let v: u32 = c as u32;
        if v < 0x1_0000 {
            out.push(v as u16);
            assert(out@ =~= before + units_of(c));
        } else {
            out.push((0xD800 + (v - 0x1_0000) / 0x400) as u16);
            out.push((0xDC00 + (v - 0x1_0000) % 0x400) as u16);
            assert(out@ =~= before + units_of(c));
        }
    }
    assert(name@.take(name@.len() as int) =~= name@);
    out
}

/// Units that do not end in half a pair can be decoded on their own.
pub proof fn lemma_decoded_append(a: Seq<u16>, b: Seq<u16>)
    requires
        a.len() > 0 ==> !is_high(a.last()),
    ensures
        decoded(a + b) == decoded(a) + decoded(b),
    decreases a.len(),
{
    if a.len() == 0 {
        assert(a + b =~= b);
        assert(decoded(a) + decoded(b) =~= decoded(b));
    } else {
        let n: int = if is_high(a[0]) && a.len() >= 2 && is_low(a[1]) {
            2
        } else {
            1
        };
        assert((a + b).skip(n) =~= a.skip(n) + b);
        lemma_decoded_append(a.skip(n), b);
        let first = decoded(a + b)[0];
        assert(decoded(a + b) =~= seq![first] + decoded((a + b).skip(n)));
        assert(decoded(a) =~= seq![first] + decoded(a.skip(n)));
        assert(decoded(a + b) =~= decoded(a) + decoded(b));
    }
}

/// One character in UTF-16 decodes to itself.
proof fn lemma_one_character(c: char)
    ensures
        decoded(units_of(c)) == seq![c],
        !is_high(units_of(c).last()),
{
    let u = units_of(c);
    let v = c as u32;
    if v < 0x1_0000 {
        assert(u.skip(1) =~= Seq::empty());
        assert(decoded(u.skip(1)) =~= Seq::empty());
        assert(decoded(u) =~= seq![c]);
    } else {
        assert(u.skip(2) =~= Seq::empty());
        assert(decoded(u.skip(2)) =~= Seq::empty());
        assert(is_high(u[0]) && is_low(u[1]));
        assert(decoded(u) =~= seq![c]);
    }
}

/// A name in UTF-16 decodes to itself, and does not end in half a pair.
pub proof fn law_utf16_round_trip(name: Seq<char>)
    ensures
        decoded(units(name)) == name,
        units(name).len() > 0 ==> !is_high(units(name).last()),
        name.len() > 0 ==> units(name).len() > 0,
    decreases name.len(),
{
    if name.len() == 0 {
        assert(decoded(units(name)) =~= name);
    } else {
        let c = name.last();
        let u = units_of(c);
        law_utf16_round_trip(name.drop_last());
        lemma_decoded_append(units(name.drop_last()), u);
        lemma_one_character(c);
        assert(name.drop_last() + seq![c] =~= name);
    }
}

// ------------------------------------------------------------- long names
/// How many entries a name of `len` units takes.
pub open spec fn parts_for(len: int) -> int {
    if len == 0 {
        1
    } else {
        (len + 12) / 13
    }
}

/// What stands at position `i` of a name: its unit, then a terminator, then
/// padding.
pub open spec fn unit_at(u: Seq<u16>, i: int) -> u16 {
    if i < u.len() {
        u[i]
    } else if i == u.len() {
        0
    } else {
        0xFFFF
    }
}

/// `n` positions of a name from `from` on, as bytes.
pub open spec fn run_of(u: Seq<u16>, from: int, n: int) -> Seq<u8>
    decreases n,
{
    if n <= 0 {
        Seq::empty()
    } else {
        run_of(u, from, n - 1) + crate::bytes::le16(unit_at(u, from + n - 1))
    }
}

/// The number of an entry, with the flag that marks the last part of a name.
pub open spec fn mark_of(parts: int, part: int) -> u8 {
    if part == parts - 1 {
        ((part + 1) as u8) | 0x40
    } else {
        (part + 1) as u8
    }
}

/// One long-name entry: thirteen units in three runs, and the checksum of the
/// alias it belongs to.
pub open spec fn long_entry(u: Seq<u16>, part: int, checksum: u8) -> Seq<u8> {
    seq![mark_of(parts_for(u.len() as int), part)] + run_of(u, 13 * part, 5) + seq![
        0x0Fu8,
        0,
        checksum,
    ] + run_of(u, 13 * part + 5, 6) + seq![0u8, 0] + run_of(u, 13 * part + 11, 2)
}

/// The long-name entries in the order they go on the disk: last part first.
pub open spec fn long_entries(u: Seq<u16>, checksum: u8) -> Seq<Seq<u8>> {
    let parts = parts_for(u.len() as int);
    Seq::new(parts as nat, |i: int| long_entry(u, parts - 1 - i, checksum))
}

fn unit_of(u: &Vec<u16>, i: usize) -> (r: u16)
    ensures
        r == unit_at(u@, i as int),
{
    if i < u.len() {
        u[i]
    } else if i == u.len() {
        0
    } else {
        0xFFFF
    }
}

fn push_run(e: &mut Vec<u8>, u: &Vec<u16>, from: usize, n: usize)
    requires
        from + n <= usize::MAX,
    ensures
        final(e)@ == old(e)@ + run_of(u@, from as int, n as int),
{
    let ghost start = e@;
    let mut i: usize = 0;
    assert(e@ =~= start + run_of(u@, from as int, 0));
    while i < n
        invariant
            i <= n,
            from + n <= usize::MAX,
            e@ == start + run_of(u@, from as int, i as int),
        decreases n - i,
    {
        let ghost before = e@;
        push16(e, unit_of(u, from + i));
        i = i + 1;
        assert(e@ =~= start + run_of(u@, from as int, i as int));
    }
}

/// One long-name entry.
fn long_name_entry(u: &Vec<u16>, parts: usize, part: usize, checksum: u8) -> (r: Vec<u8>)
    requires
        part < parts,
        parts == parts_for(u@.len() as int),
        13 * parts <= usize::MAX,
    ensures
        r@ == long_entry(u@, part as int, checksum),
{
    let mut e: Vec<u8> = Vec::new();
    let sequence: u8 = (part + 1) as u8;
    e.push(
        if part == parts - 1 {
            sequence | 0x40
        } else {
            sequence
        },
    );
    push_run(&mut e, u, 13 * part, 5);
    e.push(0x0F);
    e.push(0);
    e.push(checksum);
    push_run(&mut e, u, 13 * part + 5, 6);
    e.push(0);
    e.push(0);
    push_run(&mut e, u, 13 * part + 11, 2);
    assert(e@ =~= long_entry(u@, part as int, checksum));
    e
}

/// The long-name entries, in the order they go on the disk: last part first,
/// with the final one flagged, so that reading them backwards rebuilds the
/// name.
pub fn long_name_entries(name: &str, checksum: u8) -> (r: Vec<Vec<u8>>)
    requires
        units(name@).len() + 13 <= usize::MAX,
    ensures
        r@.map_values(|e: Vec<u8>| e@) =~= long_entries(units(name@), checksum),
        r@.len() == parts_for(units(name@).len() as int),
{
    let u: Vec<u16> = encode(name);
    let parts: usize = if u.len() == 0 {
        1
    } else {
        (u.len() + 12) / 13
    };
    let mut out: Vec<Vec<u8>> = Vec::new();
    let mut part: usize = parts;
    while part > 0
        invariant
            part <= parts,
            u@ == units(name@),
            parts == parts_for(u@.len() as int),
            13 * parts <= usize::MAX,
            out@.len() == parts - part,
            forall|i: int|
                0 <= i < out@.len() ==> (#[trigger] out@[i])@ == long_entry(
                    u@,
                    parts - 1 - i,
                    checksum,
                ),
        decreases part,
    {
        part = part - 1;
        let e: Vec<u8> = long_name_entry(&u, parts, part, checksum);
        out.push(e);
    }
    out
}

/// The units from `at` on, up to a terminator or padding, `n` at most.
pub open spec fn upto(e: Seq<u8>, at: int, n: int) -> Seq<u16>
    decreases n,
{
    let u = crate::bytes::word16(e, at);
    if n <= 0 || u == 0 || u == 0xFFFF {
        Seq::empty()
    } else {
        seq![u] + upto(e, at + 2, n - 1)
    }
}

/// The units a long-name entry carries, in their three runs.
pub open spec fn part_units(e: Seq<u8>) -> Seq<u16> {
    upto(e, 1, 5) + upto(e, 14, 6) + upto(e, 28, 2)
}

fn push_upto(out: &mut Vec<u16>, e: &[u8], from: usize, n: usize)
    requires
        from + 2 * n <= e.len(),
    ensures
        final(out)@ == old(out)@ + upto(e@, from as int, n as int),
{
    let ghost start = out@;
    let ghost all = upto(e@, from as int, n as int);
    let mut i: usize = 0;
    assert(start + all =~= out@ + upto(e@, from as int, n as int));
    while i < n
        invariant
            i <= n,
            from + 2 * n <= e.len(),
            all == upto(e@, from as int, n as int),
            start == old(out)@,
            start + all == out@ + upto(e@, from + 2 * i, n - i),
        decreases n - i,
    {
        let u: u16 = get16(e, from + 2 * i);
        if u == 0 || u == 0xFFFF {
            assert(out@ + Seq::<u16>::empty() =~= out@);
            return ;
        }
        let ghost before = out@;
        let ghost rest = upto(e@, from + 2 * i + 2, n - i - 1);
        out.push(u);
        assert(before + (seq![u] + rest) =~= out@ + rest);
        i = i + 1;
    }
    assert(out@ + Seq::<u16>::empty() =~= out@);
}

/// The 13 characters a long-name entry carries, in their three runs.
pub fn long_name_part(e: &[u8]) -> (r: String)
    requires
        e.len() == 32,
    ensures
        r@ == decoded(part_units(e@)),
{
    let mut u: Vec<u16> = Vec::new();
    push_upto(&mut u, e, 1, 5);
    push_upto(&mut u, e, 14, 6);
    push_upto(&mut u, e, 28, 2);
    assert(u@ =~= part_units(e@));
    decode(u.as_slice())
}

// ---------------------------------------------------------------- aliases
/// The file name that an 8.3 entry gives.
pub open spec fn short_text(e: Seq<u8>) -> Seq<char> {
    let base = crate::text::trimmed_end(lossy(e.subrange(0, 8)));
    let ext = crate::text::trimmed_end(lossy(e.subrange(8, 11)));
    if ext.len() == 0 {
        base
    } else {
        base + "."@ + ext
    }
}

pub fn short_name_of(e: &[u8]) -> (r: String)
    requires
        e.len() == 32,
    ensures
        r@ == short_text(e@),
{
    let stem: String = from_utf8(vstd::slice::slice_subrange(e, 0, 8));
    let tail: String = from_utf8(vstd::slice::slice_subrange(e, 8, 11));
    let mut base: String = trim_end(stem.as_str());
    let ext: String = trim_end(tail.as_str());
    if ext.as_str().unicode_len() > 0 {
        base.append(".");
        base.append(ext.as_str());
    }
    base
}

/// A character an 8.3 name may hold.
pub open spec fn keeps(c: char) -> bool {
    let v = c as u32;
    ||| 0x30 <= v <= 0x39
    ||| 0x41 <= v <= 0x5A
    ||| 0x61 <= v <= 0x7A
    ||| v == 0x21
    ||| 0x23 <= v <= 0x29
    ||| v == 0x2D
    ||| v == 0x40
    ||| 0x5E <= v <= 0x60
    ||| v == 0x7B
    ||| v == 0x7D
    ||| v == 0x7E
}

/// What an 8.3 name keeps of a text: the characters it may hold, in capitals.
pub open spec fn kept(s: Seq<char>) -> Seq<u8>
    decreases s.len(),
{
    if s.len() == 0 {
        Seq::empty()
    } else if keeps(s.last()) {
        kept(s.drop_last()).push(super::fat32::upper(s.last() as u8))
    } else {
        kept(s.drop_last())
    }
}

/// Where the last dot in front of `n` stands, or -1.
pub open spec fn last_dot(s: Seq<char>, n: int) -> int
    decreases n,
{
    if n <= 0 {
        -1
    } else if s[n - 1] == '.' {
        n - 1
    } else {
        last_dot(s, n - 1)
    }
}

/// A name without its extension. A name that starts with its only dot has
/// none.
pub open spec fn stem_of(name: Seq<char>) -> Seq<char> {
    let dot = last_dot(name, name.len() as int);
    if dot > 0 {
        name.take(dot)
    } else {
        name
    }
}

/// The extension of a name.
pub open spec fn extension_of(name: Seq<char>) -> Seq<char> {
    let dot = last_dot(name, name.len() as int);
    if dot > 0 {
        name.skip(dot + 1)
    } else {
        Seq::empty()
    }
}

/// `n` in decimal, in ASCII.
pub open spec fn digits(n: nat) -> Seq<u8>
    decreases n,
{
    if n < 10 {
        seq![(0x30 + n) as u8]
    } else {
        digits(n / 10).push((0x30 + n % 10) as u8)
    }
}

/// What tells similar aliases apart.
pub open spec fn tail_of(n: u32) -> Seq<u8> {
    seq![0x7Eu8] + digits(n as nat)
}

/// How much of the stem there is room for in front of the tail.
pub open spec fn head_of(stem: Seq<u8>, tail: Seq<u8>) -> int {
    let room = if tail.len() < 8 {
        8 - tail.len()
    } else {
        0
    };
    if stem.len() < room {
        stem.len() as int
    } else {
        room
    }
}

/// The 8.3 alias: upper case, padded, with `~n` to tell similar names apart.
pub open spec fn alias(name: Seq<char>, n: u32) -> Seq<u8> {
    let stem = kept(stem_of(name));
    let ext = kept(extension_of(name));
    let tail = tail_of(n);
    let head = head_of(stem, tail);
    Seq::new(
        11,
        |i: int|
            if 8 <= i && i - 8 < ext.len() {
                ext[i - 8]
            } else if i < head {
                stem[i]
            } else if i < head + tail.len() {
                tail[i - head]
            } else {
                0x20
            },
    )
}

fn kept_byte(c: char) -> (r: Option<u8>)
    ensures
        r == (if keeps(c) {
            Some(super::fat32::upper(c as u8))
        } else {
            None
        }),
{
    let v: u32 = c as u32;
    if (0x30 <= v && v <= 0x39) || (0x41 <= v && v <= 0x5A) || (0x61 <= v && v <= 0x7A) || v
        == 0x21 || (0x23 <= v && v <= 0x29) || v == 0x2D || v == 0x40 || (0x5E <= v && v <= 0x60)
        || v == 0x7B || v == 0x7D || v == 0x7E {
        let b: u8 = v as u8;
        if 0x61 <= b && b <= 0x7A {
            Some(b - 0x20)
        } else {
            Some(b)
        }
    } else {
        None
    }
}

fn keep(s: &Vec<char>, from: usize, to: usize) -> (r: Vec<u8>)
    requires
        from <= to <= s@.len(),
    ensures
        r@ == kept(s@.subrange(from as int, to as int)),
{
    let ghost t = s@.subrange(from as int, to as int);
    let mut out: Vec<u8> = Vec::new();
    let mut i: usize = from;
    while i < to
        invariant
            from <= i <= to <= s@.len(),
            t == s@.subrange(from as int, to as int),
            out@ == kept(t.take(i - from)),
        decreases to - i,
    {
        assert(t.take(i - from + 1).drop_last() =~= t.take(i - from));
        assert(t.take(i - from + 1).last() == s@[i as int]);
        if let Some(c) = kept_byte(s[i]) {
            out.push(c);
        }
        i = i + 1;
    }
    assert(t.take(to - from) =~= t);
    out
}

fn push_digits(out: &mut Vec<u8>, n: u32)
    ensures
        final(out)@ == old(out)@ + digits(n as nat),
    decreases n,
{
    if n >= 10 {
        push_digits(out, n / 10);
    }
    let ghost before = out@;
    out.push((0x30 + n % 10) as u8);
    assert(n >= 10 ==> out@ =~= old(out)@ + digits(n as nat));
}

/// A number of 32 bits has ten digits at most.
proof fn lemma_digits_len(n: nat, places: nat)
    requires
        places >= 1,
        n < vstd::arithmetic::power::pow(10, places),
    ensures
        1 <= digits(n).len() <= places,
    decreases n,
{
    vstd::arithmetic::power::lemma_pow1(10);
    if n >= 10 {
        if places == 1 {
            assert(false);
        }
        vstd::arithmetic::power::lemma_pow_adds(10, (places - 1) as nat, 1);
        assert(n / 10 < vstd::arithmetic::power::pow(10, (places - 1) as nat));
        lemma_digits_len(n / 10, (places - 1) as nat);
    }
}

/// The tail of an alias fits an 8.3 name.
pub proof fn lemma_tail_len(n: u32)
    ensures
        2 <= tail_of(n).len() <= 11,
{
    assert(vstd::arithmetic::power::pow(10, 10) == 10_000_000_000) by {
        reveal_with_fuel(vstd::arithmetic::power::pow, 11);
    }
    lemma_digits_len(n as nat, 10);
}

/// The 8.3 alias: upper case, padded, with `~n` to tell similar names apart.
pub fn short_name(name: &str, n: u32) -> (r: [u8; 11])
    ensures
        r@ =~= alias(name@, n),
{
    let s: Vec<char> = characters(name);
    let mut dot: usize = s.len();
    while dot > 0 && s[dot - 1] != '.'
        invariant
            s@ == name@,
            dot <= s@.len(),
            last_dot(s@, s@.len() as int) == last_dot(s@, dot as int),
        decreases dot,
    {
        dot = dot - 1;
    }
    // Behind the last dot, if there is one that is not the first character.
    let (stem, ext): (Vec<u8>, Vec<u8>) = if dot > 1 {
        assert(s@.subrange(0, dot - 1) =~= stem_of(name@));
        assert(s@.subrange(dot as int, s@.len() as int) =~= extension_of(name@));
        (keep(&s, 0, dot - 1), keep(&s, dot, s.len()))
    } else {
        assert(s@.subrange(0, s@.len() as int) =~= stem_of(name@));
        (keep(&s, 0, s.len()), Vec::new())
    };
    assert(ext@ == kept(extension_of(name@)));
    let mut tail: Vec<u8> = Vec::new();
    tail.push(0x7E);
    push_digits(&mut tail, n);
    assert(tail@ == tail_of(n));
    let room: usize = if tail.len() < 8 {
        8 - tail.len()
    } else {
        0
    };
    let head: usize = if stem.len() < room {
        stem.len()
    } else {
        room
    };
    proof {
        lemma_tail_len(n);
    }
    let mut out: [u8; 11] = [0x20; 11];
    let mut i: usize = 0;
    while i < 11
        invariant
            i <= 11,
            head == head_of(stem@, tail@),
            tail@.len() <= 11,
            stem@ == kept(stem_of(name@)),
            ext@ == kept(extension_of(name@)),
            tail@ == tail_of(n),
            forall|j: int| 0 <= j < i ==> #[trigger] out@[j] == alias(name@, n)[j],
        decreases 11 - i,
    {
        out[i] = if 8 <= i && i - 8 < ext.len() {
            ext[i - 8]
        } else if i < head {
            stem[i]
        } else if i < head + tail.len() {
            tail[i - head]
        } else {
            0x20
        };
        i = i + 1;
    }
    out
}

pub open spec fn rotated(x: u8) -> u8 {
    (x >> 1) | (x << 7)
}

/// A rotate and add, one byte at a time.
pub open spec fn checksum_of(s: Seq<u8>) -> u8
    decreases s.len(),
{
    if s.len() == 0 {
        0
    } else {
        rotated(checksum_of(s.drop_last())).wrapping_add(s.last())
    }
}

/// The checksum every long-name entry carries, of the short name it belongs
/// to. A rotate and add, one byte at a time, and it must match or the long
/// name is ignored.
pub fn short_checksum(short: &[u8; 11]) -> (r: u8)
    ensures
        r == checksum_of(short@),
{
    let mut sum: u8 = 0;
    let mut i: usize = 0;
    while i < 11
        invariant
            i <= 11,
            sum == checksum_of(short@.take(i as int)),
        decreases 11 - i,
    {
        assert(short@.take(i as int + 1).drop_last() =~= short@.take(i as int));
        sum = ((sum >> 1) | (sum << 7)).wrapping_add(short[i]);
        i = i + 1;
    }
    assert(short@.take(11) =~= short@);
    sum
}

// ------------------------------------------------------------------- laws
/// A name whose parts can be read one at a time: no unit is mistaken for the
/// end of the name, and no surrogate pair lies across two entries.
pub open spec fn divides(u: Seq<u16>) -> bool {
    &&& forall|i: int| 0 <= i < u.len() ==> #[trigger] u[i] != 0 && u[i] != 0xFFFF
    &&& forall|k: int| 0 < k && 13 * k < u.len() ==> !is_high(#[trigger] u[13 * k - 1])
}

/// The long name after the first `n` entries have been read.
pub open spec fn gathered(entries: Seq<Seq<u8>>, n: int) -> Seq<char>
    decreases n,
{
    if n <= 0 {
        Seq::empty()
    } else {
        decoded(part_units(entries[n - 1])) + gathered(entries, n - 1)
    }
}

/// What the first `n` entries give is theirs alone.
pub proof fn lemma_gathered_prefix(x: Seq<Seq<u8>>, y: Seq<Seq<u8>>, n: int)
    requires
        n <= x.len(),
        n <= y.len(),
        forall|i: int| 0 <= i < n ==> #[trigger] x[i] == y[i],
    ensures
        gathered(x, n) == gathered(y, n),
    decreases n,
{
    if n > 0 {
        assert(x[n - 1] == y[n - 1]);
        lemma_gathered_prefix(x, y, n - 1);
    }
}

/// The part of a name from `from` on, `n` units at most.
pub open spec fn slice_of(u: Seq<u16>, from: int, n: int) -> Seq<u16> {
    if from >= u.len() {
        Seq::empty()
    } else if from + n >= u.len() {
        u.subrange(from, u.len() as int)
    } else {
        u.subrange(from, from + n)
    }
}

proof fn lemma_run(u: Seq<u16>, from: int, n: int, k: int)
    requires
        0 <= k < n,
    ensures
        run_of(u, from, n).len() == 2 * n,
        crate::bytes::word16(run_of(u, from, n), 2 * k) == unit_at(u, from + k),
    decreases n,
{
    lemma_run_len(u, from, n);
    lemma_run_len(u, from, n - 1);
    crate::bytes::lemma_word16_round_trip(unit_at(u, from + n - 1));
    if k < n - 1 {
        lemma_run(u, from, n - 1, k);
    }
}

proof fn lemma_run_len(u: Seq<u16>, from: int, n: int)
    requires
        0 <= n,
    ensures
        run_of(u, from, n).len() == 2 * n,
    decreases n,
{
    if n > 0 {
        lemma_run_len(u, from, n - 1);
    }
}

/// Reading a run gives back the units of the name that stand in it.
proof fn lemma_upto_run(u: Seq<u16>, from: int, n: int, e: Seq<u8>, at: int, k: int)
    requires
        0 <= from,
        0 <= k <= n,
        0 <= at,
        at + 2 * n <= e.len(),
        forall|j: int|
            0 <= j < n ==> crate::bytes::word16(e, at + 2 * j) == #[trigger] unit_at(u, from + j),
        forall|i: int| 0 <= i < u.len() ==> #[trigger] u[i] != 0 && u[i] != 0xFFFF,
    ensures
        upto(e, at + 2 * k, n - k) == slice_of(u, from + k, n - k),
    decreases n - k,
{
    if k < n {
        assert(unit_at(u, from + k) == crate::bytes::word16(e, at + 2 * k));
        lemma_upto_run(u, from, n, e, at, k + 1);
        assert(upto(e, at + 2 * k, n - k) =~= slice_of(u, from + k, n - k));
    } else {
        assert(upto(e, at + 2 * k, n - k) =~= slice_of(u, from + k, n - k));
    }
}

/// A long-name entry is 32 bytes, is marked as one, and gives back the units
/// of its part.
pub proof fn lemma_long_entry(u: Seq<u16>, part: int, checksum: u8)
    requires
        0 <= part,
    ensures
        long_entry(u, part, checksum).len() == 32,
        long_entry(u, part, checksum)[0] == mark_of(parts_for(u.len() as int), part),
        long_entry(u, part, checksum)[11] == 0x0F,
        long_entry(u, part, checksum)[13] == checksum,
        divides(u) ==> part_units(long_entry(u, part, checksum)) == slice_of(u, 13 * part, 13),
{
    let e = long_entry(u, part, checksum);
    let b = 13 * part;
    lemma_run_len(u, b, 5);
    lemma_run_len(u, b + 5, 6);
    lemma_run_len(u, b + 11, 2);
    if divides(u) {
        assert forall|j: int| 0 <= j < 5 implies crate::bytes::word16(e, 1 + 2 * j)
            == #[trigger] unit_at(u, b + j) by {
            lemma_run(u, b, 5, j);
        }
        lemma_upto_run(u, b, 5, e, 1, 0);
        assert forall|j: int| 0 <= j < 6 implies crate::bytes::word16(e, 14 + 2 * j)
            == #[trigger] unit_at(u, b + 5 + j) by {
            lemma_run(u, b + 5, 6, j);
        }
        lemma_upto_run(u, b + 5, 6, e, 14, 0);
        assert forall|j: int| 0 <= j < 2 implies crate::bytes::word16(e, 28 + 2 * j)
            == #[trigger] unit_at(u, b + 11 + j) by {
            lemma_run(u, b + 11, 2, j);
        }
        lemma_upto_run(u, b + 11, 2, e, 28, 0);
        assert(part_units(e) =~= slice_of(u, b, 13));
    }
}

proof fn lemma_gathered(u: Seq<u16>, checksum: u8, n: int)
    requires
        divides(u),
        u.len() > 0 ==> !is_high(u.last()),
        0 <= n <= parts_for(u.len() as int),
    ensures
        gathered(long_entries(u, checksum), n) == decoded(
            slice_of(u, 13 * (parts_for(u.len() as int) - n), u.len() as int),
        ),
    decreases n,
{
    let parts = parts_for(u.len() as int);
    let entries = long_entries(u, checksum);
    if n == 0 {
        assert(slice_of(u, 13 * parts, u.len() as int) =~= Seq::empty());
        assert(gathered(entries, 0) =~= decoded(Seq::empty()));
    } else {
        let part = parts - n;
        lemma_gathered(u, checksum, n - 1);
        lemma_long_entry(u, part, checksum);
        assert(entries[n - 1] == long_entry(u, part, checksum));
        let a = slice_of(u, 13 * part, 13);
        let b = slice_of(u, 13 * (part + 1), u.len() as int);
        assert(a + b =~= slice_of(u, 13 * part, u.len() as int));
        assert(a.len() > 0 ==> !is_high(a.last())) by {
            if a.len() > 0 {
                if 13 * part + 13 < u.len() {
                    assert(a.last() == u[13 * (part + 1) - 1]);
                } else {
                    assert(a.last() == u.last());
                }
            }
        }
        lemma_decoded_append(a, b);
    }
}

/// The name a user typed, not the alias: reading the long-name entries back,
/// in the order they stand on the disk, gives the name they were made from.
pub proof fn law_long_name_survives(name: Seq<char>, checksum: u8)
    requires
        divides(units(name)),
    ensures
        ({
            let entries = long_entries(units(name), checksum);
            gathered(entries, entries.len() as int) == name
        }),
{
    let u = units(name);
    law_utf16_round_trip(name);
    lemma_gathered(u, checksum, parts_for(u.len() as int));
    assert(slice_of(u, 0, u.len() as int) =~= u);
}

/// Every long-name entry carries the checksum of the short name it belongs to
/// and the mark of a long name; the first on the disk is the flagged one, and
/// the last is number one.
pub proof fn law_every_entry_is_marked(u: Seq<u16>, checksum: u8, i: int)
    requires
        0 <= i < parts_for(u.len() as int),
    ensures
        long_entries(u, checksum)[i].len() == 32,
        long_entries(u, checksum)[i][11] == 0x0F,
        long_entries(u, checksum)[i][13] == checksum,
        long_entries(u, checksum)[0][0] == ((parts_for(u.len() as int) as u8) | 0x40),
        parts_for(u.len() as int) > 1 ==> long_entries(u, checksum).last()[0] == 1,
{
    let parts = parts_for(u.len() as int);
    lemma_long_entry(u, parts - 1 - i, checksum);
    lemma_long_entry(u, parts - 1, checksum);
    lemma_long_entry(u, 0, checksum);
}

/// The dot that parts a name from its extension is the last there is.
pub proof fn law_the_last_dot_is_found(s: Seq<char>, n: int)
    requires
        0 <= n <= s.len(),
    ensures
        -1 <= last_dot(s, n) < n,
        last_dot(s, n) >= 0 ==> s[last_dot(s, n)] == '.',
        forall|i: int| last_dot(s, n) < i < n ==> s[i] != '.',
    decreases n,
{
    if n > 0 && s[n - 1] != '.' {
        law_the_last_dot_is_found(s, n - 1);
    }
}

/// Digits are digits, and spell one number only.
proof fn lemma_digits(n: nat, m: nat)
    ensures
        digits(n).len() > 0,
        forall|i: int| 0 <= i < digits(n).len() ==> 0x30 <= #[trigger] digits(n)[i] <= 0x39,
        digits(n) == digits(m) ==> n == m,
    decreases n,
{
    if n >= 10 {
        lemma_digits(n / 10, m / 10);
        lemma_some_digits(m);
        assert(digits(n).drop_last() =~= digits(n / 10));
        assert(digits(n).last() == (0x30 + n % 10) as u8);
        if m >= 10 {
            assert(digits(m).drop_last() =~= digits(m / 10));
            assert(digits(m).last() == (0x30 + m % 10) as u8);
        } else {
            assert(digits(m).len() == 1);
        }
    } else {
        assert(digits(n).last() == (0x30 + n) as u8);
        if m >= 10 {
            lemma_some_digits(m / 10);
        } else {
            assert(digits(m).last() == (0x30 + m) as u8);
        }
    }
}

proof fn lemma_some_digits(n: nat)
    ensures
        digits(n).len() > 0,
    decreases n,
{
    if n >= 10 {
        lemma_some_digits(n / 10);
    }
}

/// Aliases of one name with different numbers are different, so that counting
/// on finds one that is not in use.
pub proof fn law_numbers_tell_aliases_apart(name: Seq<char>, n: u32, m: u32)
    requires
        n != m,
        tail_of(n).len() <= tail_of(m).len() <= 8,
    ensures
        alias(name, n) != alias(name, m),
{
    let stem = kept(stem_of(name));
    let a = alias(name, n);
    let b = alias(name, m);
    let t = tail_of(n);
    let u = tail_of(m);
    let h = head_of(stem, t);
    let k = head_of(stem, u);
    lemma_digits(n as nat, m as nat);
    lemma_digits(m as nat, n as nat);
    assert(forall|i: int| 0 < i < t.len() ==> #[trigger] t[i] == digits(n as nat)[i - 1]);
    assert(forall|i: int| 0 < i < u.len() ==> #[trigger] u[i] == digits(m as nat)[i - 1]);
    if a == b {
        if h > k {
            assert(a[h] == t[0]);
            assert(b[h] == u[h - k]);
            assert(u[h - k] == digits(m as nat)[h - k - 1]);
        } else if t.len() < u.len() {
            let i = h + t.len();
            assert(a[i] == 0x20);
            assert(b[i] == u[i - k]);
            assert(u[i - k] == digits(m as nat)[i - k - 1]);
        } else {
            assert forall|i: int| 0 <= i < digits(n as nat).len() implies digits(n as nat)[i]
                == digits(m as nat)[i] by {
                assert(a[h + 1 + i] == t[1 + i]);
                assert(b[h + 1 + i] == u[1 + i]);
            }
            assert(digits(n as nat) =~= digits(m as nat));
        }
    }
}

} // verus!
