//! Just enough of the Windows CE ROM registry to find one value.
//!
//! The boot registry is compiled into `NK.bin` as a flat run of records.
//! Each value is:
//!
//! ```text
//! u16 size          bytes from here to the next record, less this field and the next
//! u16 unknown       always 2 in this image
//! u16 data_len
//! u16 name_len      characters, including the terminating NUL
//! u16 type          4 is REG_DWORD
//! u16 name[name_len]
//! u8  data[data_len]
//! ```
//!
//! Which is enough to find a named DWORD and read or change it, without
//! implementing the format.
//!
//! # Why this is here
//!
//! `trueffs.dll` will not format a blank medium unless the registry value
//! **`AutoFormat`** under `Drivers\BuiltIn\TrueFFS` reads back non-zero. In
//! this ROM it is zero, because a real unit leaves the factory with its flash
//! already formatted.
//!
//! An emulated unit starts with a blank disk and nothing to format it, so
//! first-boot provisioning sets it. The change is made to the flash image
//! being built, never to `NK.bin` on disk.

use super::patch::put_slice;
use crate::bytes::{get16, get32, push16, split32};
use vstd::prelude::*;
use vstd::string::*;

verus! {

/// A DWORD value found in the compiled registry.
#[derive(Debug, Clone, Copy, PartialEq, Eq, Structural)]
pub struct DwordValue {
    /// Offset of the record header within the image.
    pub record: usize,
    /// Offset of the four data bytes within the image.
    pub data: usize,
    pub value: u32,
}

pub const TYPE_DWORD: u16 = 4;

/// The header is five halfwords, and the name follows it.
pub const HEADER: usize = 10;

/// The value that decides whether TrueFFS will format a blank medium.
pub const AUTO_FORMAT: &'static str = "AutoFormat";

/// Whether the storage manager creates a partition table on a medium that
/// has none. Off in this image, because a disk that leaves the factory is
/// already partitioned — which leaves a blank emulated one with nowhere for a
/// filesystem to go.
pub const AUTO_PART: &'static str = "AutoPart";

/// One character as UTF-16, low byte first: one unit, or a surrogate pair.
pub open spec fn utf16(c: char) -> Seq<u8> {
    let v = c as u32;
    if v < 0x1_0000 {
        crate::bytes::le16(v as u16)
    } else {
        crate::bytes::le16((0xD800 + (v - 0x1_0000) / 0x400) as u16) + crate::bytes::le16(
            (0xDC00 + (v - 0x1_0000) % 0x400) as u16,
        )
    }
}

/// A name as it stands in the image, without its terminator.
pub open spec fn wide(name: Seq<char>) -> Seq<u8>
    decreases name.len(),
{
    if name.len() == 0 {
        Seq::empty()
    } else {
        wide(name.drop_last()) + utf16(name.last())
    }
}

/// What the header gives as the name's length.
pub open spec fn counted(name: Seq<char>) -> u16 {
    (name.len() as u16).wrapping_add(1)
}

/// The first match of `needle` at or after `from`.
pub open spec fn first_match(image: Seq<u8>, needle: Seq<u8>, from: int) -> Option<int>
    decreases image.len() - from,
{
    if needle.len() == 0 || from < 0 || from >= image.len() {
        None
    } else if super::patch::matches_at(image, needle, from) {
        Some(from)
    } else {
        first_match(image, needle, from + 1)
    }
}

/// A name of `len` bytes at `found` has in front of it the header of a
/// four-byte DWORD with a name that long, and a terminator behind it.
pub open spec fn is_dword(image: Seq<u8>, found: int, len: int, chars: u16) -> bool {
    let record = found - HEADER;
    &&& found >= HEADER
    &&& crate::bytes::word16(image, record + 4) == 4
    &&& crate::bytes::word16(image, record + 6) == chars
    &&& crate::bytes::word16(image, record + 8) == TYPE_DWORD
    &&& found + len + 2 <= image.len()
    &&& crate::bytes::word16(image, found + len) == 0
}

/// The first record of that name at or after `from`, looking at one match
/// after another. One whose data is cut off by the end of the image ends the
/// search.
pub open spec fn found_from(
    image: Seq<u8>,
    needle: Seq<u8>,
    chars: u16,
    from: int,
) -> Option<DwordValue>
    decreases image.len() + 2 - from,
{
    match first_match(image, needle, from) {
        None => None,
        Some(found) => {
            let data = found + needle.len() + 2;
            if found < from || found > image.len() {
                None
            } else if !is_dword(image, found, needle.len() as int, chars) {
                found_from(image, needle, chars, found + 2)
            } else if data + 4 > image.len() {
                None
            } else {
                Some(
                    DwordValue {
                        record: (found - HEADER) as usize,
                        data: data as usize,
                        value: crate::bytes::word32(image, data),
                    },
                )
            }
        },
    }
}

/// Every record of that name at or after `from`, each looked for behind the
/// data of the one before.
pub open spec fn all_from(
    image: Seq<u8>,
    needle: Seq<u8>,
    chars: u16,
    from: int,
) -> Seq<DwordValue>
    decreases image.len() + 4 - from,
{
    match found_from(image, needle, chars, from) {
        None => Seq::empty(),
        Some(v) => if v.data < from || v.data > image.len() {
            Seq::empty()
        } else {
            seq![v] + all_from(image, needle, chars, v.data + 4)
        },
    }
}

/// The value of that name, if the image has one.
pub open spec fn named(image: Seq<u8>, name: Seq<char>) -> Option<DwordValue> {
    found_from(image, wide(name), counted(name), 0)
}

/// Every value of that name.
pub open spec fn all_named(image: Seq<u8>, name: Seq<char>) -> Seq<DwordValue> {
    all_from(image, wide(name), counted(name), 0)
}

/// The image with the data of one record changed.
pub open spec fn with_value(image: Seq<u8>, data: int, value: u32) -> Seq<u8> {
    crate::bytes::overlaid(image, data, crate::bytes::le32(value))
}

/// The image with the data of each of the first `n` records changed.
pub open spec fn with_values(image: Seq<u8>, found: Seq<DwordValue>, value: u32, n: int) -> Seq<u8>
    decreases n,
{
    if n <= 0 {
        image
    } else {
        with_value(with_values(image, found, value, n - 1), found[n - 1].data as int, value)
    }
}

proof fn lemma_first_match(image: Seq<u8>, needle: Seq<u8>, from: int)
    requires
        0 <= from,
    ensures
        match first_match(image, needle, from) {
            Some(i) => {
                &&& from <= i
                &&& needle.len() > 0
                &&& super::patch::matches_at(image, needle, i)
                &&& forall|j: int|
                    from <= j < i ==> !#[trigger] super::patch::matches_at(image, needle, j)
            },
            None => needle.len() == 0 || forall|j: int|
                from <= j ==> !#[trigger] super::patch::matches_at(image, needle, j),
        },
    decreases image.len() - from,
{
    if needle.len() != 0 && from < image.len() && !super::patch::matches_at(image, needle, from) {
        lemma_first_match(image, needle, from + 1);
    }
}

/// A record found lies at or behind where the search began, in the image.
proof fn lemma_found(image: Seq<u8>, needle: Seq<u8>, chars: u16, from: int)
    requires
        0 <= from,
        image.len() <= usize::MAX,
    ensures
        match found_from(image, needle, chars, from) {
            Some(v) => {
                &&& from <= v.record + HEADER
                &&& v.record + HEADER + needle.len() + 2 == v.data
                &&& v.data + 4 <= image.len()
                &&& v.value == crate::bytes::word32(image, v.data as int)
                &&& super::patch::matches_at(image, needle, v.record + HEADER)
                &&& is_dword(image, v.record + HEADER, needle.len() as int, chars)
            },
            None => true,
        },
    decreases image.len() + 2 - from,
{
    lemma_first_match(image, needle, from);
    if let Some(found) = first_match(image, needle, from) {
        if !is_dword(image, found, needle.len() as int, chars) {
            lemma_found(image, needle, chars, found + 2);
        }
    }
}

fn encode_wide(name: &str) -> (r: (Vec<u8>, u16))
    ensures
        r.0@ == wide(name@),
        r.1 == counted(name@),
{
    let mut out: Vec<u8> = Vec::new();
    for c in it: name.chars()
        invariant
            it.seq() == name@,
            out@ == wide(name@.take(it.index() as int)),
    {
        let ghost k = it.index();
        assert(name@.take(k as int + 1).drop_last() =~= name@.take(k as int));
        assert(name@.take(k as int + 1).last() == c);
        let v: u32 = c as u32;
        if v < 0x1_0000 {
            push16(&mut out, v as u16);
        } else {
            push16(&mut out, (0xD800 + (v - 0x1_0000) / 0x400) as u16);
            push16(&mut out, (0xDC00 + (v - 0x1_0000) % 0x400) as u16);
        }
    }
    assert(name@.take(name@.len() as int) =~= name@);
    let count: usize = name.unicode_len();
    (out, (count as u16).wrapping_add(1))
}

fn find_from(image: &[u8], needle: &[u8], from: usize) -> (r: Option<usize>)
    ensures
        match r {
            Some(i) => first_match(image@, needle@, from as int) == Some(i as int),
            None => first_match(image@, needle@, from as int) is None,
        },
{
    if needle.len() == 0 {
        return None;
    }
    let mut i: usize = from;
    while i < image.len()
        invariant
            from <= i,
            needle@.len() > 0,
            first_match(image@, needle@, from as int) == first_match(image@, needle@, i as int),
        decreases image.len() - i,
    {
        if needle.len() <= image.len() - i && super::patch::same_bytes(
            image,
            i,
            needle,
            0,
            needle.len(),
        ) {
            assert(needle@.subrange(0, needle@.len() as int) =~= needle@);
            return Some(i);
        }
        assert(needle@.subrange(0, needle@.len() as int) =~= needle@);
        i = i + 1;
    }
    None
}

fn search(image: &[u8], needle: &[u8], chars: u16, start: usize) -> (r: Option<DwordValue>)
    ensures
        r == found_from(image@, needle@, chars, start as int),
{
    let mut from: usize = start;
    loop
        invariant
            found_from(image@, needle@, chars, start as int) == found_from(
                image@,
                needle@,
                chars,
                from as int,
            ),
        decreases image.len() + 2 - from,
    {
        proof {
            lemma_first_match(image@, needle@, from as int);
        }
        let found: usize = match find_from(image, needle, from) {
            Some(i) => i,
            None => {
                return None;
            },
        };
        let ok = found >= HEADER && get16(image, found - 6) == 4 && get16(image, found - 4)
            == chars && get16(image, found - 2) == TYPE_DWORD && image.len() - found
            - needle.len() >= 2 && get16(image, found + needle.len()) == 0;
        assert(ok == is_dword(image@, found as int, needle@.len() as int, chars));
        if ok {
            let data: usize = found + needle.len() + 2;
            if image.len() - data < 4 {
                return None;
            }
            return Some(DwordValue { record: found - HEADER, data, value: get32(image, data) });
        }
        if image.len() - found < 2 {
            assert(first_match(image@, needle@, found + 2) is None);
            return None;
        }
        from = found + 2;
    }
}

/// Find every REG_DWORD with this name.
///
/// The name is not unique: this image carries an `AutoFormat` under each
/// storage profile, six in all. Which one belongs to TrueFFS would need the
/// key structure, not just the value records — so callers that want to be
/// sure of hitting the right one set all of them, which for an emulator whose
/// disks all start blank is the intended answer anyway.
pub fn find_all_dwords(image: &[u8], name: &str) -> (r: Vec<DwordValue>)
    ensures
        r@ == all_named(image@, name@),
{
    let (needle, chars): (Vec<u8>, u16) = encode_wide(name);
    let mut out: Vec<DwordValue> = Vec::new();
    let mut from: usize = 0;
    assert(out@ + all_from(image@, needle@, chars, 0) =~= all_named(image@, name@));
    loop
        invariant
            from <= image@.len(),
            out@ + all_from(image@, needle@, chars, from as int) == all_named(image@, name@),
        decreases image.len() - from,
    {
        proof {
            lemma_found(image@, needle@, chars, from as int);
        }
        match search(image, needle.as_slice(), chars, from) {
            None => {
                assert(out@ + all_from(image@, needle@, chars, from as int) =~= out@);
                return out;
            },
            Some(v) => {
                // Past the data, not past the header: the record's name starts
                // right behind the header, so resuming there finds the same
                // record again, forever.
                let ghost rest = all_from(image@, needle@, chars, v.data + 4);
                let ghost before = out@;
                out.push(v);
                assert(before + (seq![v] + rest) =~= out@ + rest);
                from = v.data + 4;
            },
        }
    }
}

/// Set every REG_DWORD with this name, returning what each was.
pub fn set_all_dwords(image: &mut [u8], name: &str, value: u32) -> (r: Vec<DwordValue>)
    ensures
        r@ == all_named(old(image)@, name@),
        final(image)@ == with_values(old(image)@, r@, value, r@.len() as int),
{
    let found: Vec<DwordValue> = find_all_dwords(image, name);
    proof {
        assert(image.len() == image@.len());
        lemma_all_inside(image@, wide(name@), counted(name@), 0);
    }
    let bytes: [u8; 4] = split32(value);
    assert(bytes@ == crate::bytes::le32(value));
    let mut i: usize = 0;
    while i < found.len()
        invariant
            i <= found@.len(),
            bytes@ == crate::bytes::le32(value),
            image@ == with_values(old(image)@, found@, value, i as int),
            image@.len() == old(image)@.len(),
            forall|j: int| 0 <= j < found@.len() ==> #[trigger] found@[j].data + 4 <= image@.len(),
        decreases found.len() - i,
    {
        put_slice(image, found[i].data, bytes.as_slice());
        i = i + 1;
    }
    found
}

/// Every record found lies in the image, and they come in ascending order.
proof fn lemma_all_inside(image: Seq<u8>, needle: Seq<u8>, chars: u16, from: int)
    requires
        0 <= from,
        image.len() <= usize::MAX,
    ensures
        forall|j: int|
            0 <= j < all_from(image, needle, chars, from).len() ==> {
                let v = #[trigger] all_from(image, needle, chars, from)[j];
                from <= v.record + HEADER && v.data + 4 <= image.len()
            },
        forall|i: int, j: int|
            0 <= i < j < all_from(image, needle, chars, from).len() ==> #[trigger] all_from(
                image,
                needle,
                chars,
                from,
            )[i].data + 4 <= #[trigger] all_from(image, needle, chars, from)[j].record + HEADER,
    decreases image.len() + 4 - from,
{
    lemma_found(image, needle, chars, from);
    if let Some(v) = found_from(image, needle, chars, from) {
        lemma_all_inside(image, needle, chars, v.data + 4);
        let rest = all_from(image, needle, chars, v.data + 4);
        let all = all_from(image, needle, chars, from);
        assert(all == seq![v] + rest);
        assert forall|j: int| 0 <= j < all.len() implies from <= (#[trigger] all[j]).record
            + HEADER && all[j].data + 4 <= image.len() by {
            if j > 0 {
                assert(all[j] == rest[j - 1]);
            }
        }
        assert forall|i: int, j: int| 0 <= i < j < all.len() implies (#[trigger] all[i]).data + 4
            <= (#[trigger] all[j]).record + HEADER by {
            assert(all[j] == rest[j - 1]);
            if i > 0 {
                assert(all[i] == rest[i - 1]);
            }
        }
    }
}

/// Find a named REG_DWORD.
///
/// The name is matched as a whole record rather than as a loose string, so a
/// mention of the same text elsewhere in the image cannot be mistaken for the
/// value: the header in front of it has to describe a four-byte DWORD whose
/// name is exactly this long.
pub fn find_dword(image: &[u8], name: &str) -> (r: Option<DwordValue>)
    ensures
        r == named(image@, name@),
{
    let (needle, chars): (Vec<u8>, u16) = encode_wide(name);
    search(image, needle.as_slice(), chars, 0)
}

/// Set a named REG_DWORD, returning what it was.
pub fn set_dword(image: &mut [u8], name: &str, value: u32) -> (r: Option<u32>)
    ensures
        match named(old(image)@, name@) {
            Some(v) => r == Some(v.value) && final(image)@ == with_value(
                old(image)@,
                v.data as int,
                value,
            ),
            None => r is None && final(image)@ == old(image)@,
        },
{
    let found: DwordValue = match find_dword(image, name) {
        Some(v) => v,
        None => {
            return None;
        },
    };
    proof {
        assert(image.len() == image@.len());
        lemma_found(image@, wide(name@), counted(name@), 0);
    }
    let bytes: [u8; 4] = split32(value);
    assert(bytes@ == crate::bytes::le32(value));
    put_slice(image, found.data, bytes.as_slice());
    Some(found.value)
}

/// A search sees only what lies in front of the data it finds, and the data.
proof fn lemma_found_agrees(
    image: Seq<u8>,
    other: Seq<u8>,
    needle: Seq<u8>,
    chars: u16,
    from: int,
)
    requires
        0 <= from,
        image.len() == other.len(),
        image.len() <= usize::MAX,
        found_from(image, needle, chars, from) is Some,
        forall|i: int|
            0 <= i < found_from(image, needle, chars, from)->0.data ==> #[trigger] image[i]
                == other[i],
    ensures
        ({
            let v = found_from(image, needle, chars, from)->0;
            found_from(other, needle, chars, from) == Some(
                DwordValue { value: crate::bytes::word32(other, v.data as int), ..v },
            )
        }),
    decreases image.len() + 2 - from,
{
    let v = found_from(image, needle, chars, from)->0;
    lemma_found(image, needle, chars, from);
    lemma_first_match(image, needle, from);
    lemma_first_match(other, needle, from);
    let found = first_match(image, needle, from)->0;
    let n = needle.len() as int;
    if !is_dword(image, found, n, chars) {
        lemma_found(image, needle, chars, found + 2);
    }
    assert(found + n + 2 <= v.data);
    assert forall|j: int| from <= j <= found implies #[trigger] super::patch::matches_at(
        other,
        needle,
        j,
    ) == super::patch::matches_at(image, needle, j) by {
        assert(image.subrange(j, j + n) =~= other.subrange(j, j + n));
    }
    assert(super::patch::matches_at(other, needle, found));
    assert(first_match(other, needle, from) == Some(found));
    assert(is_dword(other, found, n, chars) == is_dword(image, found, n, chars));
    if !is_dword(image, found, n, chars) {
        lemma_found_agrees(image, other, needle, chars, found + 2);
    }
}

/// A value that was set reads back as what it was set to, in the same place.
pub proof fn law_set_then_found(image: Seq<u8>, name: Seq<char>, value: u32)
    requires
        image.len() <= usize::MAX,
        named(image, name) is Some,
    ensures
        ({
            let v = named(image, name)->0;
            named(with_value(image, v.data as int, value), name) == Some(DwordValue { value, ..v })
        }),
{
    let v = named(image, name)->0;
    let other = with_value(image, v.data as int, value);
    lemma_found(image, wide(name), counted(name), 0);
    lemma_found_agrees(image, other, wide(name), counted(name), 0);
    crate::bytes::lemma_word32_round_trip(value);
}

/// The records are found once each, in order, and none overlaps the data of
/// the one before.
pub proof fn law_each_record_once(image: Seq<u8>, name: Seq<char>, i: int, j: int)
    requires
        image.len() <= usize::MAX,
        0 <= i < j < all_named(image, name).len(),
    ensures
        all_named(image, name)[i].data + 4 <= all_named(image, name)[j].data,
        all_named(image, name)[i].record < all_named(image, name)[j].record,
{
    let needle = wide(name);
    let all = all_named(image, name);
    lemma_all_inside(image, needle, counted(name), 0);
    lemma_all_records(image, needle, counted(name), 0, i);
    lemma_all_records(image, needle, counted(name), 0, j);
    assert(all[i].data + 4 <= all[j].record + HEADER);
}

/// The record of a value called `name`: a header that gives four bytes of
/// data, the length of the name with its end, and the type; the name, and its
/// end; and the data.
pub open spec fn is_record(image: Seq<u8>, name: Seq<char>, v: DwordValue) -> bool {
    let end = v.record + HEADER + 2 * name.len();
    &&& v.data == end + 2
    &&& v.data + 4 <= image.len()
    &&& crate::bytes::word16(image, v.record + 4) == 4
    &&& crate::bytes::word16(image, v.record + 6) == name.len() + 1
    &&& crate::bytes::word16(image, v.record + 8) == TYPE_DWORD
    &&& forall|i: int|
        0 <= i < name.len() ==> image[v.record + HEADER + 2 * i] == #[trigger] name[i] as u32
            && image[v.record + HEADER + 2 * i + 1] == 0
    &&& crate::bytes::word16(image, end) == 0
    &&& v.value == crate::bytes::word32(image, v.data as int)
}

/// Nothing is listed just where nothing is found; what is listed starts with
/// what is found, and every entry is a record of that name. The name is plain
/// text, and short enough for its length to be written down.
pub proof fn law_the_list_starts_with_what_is_found(image: Seq<u8>, name: Seq<char>)
    requires
        image.len() <= usize::MAX,
        0 < name.len() < 0xFFFF,
        forall|i: int| 0 <= i < name.len() ==> ((#[trigger] name[i]) as u32) < 0x80,
    ensures
        (all_named(image, name).len() == 0) == (named(image, name) is None),
        named(image, name) is Some ==> all_named(image, name)[0] == named(image, name)->0,
        forall|k: int|
            0 <= k < all_named(image, name).len() ==> is_record(
                image,
                name,
                #[trigger] all_named(image, name)[k],
            ),
{
    let needle = wide(name);
    lemma_found(image, needle, counted(name), 0);
    lemma_plain_name(name);
    assert forall|k: int| 0 <= k < all_named(image, name).len() implies is_record(
        image,
        name,
        #[trigger] all_named(image, name)[k],
    ) by {
        lemma_all_records(image, needle, counted(name), 0, k);
        let v = all_named(image, name)[k];
        let at = v.record + HEADER;
        assert forall|i: int| 0 <= i < name.len() implies image[at + 2 * i] == #[trigger] name[i] as u32
            && image[at + 2 * i + 1] == 0 by {
            let here = image.subrange(at, at + needle.len());
            assert(here[2 * i] == image[at + 2 * i]);
            assert(here[2 * i + 1] == image[at + 2 * i + 1]);
        }
    }
}

/// A plain name stands as a byte and a zero for each of its characters.
proof fn lemma_plain_name(name: Seq<char>)
    requires
        forall|i: int| 0 <= i < name.len() ==> ((#[trigger] name[i]) as u32) < 0x80,
    ensures
        wide(name).len() == 2 * name.len(),
        forall|i: int|
            0 <= i < name.len() ==> wide(name)[2 * i] == #[trigger] name[i] as u32 && wide(name)[2 * i
                + 1] == 0,
    decreases name.len(),
{
    if name.len() > 0 {
        let front = name.drop_last();
        let c = name.last();
        assert(name[name.len() - 1] == c);
        assert forall|i: int| 0 <= i < front.len() implies ((#[trigger] front[i]) as u32) < 0x80 by {
            assert(front[i] == name[i]);
        }
        lemma_plain_name(front);
        let v = c as u32;
        assert(v < 0x80);
        crate::bytes::lemma_word16_round_trip(v as u16);
        assert((v as u16) as u8 == v);
        assert(utf16(c) =~= seq![v as u8, 0u8]);
        assert forall|i: int| 0 <= i < name.len() implies wide(name)[2 * i] == #[trigger] name[i] as u32
            && wide(name)[2 * i + 1] == 0 by {
            if i < front.len() {
                assert(front[i] == name[i]);
                assert(wide(name)[2 * i] == wide(front)[2 * i]);
                assert(wide(name)[2 * i + 1] == wide(front)[2 * i + 1]);
            } else {
                assert(wide(name)[2 * i] == utf16(c)[0]);
                assert(wide(name)[2 * i + 1] == utf16(c)[1]);
            }
        }
    }
}

/// Everything listed was found somewhere.
proof fn lemma_all_records(image: Seq<u8>, needle: Seq<u8>, chars: u16, from: int, i: int)
    requires
        0 <= from,
        image.len() <= usize::MAX,
        0 <= i < all_from(image, needle, chars, from).len(),
    ensures
        ({
            let v = all_from(image, needle, chars, from)[i];
            &&& v.record + HEADER + needle.len() + 2 == v.data
            &&& v.data + 4 <= image.len()
            &&& v.value == crate::bytes::word32(image, v.data as int)
            &&& super::patch::matches_at(image, needle, v.record + HEADER)
            &&& is_dword(image, v.record + HEADER, needle.len() as int, chars)
        }),
    decreases image.len() + 4 - from,
{
    lemma_found(image, needle, chars, from);
    let v = found_from(image, needle, chars, from)->0;
    if i > 0 {
        lemma_all_records(image, needle, chars, v.data + 4, i - 1);
    }
}

/// A byte in the data of none of the records is left alone.
pub proof fn law_neighbours_unchanged(
    image: Seq<u8>,
    found: Seq<DwordValue>,
    value: u32,
    n: int,
    i: int,
)
    requires
        0 <= i < image.len(),
        0 <= n <= found.len(),
        forall|k: int| 0 <= k < n ==> !(#[trigger] found[k].data <= i < found[k].data + 4),
    ensures
        with_values(image, found, value, n).len() == image.len(),
        with_values(image, found, value, n)[i] == image[i],
    decreases n,
{
    if n > 0 {
        law_neighbours_unchanged(image, found, value, n - 1, i);
    }
}

/// No record of a name is passed over: where the image has one there is a value
/// to be found, and none of its records is in front of the one that is found.
/// What is found is a record. The name is plain text, with nothing in it that
/// ends a text, and short enough for its length to be written down.
pub proof fn law_the_first_record_is_found(image: Seq<u8>, name: Seq<char>, v: DwordValue)
    requires
        image.len() <= usize::MAX,
        0 < name.len() < 0xFFFF,
        forall|i: int| 0 <= i < name.len() ==> 0 < ((#[trigger] name[i]) as u32) < 0x80,
        is_record(image, name, v),
    ensures
        named(image, name) is Some,
        named(image, name)->0.record <= v.record,
        is_record(image, name, named(image, name)->0),
{
    let needle = wide(name);
    let p = v.record + HEADER;
    lemma_plain_name(name);
    assert(super::patch::matches_at(image, needle, p)) by {
        let here = image.subrange(p, p + needle.len());
        assert forall|i: int| 0 <= i < needle.len() implies here[i] == #[trigger] needle[i] by {
            let c = name[i / 2];
            assert(image[p + 2 * (i / 2)] == c as u32 && image[p + 2 * (i / 2) + 1] == 0);
            assert(needle[2 * (i / 2)] == c as u32 && needle[2 * (i / 2) + 1] == 0);
            assert(i == 2 * (i / 2) || i == 2 * (i / 2) + 1);
        }
        assert(here =~= needle);
    }
    assert(is_dword(image, p, needle.len() as int, counted(name)));
    assert(name[0] as u32 > 0);
    assert(needle[2 * 0int] == name[0] as u32 && needle[2 * 0int + 1] == 0);
    lemma_not_passed(image, needle, counted(name), 0, p);
    law_the_list_starts_with_what_is_found(image, name);
    assert(all_named(image, name)[0] == named(image, name)->0);
}

proof fn lemma_not_passed(image: Seq<u8>, needle: Seq<u8>, chars: u16, from: int, p: int)
    requires
        0 <= from <= p,
        image.len() <= usize::MAX,
        needle.len() >= 2,
        needle[0] != needle[1],
        super::patch::matches_at(image, needle, p),
        is_dword(image, p, needle.len() as int, chars),
        p + needle.len() + 6 <= image.len(),
    ensures
        found_from(image, needle, chars, from) is Some,
        found_from(image, needle, chars, from)->0.record + HEADER <= p,
    decreases image.len() + 2 - from,
{
    lemma_first_match(image, needle, from);
    let found = first_match(image, needle, from)->0;
    assert(first_match(image, needle, from) is Some);
    assert(found <= p);
    if !is_dword(image, found, needle.len() as int, chars) {
        assert(p != found);
        if p == found + 1 {
            assert(image.subrange(found, found + needle.len())[1] == needle[1]);
            assert(image.subrange(p, p + needle.len())[0] == needle[0]);
        }
        lemma_not_passed(image, needle, chars, found + 2, p);
    }
}

} // verus!
