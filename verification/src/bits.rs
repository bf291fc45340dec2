//! Facts about single bits of a word, shared by the device proofs.

use vstd::prelude::*;

verus! {

/// Bit `n` of a word.
pub open spec fn bit_of(w: u32, n: u32) -> bool {
    w & (1u32 << n) != 0
}

/// A word is zero exactly where none of its bits is set.
pub proof fn lemma_some_bit(w: u32)
    ensures
        w != 0 <==> exists|n: u32| n < 32 && #[trigger] bit_of(w, n),
{
    if w != 0 {
        let n = lowest_bit(w, 0);
        lemma_word(w, 0, 0);
        lemma_lowest_bit(w, 0);
        assert(bit_of(w, n));
    } else {
        assert forall|n: u32| n < 32 implies !#[trigger] bit_of(w, n) by {
            lemma_word(w, n, 0);
        }
    }
}

/// The lowest set bit from `n` on.
spec fn lowest_bit(w: u32, n: u32) -> u32
    decreases 32 - n,
{
    if n >= 32 || bit_of(w, n) {
        n
    } else {
        lowest_bit(w, (n + 1) as u32)
    }
}

proof fn lemma_lowest_bit(w: u32, n: u32)
    requires
        n < 32,
        w >> n != 0,
    ensures
        lowest_bit(w, n) < 32,
        bit_of(w, lowest_bit(w, n)),
    decreases 32 - n,
{
    lemma_word(w, n, 0);
    if !bit_of(w, n) {
        lemma_lowest_bit(w, (n + 1) as u32);
    }
}

/// How a word comes apart at bit `n`.
pub proof fn lemma_word(w: u32, n: u32, v: u32)
    requires
        n < 32,
    ensures
        w == 0 ==> w & (1u32 << n) == 0,
        w >> 0 == w,
        w >> n != 0 && w & (1u32 << n) == 0 ==> n < 31 && w >> ((n + 1) as u32) != 0,
        (w & v) & (1u32 << n) != 0 <==> w & (1u32 << n) != 0 && v & (1u32 << n) != 0,
        (w & !v) & (1u32 << n) != 0 <==> w & (1u32 << n) != 0 && v & (1u32 << n) == 0,
        (w | v) & (1u32 << n) != 0 <==> w & (1u32 << n) != 0 || v & (1u32 << n) != 0,
        1u32 << 31u32 == 0x8000_0000,
        1u32 << 15u32 == 0x8000,
        w & 0x3F == w % 64,
{
    assert((w == 0 ==> w & (1u32 << n) == 0) && w >> 0 == w && (w >> n != 0 && w & (1u32 << n) == 0
        ==> n < 31 && w >> ((n + 1) as u32) != 0) && ((w & v) & (1u32 << n) != 0 <==> w & (1u32
        << n) != 0 && v & (1u32 << n) != 0) && ((w & !v) & (1u32 << n) != 0 <==> w & (1u32 << n)
        != 0 && v & (1u32 << n) == 0) && ((w | v) & (1u32 << n) != 0 <==> w & (1u32 << n) != 0 || v
        & (1u32 << n) != 0) && 1u32 << 31u32 == 0x8000_0000 && 1u32 << 15u32 == 0x8000 && w & 0x3F
        == w % 64) by (bit_vector)
        requires
            n < 32,
    ;
}

/// Setting bit `b` makes it read as set, clearing it makes it read as clear,
/// and both leave every other bit alone.
pub proof fn lemma_bit(w: u32, b: u32, c: u32)
    requires
        b < 32,
        c < 32,
    ensures
        (w | (1u32 << b)) & (1u32 << b) != 0,
        (w & !(1u32 << b)) & (1u32 << b) == 0,
        b != c ==> (w | (1u32 << b)) & (1u32 << c) == w & (1u32 << c),
        b != c ==> (w & !(1u32 << b)) & (1u32 << c) == w & (1u32 << c),
{
    assert((w | (1u32 << b)) & (1u32 << b) != 0 && (w & !(1u32 << b)) & (1u32 << b) == 0 && (b != c
        ==> (w | (1u32 << b)) & (1u32 << c) == w & (1u32 << c) && (w & !(1u32 << b)) & (1u32 << c)
        == w & (1u32 << c))) by (bit_vector)
        requires
            b < 32,
            c < 32,
    ;
}

/// Where `d` selects `i` over `o`, a merged word shows the bits of `i`.
pub proof fn lemma_unmasked(o: u32, d: u32, i: u32, bit: u32)
    requires
        d & bit == 0,
    ensures
        ((o & d) | (i & !d)) & bit == i & bit,
{
    assert(((o & d) | (i & !d)) & bit == i & bit) by (bit_vector)
        requires
            d & bit == 0,
    ;
}

/// A divisor is kept in two bytes, and either is written without the other.
pub proof fn lemma_divisor(d: u32, low: u32, high: u32)
    ensures
        ({
            let l = (d & 0xFF00) | (low & 0xFF);
            let h = (l & 0xFF) | ((high & 0xFF) << 8);
            &&& h & 0xFF == low & 0xFF
            &&& (h >> 8) & 0xFF == high & 0xFF
        }),
{
    lemma_numbers(0, d, low, high);
}

/// What the status and identification bits of a port say.
pub proof fn lemma_uart()
    ensures
        ((0x20u32 | 0x40u32) | 0x01u32) & 0x01 != 0,
        (0x20u32 | 0x40u32) & 0x01 == 0,
        ((0x20u32 | 0x40u32) | 0x01u32) & 0x20 != 0,
        (0x20u32 | 0x40u32) & 0x20 != 0,
        0x04u32 & 1 == 0,
        0x02u32 & 1 == 0,
        0x01u32 & 1 == 1,
        (0x04u32 | 0xC0) % 8 == 4,
        (0x02u32 | 0xC0) % 8 == 2,
        (0x01u32 | 0xC0) % 8 == 1,
        (0x04u32 | 0) == 4,
        (0x02u32 | 0) == 2,
        (0x01u32 | 0) == 1,
{
    lemma_numbers(0, 0, 0, 0);
}

/// The two lowest bits of a word.
pub proof fn lemma_low_bits(w: u32)
    ensures
        (w & 1 != 0) == bit_of(w, 0),
        (w & 2 != 0) == bit_of(w, 1),
{
    lemma_places(w, 0);
}

/// Three is the two lowest bits.
pub proof fn lemma_low_pair(n: u32)
    requires
        n < 32,
    ensures
        bit_of(3, n) == (n < 2),
{
    lemma_places(0, n);
}

/// A bit is what is left at the bottom of a word once those below it are gone.
pub proof fn lemma_shifted(w: u32, n: u32)
    requires
        n < 32,
    ensures
        ((w >> n) & 1 != 0) == bit_of(w, n),
{
    lemma_places(w, n);
}

proof fn lemma_places(w: u32, n: u32)
    requires
        n < 32,
    ensures
        (w & 1 != 0) == (w & (1u32 << 0u32) != 0),
        (w & 2 != 0) == (w & (1u32 << 1u32) != 0),
        (3u32 & (1u32 << n) != 0) == (n < 2),
        ((w >> n) & 1 != 0) == (w & (1u32 << n) != 0),
        w & !0xFFu32 == w - w % 256,
{
    assert((w & 1 != 0) == (w & (1u32 << 0u32) != 0) && (w & 2 != 0) == (w & (1u32 << 1u32) != 0)
        && (3u32 & (1u32 << n) != 0) == (n < 2) && ((w >> n) & 1 != 0) == (w & (1u32 << n) != 0) && w
        & !0xFFu32 == w - w % 256) by (bit_vector)
        requires
            n < 32,
    ;
}

/// Rounding down to a multiple of 256.
pub proof fn lemma_pages(w: u32)
    ensures
        w & !0xFFu32 == w - w % 256,
{
    lemma_places(w, 0);
}

/// Truncating to a word keeps the value modulo 2^32.
pub proof fn lemma_low_word(x: u64)
    ensures
        (x as u32) == x % 0x1_0000_0000,
{
    lemma_numbers(x, 0, 0, 0);
}

/// The two halves of a long word.
pub proof fn lemma_halves(x: u64)
    ensures
        ((x >> 32) as u32) * 0x1_0000_0000 + (x as u32) == x,
{
    lemma_numbers(x, 0, 0, 0);
}

/// Small facts about numbers and the bits they are made of.
proof fn lemma_numbers(x: u64, d: u32, low: u32, high: u32)
    ensures
        (x as u32) == x % 0x1_0000_0000,
        ((x >> 32) as u32) * 0x1_0000_0000 + (x as u32) == x,
        ({
            let l = (d & 0xFF00) | (low & 0xFF);
            let h = (l & 0xFF) | ((high & 0xFF) << 8);
            &&& h & 0xFF == low & 0xFF
            &&& (h >> 8) & 0xFF == high & 0xFF
        }),
        ((0x20u32 | 0x40u32) | 0x01u32) & 0x01 != 0,
        (0x20u32 | 0x40u32) & 0x01 == 0,
        ((0x20u32 | 0x40u32) | 0x01u32) & 0x20 != 0,
        (0x20u32 | 0x40u32) & 0x20 != 0,
        0x04u32 & 1 == 0,
        0x02u32 & 1 == 0,
        0x01u32 & 1 == 1,
        (0x04u32 | 0xC0) % 8 == 4,
        (0x02u32 | 0xC0) % 8 == 2,
        (0x01u32 | 0xC0) % 8 == 1,
        (0x04u32 | 0) == 4,
        (0x02u32 | 0) == 2,
        (0x01u32 | 0) == 1,
{
    assert((x as u32) == x % 0x1_0000_0000 && ((x >> 32) as u32) * 0x1_0000_0000 + (x as u32) == x && {
        let l = (d & 0xFF00) | (low & 0xFF);
        let h = (l & 0xFF) | ((high & 0xFF) << 8);
        h & 0xFF == low & 0xFF && (h >> 8) & 0xFF == high & 0xFF
    } && ((0x20u32 | 0x40u32) | 0x01u32) & 0x01 != 0 && (0x20u32 | 0x40u32) & 0x01 == 0 && ((0x20u32
        | 0x40u32) | 0x01u32) & 0x20 != 0 && (0x20u32 | 0x40u32) & 0x20 != 0 && 0x04u32 & 1 == 0
        && 0x02u32 & 1 == 0 && 0x01u32 & 1 == 1 && (0x04u32 | 0xC0) % 8 == 4 && (0x02u32 | 0xC0) % 8
        == 2 && (0x01u32 | 0xC0) % 8 == 1 && (0x04u32 | 0) == 4 && (0x02u32 | 0) == 2 && (0x01u32
        | 0) == 1) by (bit_vector);
}

} // verus!
