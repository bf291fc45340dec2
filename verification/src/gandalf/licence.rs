//! Build the licence the machine keeps in its 1-Wire part.
//!
//! A real VoiceNote carries an encrypted blob on a DS2431 beside the keyboard
//! controller, and KeySoft will not run without one: it decrypts it, checks
//! the machine's own identity against what is inside, and refuses to start
//! otherwise.
//!
//! This builds one. Not a forgery of a particular machine's licence: the
//! emulator supplies the 1-Wire part *and* its serial number, so the identity
//! inside the blob and the identity the machine reports are the same by
//! construction. It is issuing a consistent identity to a machine that is what
//! it says it is, which is the whole of what the firmware checks.
//!
//! Three layers:
//!
//! ```text
//! the wire     [length][blob][checksum]   checksum = the blob's bytes summed
//! the blob     RC2-CBC, zero IV, PKCS#5, keyed from MD5 of a passphrase
//! the payload  44 bytes of flags, locale, device id and entitlement
//! ```
//!
//! The cipher is the Windows CE CryptoAPI's, and the key material is the part
//! worth knowing: the Base Provider makes 40-bit RC2 keys, and with no salt
//! flags the key is salted with **zero**, so what RC2 is actually keyed with
//! is five bytes of MD5 followed by eleven zero bytes — a 128-bit key whose
//! effective length is 40.
//!
//! **Stop condition.** This exists because the mPower is discontinued and its
//! product keys cannot be obtained. If HumanWare are found to still issue
//! them, it comes out.

use crate::bytes::{filled, get16, get32, push32, push_all, split32};
use vstd::prelude::*;

verus! {

/// The passphrase KeySoft hashes, `s#r14^ln5m`.
pub const PASSPHRASE: [u8; 10] = [
    0x73, 0x23, 0x72, 0x31, 0x34, 0x5e, 0x6c, 0x6e, 0x35, 0x6d,
];

/// Bytes of the MD5 hash the derived key uses. The Base Provider's RC2 key is
/// 40 bits.
pub const KEY_BYTES: usize = 5;
/// What the key material is padded to with zero salt.
pub const SALTED_TO: usize = 16;
/// RC2's effective key length, in bits.
pub const EFFECTIVE_BITS: usize = 40;

/// What the machine is licensed to run. Everything here is a statement about
/// this emulator, not about anybody's hardware.
#[derive(Debug, Clone, Copy)]
pub struct Licence {
    /// Six bytes of 1-Wire serial. The device id inside the blob is this,
    /// zero-padded, and the part reports the same, so the two agree.
    pub serial: [u8; 6],
    /// Locale. `0x0809` English, `0x040c` French, `0x0c0c` French Canadian.
    pub lcid: u16,
    /// Bit 1 clear means "use the locale", bit 0 clear means VoiceNote.
    pub flags2: u32,
    /// The class of machine, which is 2 on this ROM.
    pub machine_class: u32,
    /// Entitlement: major version, build (compared rounded down to a ten),
    /// and model class, where 0 accepts any machine.
    pub version: u32,
    pub build: u32,
    pub model: u32,
}

impl Default for Licence {
    fn default() -> (r: Self)
        ensures
            r.serial@ =~= seq![1u8, 2, 3, 4, 5, 6],
            r.lcid == 0x0809,
            r.flags2 == 0,
            r.machine_class == 2,
            r.version == 8,
            r.build == 20,
            r.model == 0,
    {
        Licence {
            serial: [1, 2, 3, 4, 5, 6],
            lcid: 0x0809,
            flags2: 0,
            machine_class: 2,
            version: 8,
            build: 20,
            model: 0,
        }
    }
}

impl Licence {
    /// The fields, each where the validator reads it. The word at `0x04` has
    /// only to be non-zero.
    pub open spec fn payload_spec(self) -> Seq<u8> {
        crate::bytes::le32(0) + crate::bytes::le32(1) + crate::bytes::le32(self.machine_class)
            + crate::bytes::le32(self.flags2) + crate::bytes::le16(self.lcid) + seq![
            0u8,
            0,
            0,
            0,
            0,
            0,
        ] + self.serial@ + seq![0u8, 0] + crate::bytes::le32(self.version) + crate::bytes::le32(
            self.build,
        ) + crate::bytes::le32(self.model)
    }

    pub open spec fn blob_spec(self) -> Seq<u8> {
        cbc_spec(expanded(key_spec(), EFFECTIVE_BITS as int), padded(self.payload_spec()))
    }

    /// The identity, then the memory: the record, and erased bytes to the end.
    pub open spec fn eeprom_spec(self) -> Seq<u8> {
        let record = super::onewire::record_spec(self.blob_spec());
        super::onewire::id_spec(0x2D, self.serial@) + record + Seq::new(
            (super::onewire::SIZE - record.len()) as nat,
            |i: int| 0xFFu8,
        )
    }

    /// The 44 bytes the validator copies out and reads fields from.
    pub fn payload(&self) -> (r: [u8; 44])
        ensures
            r@ =~= self.payload_spec(),
    {
        let c: [u8; 4] = split32(self.machine_class);
        let f: [u8; 4] = split32(self.flags2);
        let s: [u8; 6] = self.serial;
        let v: [u8; 4] = split32(self.version);
        let b: [u8; 4] = split32(self.build);
        let m: [u8; 4] = split32(self.model);
        proof {
            assert(0u32 >> 8 == 0 && 0u32 >> 16 == 0 && 0u32 >> 24 == 0 && 1u32 >> 8 == 0 && 1u32
                >> 16 == 0 && 1u32 >> 24 == 0) by (bit_vector);
        }
        [
            0, 0, 0, 0,
            1, 0, 0, 0,
            c[0], c[1], c[2], c[3],
            f[0], f[1], f[2], f[3],
            self.lcid as u8, (self.lcid >> 8) as u8, 0, 0, 0, 0, 0, 0,
            s[0], s[1], s[2], s[3], s[4], s[5], 0, 0,
            v[0], v[1], v[2], v[3],
            b[0], b[1], b[2], b[3],
            m[0], m[1], m[2], m[3],
        ]
    }

    /// The encrypted blob: what a product key is, and what the part holds.
    pub fn blob(&self) -> (r: Vec<u8>)
        ensures
            r@ == self.blob_spec(),
            r@.len() == 48,
    {
        let key: [u8; 16] = derived_key();
        let sched: [u16; 64] = rc2_expand(key.as_slice(), EFFECTIVE_BITS);
        let payload: [u8; 44] = self.payload();
        assert(payload@ == self.payload_spec());
        let data: Vec<u8> = pkcs5_pad(payload.as_slice());
        proof {
            law_padding(payload@);
        }
        cbc_encrypt(&sched, data.as_slice())
    }

    /// A whole 1-Wire dump: the 64-bit identity, then the memory holding the
    /// record.
    pub fn eeprom(&self) -> (r: Vec<u8>)
        ensures
            r@ == self.eeprom_spec(),
            r@.len() == 8 + super::onewire::SIZE,
    {
        let blob: Vec<u8> = self.blob();
        let record: Vec<u8> = super::onewire::record(blob.as_slice());
        let id: [u8; 8] = super::onewire::rom_id(0x2D, self.serial);
        let mut out: Vec<u8> = Vec::new();
        push_all(&mut out, id.as_slice());
        push_all(&mut out, record.as_slice());
        let rest: Vec<u8> = filled(super::onewire::SIZE - record.len(), 0xFF);
        push_all(&mut out, rest.as_slice());
        out
    }
}

/// The key material: five bytes of MD5, then zero salt.
pub open spec fn key_spec() -> Seq<u8> {
    md5_spec(PASSPHRASE@).take(KEY_BYTES as int) + Seq::new(11, |i: int| 0u8)
}

/// The key material RC2 is given: five bytes of MD5, then zero salt.
pub fn derived_key() -> (r: [u8; 16])
    ensures
        r@ =~= key_spec(),
{
    let hash: [u8; 16] = md5(PASSPHRASE.as_slice());
    assert(hash@ == md5_spec(PASSPHRASE@));
    [hash[0], hash[1], hash[2], hash[3], hash[4], 0, 0, 0, 0, 0, 0, 0, 0, 0, 0, 0]
}

/// `data` filled up to whole blocks, with at least one byte, each of which
/// says how many there are.
pub open spec fn padded(data: Seq<u8>) -> Seq<u8> {
    let n = 8 - data.len() % 8;
    data + Seq::new(n as nat, |i: int| n as u8)
}

pub fn pkcs5_pad(data: &[u8]) -> (r: Vec<u8>)
    ensures
        r@ == padded(data@),
{
    let n: usize = 8 - data.len() % 8;
    let mut out: Vec<u8> = Vec::new();
    push_all(&mut out, data);
    let pad: Vec<u8> = filled(n, n as u8);
    push_all(&mut out, pad.as_slice());
    out
}

/// Two blocks of eight, exclusive-or'd byte by byte.
pub open spec fn xored(a: Seq<u8>, b: Seq<u8>) -> Seq<u8> {
    Seq::new(8, |i: int| a[i] ^ b[i])
}

/// The `n`th block of the ciphertext: the plaintext block over the one before
/// it, encrypted; before the first stand zeroes.
pub open spec fn cbc_block(sched: Seq<u16>, data: Seq<u8>, n: int) -> Seq<u8>
    decreases n,
{
    let before = if n <= 0 {
        Seq::new(8, |i: int| 0u8)
    } else {
        cbc_block(sched, data, n - 1)
    };
    encrypted(sched, xored(data.subrange(8 * n, 8 * n + 8), before))
}

/// The first `n` blocks of the ciphertext.
pub open spec fn cbc_blocks(sched: Seq<u16>, data: Seq<u8>, n: int) -> Seq<u8>
    decreases n,
{
    if n <= 0 {
        Seq::empty()
    } else {
        cbc_blocks(sched, data, n - 1) + cbc_block(sched, data, n - 1)
    }
}

pub open spec fn cbc_spec(sched: Seq<u16>, data: Seq<u8>) -> Seq<u8> {
    cbc_blocks(sched, data, data.len() as int / 8)
}

pub fn cbc_encrypt(sched: &[u16; 64], data: &[u8]) -> (r: Vec<u8>)
    requires
        data@.len() % 8 == 0,
    ensures
        r@ == cbc_spec(sched@, data@),
        r@.len() == data@.len(),
{
    let mut out: Vec<u8> = Vec::new();
    let mut prev: [u8; 8] = [0; 8];
    let blocks: usize = data.len() / 8;
    let mut n: usize = 0;
    while n < blocks
        invariant
            n <= blocks,
            blocks * 8 == data.len(),
            out@ == cbc_blocks(sched@, data@, n as int),
            out@.len() == 8 * n,
            prev@ =~= (if n == 0 {
                Seq::new(8, |i: int| 0u8)
            } else {
                cbc_block(sched@, data@, n - 1)
            }),
        decreases blocks - n,
    {
        let mut block: [u8; 8] = [0; 8];
        let mut i: usize = 0;
        while i < 8
            invariant
                i <= 8,
                n < blocks,
                blocks * 8 == data.len(),
                forall|j: int| 0 <= j < i ==> #[trigger] block@[j] == data@[8 * n + j] ^ prev@[j],
            decreases 8 - i,
        {
            block[i] = data[8 * n + i] ^ prev[i];
            i = i + 1;
        }
        assert(block@ =~= xored(data@.subrange(8 * n, 8 * n + 8), prev@));
        let ghost before = prev@;
        assert(before == (if n == 0 {
            Seq::new(8, |i: int| 0u8)
        } else {
            cbc_block(sched@, data@, n - 1)
        }));
        prev = rc2_encrypt_block(sched, block);
        assert(prev@ == cbc_block(sched@, data@, n as int));
        push_all(&mut out, prev.as_slice());
        n = n + 1;
    }
    out
}

// ---------------------------------------------------------------- RC2
/// RFC 2268's PITABLE, a fixed permutation of the digits of pi.
pub const PITABLE: [u8; 256] = [
    0xd9, 0x78, 0xf9, 0xc4, 0x19, 0xdd, 0xb5, 0xed, 0x28, 0xe9, 0xfd, 0x79, 0x4a, 0xa0, 0xd8, 0x9d,
    0xc6, 0x7e, 0x37, 0x83, 0x2b, 0x76, 0x53, 0x8e, 0x62, 0x4c, 0x64, 0x88, 0x44, 0x8b, 0xfb, 0xa2,
    0x17, 0x9a, 0x59, 0xf5, 0x87, 0xb3, 0x4f, 0x13, 0x61, 0x45, 0x6d, 0x8d, 0x09, 0x81, 0x7d, 0x32,
    0xbd, 0x8f, 0x40, 0xeb, 0x86, 0xb7, 0x7b, 0x0b, 0xf0, 0x95, 0x21, 0x22, 0x5c, 0x6b, 0x4e, 0x82,
    0x54, 0xd6, 0x65, 0x93, 0xce, 0x60, 0xb2, 0x1c, 0x73, 0x56, 0xc0, 0x14, 0xa7, 0x8c, 0xf1, 0xdc,
    0x12, 0x75, 0xca, 0x1f, 0x3b, 0xbe, 0xe4, 0xd1, 0x42, 0x3d, 0xd4, 0x30, 0xa3, 0x3c, 0xb6, 0x26,
    0x6f, 0xbf, 0x0e, 0xda, 0x46, 0x69, 0x07, 0x57, 0x27, 0xf2, 0x1d, 0x9b, 0xbc, 0x94, 0x43, 0x03,
    0xf8, 0x11, 0xc7, 0xf6, 0x90, 0xef, 0x3e, 0xe7, 0x06, 0xc3, 0xd5, 0x2f, 0xc8, 0x66, 0x1e, 0xd7,
    0x08, 0xe8, 0xea, 0xde, 0x80, 0x52, 0xee, 0xf7, 0x84, 0xaa, 0x72, 0xac, 0x35, 0x4d, 0x6a, 0x2a,
    0x96, 0x1a, 0xd2, 0x71, 0x5a, 0x15, 0x49, 0x74, 0x4b, 0x9f, 0xd0, 0x5e, 0x04, 0x18, 0xa4, 0xec,
    0xc2, 0xe0, 0x41, 0x6e, 0x0f, 0x51, 0xcb, 0xcc, 0x24, 0x91, 0xaf, 0x50, 0xa1, 0xf4, 0x70, 0x39,
    0x99, 0x7c, 0x3a, 0x85, 0x23, 0xb8, 0xb4, 0x7a, 0xfc, 0x02, 0x36, 0x5b, 0x25, 0x55, 0x97, 0x31,
    0x2d, 0x5d, 0xfa, 0x98, 0xe3, 0x8a, 0x92, 0xae, 0x05, 0xdf, 0x29, 0x10, 0x67, 0x6c, 0xba, 0xc9,
    0xd3, 0x00, 0xe6, 0xcf, 0xe1, 0x9e, 0xa8, 0x2c, 0x63, 0x16, 0x01, 0x3f, 0x58, 0xe2, 0x89, 0xa9,
    0x0d, 0x38, 0x34, 0x1b, 0xab, 0x33, 0xff, 0xb0, 0xbb, 0x48, 0x0c, 0x5f, 0xb9, 0xb1, 0xcd, 0x2e,
    0xc5, 0xf3, 0xdb, 0x47, 0xe5, 0xa5, 0x9c, 0x77, 0x0a, 0xa6, 0x20, 0x68, 0xfe, 0x7f, 0xc1, 0xad,
];

/// The key, grown to `n` bytes: each new one is looked up from the sum of the
/// last and the one a key's length back.
pub open spec fn grown(key: Seq<u8>, n: int) -> Seq<u8>
    decreases n,
{
    if n <= key.len() {
        key.take(n)
    } else {
        let l = grown(key, n - 1);
        l.push(PITABLE[(l[n - 2] + l[n - 1 - key.len()]) % 256])
    }
}

/// How many bytes the effective key length takes.
pub open spec fn effective_bytes(bits: int) -> int {
    (bits + 7) / 8
}

/// The grown key cut down to the effective length and run back over itself,
/// as far down as position `i`.
pub open spec fn reduced(l: Seq<u8>, bits: int, i: int) -> Seq<u8>
    decreases 128 - i,
{
    let t8 = effective_bytes(bits);
    if t8 <= 0 || i >= 128 - t8 {
        let tm = 255u32 % (1u32 << ((8 + bits - 8 * t8) as u32));
        l.update(128 - t8, PITABLE[(l[128 - t8] as u32 & tm) as int])
    } else {
        let m = reduced(l, bits, i + 1);
        m.update(i, PITABLE[(m[i + 1] ^ m[i + t8]) as int])
    }
}

/// RFC 2268 key expansion: 64 words out of the 128 bytes.
pub open spec fn expanded(key: Seq<u8>, bits: int) -> Seq<u16> {
    let l = reduced(grown(key, 128), bits, 0);
    Seq::new(64, |i: int| crate::bytes::word16(l, 2 * i))
}

proof fn lemma_grown_len(key: Seq<u8>, n: int)
    requires
        n >= key.len(),
    ensures
        grown(key, n).len() == n,
    decreases n,
{
    if n > key.len() {
        lemma_grown_len(key, n - 1);
    }
}

/// A value of eight bits, masked, is still one.
proof fn lemma_byte_mask(a: u8, tm: u32)
    ensures
        (a as u32 & tm) < 256,
{
    assert((a as u32 & tm) < 256) by (bit_vector);
}

/// RFC 2268 key expansion.
pub fn rc2_expand(key: &[u8], t1_bits: usize) -> (r: [u16; 64])
    requires
        1 <= key@.len() <= 128,
        1 <= t1_bits <= 1024,
    ensures
        r@ =~= expanded(key@, t1_bits as int),
{
    let t: usize = key.len();
    let mut l: Vec<u8> = Vec::new();
    push_all(&mut l, key);
    assert(grown(key@, t as int) =~= key@);
    while l.len() < 128
        invariant
            1 <= t <= l@.len() <= 128,
            t == key@.len(),
            l@ == grown(key@, l@.len() as int),
        decreases 128 - l.len(),
    {
        let i: usize = l.len();
        let next: u8 = PITABLE[(l[i - 1] as usize + l[i - t] as usize) % 256];
        l.push(next);
    }
    let ghost full = l@;
    let t8: usize = (t1_bits + 7) / 8;
    let shift: u32 = (8 + t1_bits - 8 * t8) as u32;
    proof {
        lemma_grown_len(key@, 128);
        assert(1 <= shift <= 8 ==> (1u32 << shift) > 0) by (bit_vector);
    }
    let tm: u32 = 255u32 % (1u32 << shift);
    proof {
        lemma_byte_mask(l@[128 - t8], tm);
    }
    let first: u8 = PITABLE[(l[128 - t8] as u32 & tm) as usize];
    l.set(128 - t8, first);
    let mut i: usize = 128 - t8;
    assert(l@ == reduced(full, t1_bits as int, i as int));
    while i > 0
        invariant
            i <= 128 - t8,
            1 <= t8 <= 128,
            t8 == effective_bytes(t1_bits as int),
            l@.len() == 128,
            l@ == reduced(full, t1_bits as int, i as int),
        decreases i,
    {
        i = i - 1;
        let next: u8 = PITABLE[(l[i + 1] ^ l[i + t8]) as usize];
        l.set(i, next);
    }
    let mut k: [u16; 64] = [0; 64];
    let mut w: usize = 0;
    while w < 64
        invariant
            w <= 64,
            l@.len() == 128,
            forall|j: int| 0 <= j < w ==> #[trigger] k@[j] == crate::bytes::word16(l@, 2 * j),
        decreases 64 - w,
    {
        k[w] = get16(l.as_slice(), 2 * w);
        w = w + 1;
    }
    k
}

/// How far each word rotates in a mixing round.
pub open spec fn rotation(i: int) -> u32 {
    if i == 0 {
        1
    } else if i == 1 {
        2
    } else if i == 2 {
        3
    } else {
        5
    }
}

pub open spec fn rotated16(x: u16, n: u32) -> u16 {
    (x << n) | (x >> ((16 - n) as u32))
}

/// Word `i` mixed with its neighbours and a word of the key.
pub open spec fn mixed(r: Seq<u16>, k: u16, i: int) -> Seq<u16> {
    let a = r[(i + 3) % 4];
    let b = r[(i + 2) % 4];
    let c = r[(i + 1) % 4];
    let sum = r[i].wrapping_add(k).wrapping_add(a & b).wrapping_add(!a & c);
    r.update(i, rotated16(sum, rotation(i)))
}

/// The first `i` words of mixing round `round` done.
pub open spec fn mix_upto(r: Seq<u16>, k: Seq<u16>, round: int, i: int) -> Seq<u16>
    decreases i,
{
    if i <= 0 {
        r
    } else {
        mixed(mix_upto(r, k, round, i - 1), k[4 * round + i - 1], i - 1)
    }
}

/// The first `i` words mashed: each has a word of the key added that its
/// neighbour picks.
pub open spec fn mash_upto(r: Seq<u16>, k: Seq<u16>, i: int) -> Seq<u16>
    decreases i,
{
    if i <= 0 {
        r
    } else {
        let m = mash_upto(r, k, i - 1);
        m.update(i - 1, m[i - 1].wrapping_add(k[(m[(i + 2) % 4] & 63) as int]))
    }
}

/// The block after `n` mixing rounds, with the two mashing rounds that come
/// after the fifth and the eleventh.
pub open spec fn rounds(r: Seq<u16>, k: Seq<u16>, n: int) -> Seq<u16>
    decreases n,
{
    if n <= 0 {
        r
    } else {
        let m = mix_upto(rounds(r, k, n - 1), k, n - 1, 4);
        if n == 5 || n == 11 {
            mash_upto(m, k, 4)
        } else {
            m
        }
    }
}

/// A block of eight bytes as four words.
pub open spec fn words_of(block: Seq<u8>) -> Seq<u16> {
    Seq::new(4, |i: int| crate::bytes::word16(block, 2 * i))
}

/// One block, encrypted.
pub open spec fn encrypted(k: Seq<u16>, block: Seq<u8>) -> Seq<u8> {
    let r = rounds(words_of(block), k, 16);
    crate::bytes::le16(r[0]) + crate::bytes::le16(r[1]) + crate::bytes::le16(r[2])
        + crate::bytes::le16(r[3])
}

proof fn lemma_low_six(x: u16)
    ensures
        (x & 63) < 64,
{
    assert((x & 63) < 64) by (bit_vector);
}

/// One mixing round.
fn mix_round(r: &mut [u16; 4], k: &[u16; 64], round: usize)
    requires
        round < 16,
    ensures
        final(r)@ =~= mix_upto(old(r)@, k@, round as int, 4),
{
    let mut i: usize = 0;
    while i < 4
        invariant
            i <= 4,
            round < 16,
            r@ == mix_upto(old(r)@, k@, round as int, i as int),
        decreases 4 - i,
    {
        let a: u16 = r[(i + 3) % 4];
        let b: u16 = r[(i + 2) % 4];
        let c: u16 = r[(i + 1) % 4];
        let sum: u16 = r[i].wrapping_add(k[4 * round + i]).wrapping_add(a & b).wrapping_add(
            !a & c,
        );
        let n: u32 = if i == 0 {
            1
        } else if i == 1 {
            2
        } else if i == 2 {
            3
        } else {
            5
        };
        r[i] = (sum << n) | (sum >> (16 - n));
        i = i + 1;
    }
}

/// One mashing round.
fn mash_round(r: &mut [u16; 4], k: &[u16; 64])
    ensures
        final(r)@ =~= mash_upto(old(r)@, k@, 4),
{
    let mut i: usize = 0;
    while i < 4
        invariant
            i <= 4,
            r@ == mash_upto(old(r)@, k@, i as int),
        decreases 4 - i,
    {
        let pick: u16 = r[(i + 3) % 4] & 63;
        proof {
            lemma_low_six(r@[(i + 3) % 4]);
        }
        r[i] = r[i].wrapping_add(k[pick as usize]);
        i = i + 1;
    }
}

pub fn rc2_encrypt_block(k: &[u16; 64], block: [u8; 8]) -> (r: [u8; 8])
    ensures
        r@ =~= encrypted(k@, block@),
{
    let mut r: [u16; 4] = [
        get16(block.as_slice(), 0),
        get16(block.as_slice(), 2),
        get16(block.as_slice(), 4),
        get16(block.as_slice(), 6),
    ];
    let ghost start = r@;
    assert(start =~= words_of(block@));
    let mut round: usize = 0;
    while round < 16
        invariant
            round <= 16,
            r@ == rounds(start, k@, round as int),
        decreases 16 - round,
    {
        mix_round(&mut r, k, round);
        // Two mashing rounds, after the fifth and the eleventh mix.
        if round == 4 || round == 10 {
            mash_round(&mut r, k);
        }
        round = round + 1;
    }
    [
        r[0] as u8,
        (r[0] >> 8) as u8,
        r[1] as u8,
        (r[1] >> 8) as u8,
        r[2] as u8,
        (r[2] >> 8) as u8,
        r[3] as u8,
        (r[3] >> 8) as u8,
    ]
}

// ---------------------------------------------------------------- MD5
/// How far each step of MD5 rotates.
pub const SHIFTS: [u32; 64] = [
    7, 12, 17, 22, 7, 12, 17, 22, 7, 12, 17, 22, 7, 12, 17, 22,
    5, 9, 14, 20, 5, 9, 14, 20, 5, 9, 14, 20, 5, 9, 14, 20,
    4, 11, 16, 23, 4, 11, 16, 23, 4, 11, 16, 23, 4, 11, 16, 23,
    6, 10, 15, 21, 6, 10, 15, 21, 6, 10, 15, 21, 6, 10, 15, 21,
];

/// What each step of MD5 adds: the integer part of 2^32 times the absolute
/// sine of one more than the step.
pub const SINES: [u32; 64] = [
    0xd76aa478, 0xe8c7b756, 0x242070db, 0xc1bdceee, 0xf57c0faf, 0x4787c62a, 0xa8304613, 0xfd469501,
    0x698098d8, 0x8b44f7af, 0xffff5bb1, 0x895cd7be, 0x6b901122, 0xfd987193, 0xa679438e, 0x49b40821,
    0xf61e2562, 0xc040b340, 0x265e5a51, 0xe9b6c7aa, 0xd62f105d, 0x02441453, 0xd8a1e681, 0xe7d3fbc8,
    0x21e1cde6, 0xc33707d6, 0xf4d50d87, 0x455a14ed, 0xa9e3e905, 0xfcefa3f8, 0x676f02d9, 0x8d2a4c8a,
    0xfffa3942, 0x8771f681, 0x6d9d6122, 0xfde5380c, 0xa4beea44, 0x4bdecfa9, 0xf6bb4b60, 0xbebfbc70,
    0x289b7ec6, 0xeaa127fa, 0xd4ef3085, 0x04881d05, 0xd9d4d039, 0xe6db99e5, 0x1fa27cf8, 0xc4ac5665,
    0xf4292244, 0x432aff97, 0xab9423a7, 0xfc93a039, 0x655b59c3, 0x8f0ccc92, 0xffeff47d, 0x85845dd1,
    0x6fa87e4f, 0xfe2ce6e0, 0xa3014314, 0x4e0811a1, 0xf7537e82, 0xbd3af235, 0x2ad7d2bb, 0xeb86d391,
];

/// The four words MD5 carries from block to block.
#[derive(Debug, Clone, Copy, PartialEq, Eq, Structural)]
pub struct Digest {
    pub a: u32,
    pub b: u32,
    pub c: u32,
    pub d: u32,
}

pub open spec fn rotated32(x: u32, n: u32) -> u32 {
    (x << n) | (x >> ((32 - n) as u32))
}

impl Digest {
    pub open spec fn start() -> Digest {
        Digest { a: 0x6745_2301, b: 0xefcd_ab89, c: 0x98ba_dcfe, d: 0x1032_5476 }
    }

    /// The nonlinear function of step `i`, and the word of the block it takes.
    pub open spec fn picked(self, i: int) -> (u32, int) {
        if i < 16 {
            ((self.b & self.c) | (!self.b & self.d), i)
        } else if i < 32 {
            ((self.d & self.b) | (!self.d & self.c), (5 * i + 1) % 16)
        } else if i < 48 {
            (self.b ^ self.c ^ self.d, (3 * i + 5) % 16)
        } else {
            (self.c ^ (self.b | !self.d), (7 * i) % 16)
        }
    }

    /// One step over the block that starts at `at`.
    pub open spec fn stepped(self, msg: Seq<u8>, at: int, i: int) -> Digest {
        let (f, g) = self.picked(i);
        let sum = f.wrapping_add(self.a).wrapping_add(SINES[i]).wrapping_add(
            crate::bytes::word32(msg, at + 4 * g),
        );
        Digest {
            a: self.d,
            b: self.b.wrapping_add(rotated32(sum, SHIFTS[i])),
            c: self.b,
            d: self.c,
        }
    }

    pub open spec fn steps(self, msg: Seq<u8>, at: int, n: int) -> Digest
        decreases n,
    {
        if n <= 0 {
            self
        } else {
            self.steps(msg, at, n - 1).stepped(msg, at, n - 1)
        }
    }

    /// The words after another block.
    pub open spec fn absorbed(self, msg: Seq<u8>, at: int) -> Digest {
        let s = self.steps(msg, at, 64);
        Digest {
            a: self.a.wrapping_add(s.a),
            b: self.b.wrapping_add(s.b),
            c: self.c.wrapping_add(s.c),
            d: self.d.wrapping_add(s.d),
        }
    }

    /// The words after the first `n` blocks.
    pub open spec fn over(msg: Seq<u8>, n: int) -> Digest
        decreases n,
    {
        if n <= 0 {
            Digest::start()
        } else {
            Digest::over(msg, n - 1).absorbed(msg, 64 * (n - 1))
        }
    }

    pub open spec fn bytes(self) -> Seq<u8> {
        crate::bytes::le32(self.a) + crate::bytes::le32(self.b) + crate::bytes::le32(self.c)
            + crate::bytes::le32(self.d)
    }

    /// Work one block in.
    fn absorb(self, msg: &[u8], at: usize) -> (r: Digest)
        requires
            at + 64 <= msg.len(),
        ensures
            r == self.absorbed(msg@, at as int),
    {
        let mut s: Digest = self;
        let mut i: usize = 0;
        while i < 64
            invariant
                i <= 64,
                at + 64 <= msg.len(),
                s == self.steps(msg@, at as int, i as int),
            decreases 64 - i,
        {
            let (f, g): (u32, usize) = if i < 16 {
                ((s.b & s.c) | (!s.b & s.d), i)
            } else if i < 32 {
                ((s.d & s.b) | (!s.d & s.c), (5 * i + 1) % 16)
            } else if i < 48 {
                (s.b ^ s.c ^ s.d, (3 * i + 5) % 16)
            } else {
                (s.c ^ (s.b | !s.d), (7 * i) % 16)
            };
            let sum: u32 = f.wrapping_add(s.a).wrapping_add(SINES[i]).wrapping_add(
                get32(msg, at + 4 * g),
            );
            let n: u32 = SHIFTS[i];
            proof {
                lemma_shift(i as int);
            }
            let turned: u32 = (sum << n) | (sum >> (32 - n));
            s = Digest { a: s.d, b: s.b.wrapping_add(turned), c: s.b, d: s.c };
            i = i + 1;
        }
        Digest {
            a: self.a.wrapping_add(s.a),
            b: self.b.wrapping_add(s.b),
            c: self.c.wrapping_add(s.c),
            d: self.d.wrapping_add(s.d),
        }
    }
}

proof fn lemma_shift(i: int)
    requires
        0 <= i < 64,
    ensures
        4 <= SHIFTS[i] <= 23,
{
}

/// How many zeroes stand between the closing bit and the length.
pub open spec fn zeroes_for(len: int) -> int {
    (119 - len % 64) % 64
}

/// The message MD5 works through: the data, a closing bit, zeroes up to eight
/// short of a whole block, and the length in bits.
pub open spec fn md5_message(data: Seq<u8>) -> Seq<u8> {
    let bits = (data.len() as u64).wrapping_mul(8);
    data + seq![0x80u8] + Seq::new(zeroes_for(data.len() as int) as nat, |i: int| 0u8)
        + crate::bytes::le32(bits as u32) + crate::bytes::le32((bits >> 32) as u32)
}

pub open spec fn md5_spec(data: Seq<u8>) -> Seq<u8> {
    let msg = md5_message(data);
    Digest::over(msg, msg.len() as int / 64).bytes()
}

/// MD5, because `CryptDeriveKey` derives from an MD5 hash and the key comes
/// out of the first five bytes of it.
pub fn md5(data: &[u8]) -> (r: [u8; 16])
    requires
        data.len() + 72 <= usize::MAX,
    ensures
        r@ =~= md5_spec(data@),
{
    let mut msg: Vec<u8> = Vec::new();
    push_all(&mut msg, data);
    msg.push(0x80);
    let zeroes: Vec<u8> = filled((119 - data.len() % 64) % 64, 0);
    push_all(&mut msg, zeroes.as_slice());
    let bits: u64 = (data.len() as u64).wrapping_mul(8);
    push32(&mut msg, bits as u32);
    push32(&mut msg, (bits >> 32) as u32);
    assert(msg@ =~= md5_message(data@));

    let mut digest = Digest { a: 0x6745_2301, b: 0xefcd_ab89, c: 0x98ba_dcfe, d: 0x1032_5476 };
    let blocks: usize = msg.len() / 64;
    let mut n: usize = 0;
    while n < blocks
        invariant
            n <= blocks,
            blocks == msg@.len() / 64,
            digest == Digest::over(msg@, n as int),
        decreases blocks - n,
    {
        digest = digest.absorb(msg.as_slice(), 64 * n);
        n = n + 1;
    }
    let a: [u8; 4] = split32(digest.a);
    let b: [u8; 4] = split32(digest.b);
    let c: [u8; 4] = split32(digest.c);
    let d: [u8; 4] = split32(digest.d);
    [
        a[0], a[1], a[2], a[3],
        b[0], b[1], b[2], b[3],
        c[0], c[1], c[2], c[3],
        d[0], d[1], d[2], d[3],
    ]
}

/// The message MD5 works through is whole blocks.
pub proof fn law_md5_whole_blocks(data: Seq<u8>)
    ensures
        md5_message(data).len() % 64 == 0,
{
    let len = data.len() as int;
    let z = zeroes_for(len);
    let r = len % 64;
    assert(z == (if r <= 55 {
        55 - r
    } else {
        119 - r
    }));
    assert(md5_message(data).len() == len + 1 + z + 8);
}

/// Padded data is whole blocks, starts with the data, and its last byte says
/// how much to take off again.
pub proof fn law_padding(data: Seq<u8>)
    ensures
        padded(data).len() % 8 == 0,
        1 <= padded(data).last() <= 8,
        padded(data).take(padded(data).len() - padded(data).last()) == data,
{
    assert(padded(data).take(padded(data).len() - padded(data).last()) =~= data);
}

/// The cipher's output is as long as its input.
pub proof fn law_cbc_length(sched: Seq<u16>, data: Seq<u8>)
    requires
        data.len() % 8 == 0,
    ensures
        cbc_spec(sched, data).len() == data.len(),
{
    lemma_cbc_blocks_len(sched, data, data.len() as int / 8);
}

proof fn lemma_cbc_blocks_len(sched: Seq<u16>, data: Seq<u8>, n: int)
    requires
        0 <= n,
    ensures
        cbc_blocks(sched, data, n).len() == 8 * n,
    decreases n,
{
    if n > 0 {
        lemma_cbc_blocks_len(sched, data, n - 1);
    }
}

/// The device id inside the payload is the serial that the part reports, so
/// the two cannot drift apart, and it is zero-padded to eight bytes.
pub proof fn law_identity_agrees(l: Licence)
    ensures
        l.payload_spec().len() == 44,
        l.payload_spec().subrange(0x18, 0x1e) == l.serial@,
        l.payload_spec().subrange(0x1e, 0x20) == seq![0u8, 0],
        l.eeprom_spec().subrange(1, 7) == l.serial@,
{
    assert(l.payload_spec().subrange(0x18, 0x1e) =~= l.serial@);
    assert(l.payload_spec().subrange(0x1e, 0x20) =~= seq![0u8, 0]);
    assert(l.eeprom_spec().subrange(1, 7) =~= l.serial@);
}

/// The record in the memory frames the blob: its length, the blob, and the
/// sum of its bytes.
pub proof fn law_record_frames_blob(l: Licence)
    ensures
        l.eeprom_spec()[8] == 48,
        l.eeprom_spec().subrange(9, 57) == l.blob_spec(),
        l.eeprom_spec()[57] == (super::onewire::sum_of(l.blob_spec()) % 256) as u8,
{
    law_padding(l.payload_spec());
    law_cbc_length(expanded(key_spec(), EFFECTIVE_BITS as int), padded(l.payload_spec()));
    assert(l.payload_spec().len() == 44);
    assert(l.blob_spec().len() == 48);
    assert(l.eeprom_spec().subrange(9, 57) =~= l.blob_spec());
}

/// Every block of the ciphertext is the plaintext block over the block of the
/// ciphertext before it, encrypted; the first stands behind zeroes.
pub proof fn law_blocks_are_chained(sched: Seq<u16>, data: Seq<u8>, n: int)
    requires
        data.len() % 8 == 0,
        0 <= n,
        8 * n + 8 <= data.len(),
    ensures
        ({
            let out = cbc_spec(sched, data);
            let before = if n == 0 {
                Seq::new(8, |i: int| 0u8)
            } else {
                out.subrange(8 * n - 8, 8 * n)
            };
            out.subrange(8 * n, 8 * n + 8) == encrypted(
                sched,
                Seq::new(8, |i: int| data[8 * n + i] ^ before[i]),
            )
        }),
{
    let out = cbc_spec(sched, data);
    let blocks = data.len() as int / 8;
    lemma_cbc_at(sched, data, blocks, n);
    let before = if n == 0 {
        Seq::new(8, |i: int| 0u8)
    } else {
        out.subrange(8 * n - 8, 8 * n)
    };
    if n > 0 {
        lemma_cbc_at(sched, data, blocks, n - 1);
    }
    assert(xored(data.subrange(8 * n, 8 * n + 8), before) =~= Seq::new(
        8,
        |i: int| data[8 * n + i] ^ before[i],
    ));
}

/// Where a block of the ciphertext stands.
proof fn lemma_cbc_at(sched: Seq<u16>, data: Seq<u8>, blocks: int, n: int)
    requires
        0 <= n < blocks,
    ensures
        cbc_blocks(sched, data, blocks).len() == 8 * blocks,
        cbc_blocks(sched, data, blocks).subrange(8 * n, 8 * n + 8) == cbc_block(sched, data, n),
    decreases blocks,
{
    lemma_cbc_blocks_len(sched, data, blocks);
    lemma_cbc_blocks_len(sched, data, blocks - 1);
    let all = cbc_blocks(sched, data, blocks);
    if n == blocks - 1 {
        assert(all.subrange(8 * n, 8 * n + 8) =~= cbc_block(sched, data, n));
    } else {
        lemma_cbc_at(sched, data, blocks - 1, n);
        assert(all.subrange(8 * n, 8 * n + 8) =~= cbc_blocks(sched, data, blocks - 1).subrange(
            8 * n,
            8 * n + 8,
        ));
    }
}

/// A long number is its lower half and its upper half.
proof fn lemma_halves(x: u64)
    ensures
        (x as u32) + 0x1_0000_0000 * ((x >> 32) as u32) == x,
{
    assert((x as u32) + 0x1_0000_0000 * ((x >> 32) as u32) == x) by (bit_vector);
}

/// The message MD5 works through starts with the data and a closing bit, ends
/// with the length in bits, has nothing but zeroes between them, and is no
/// longer than it has to be.
pub proof fn law_md5_message_tells_the_length(data: Seq<u8>, i: int)
    requires
        8 * data.len() <= u64::MAX,
    ensures
        ({
            let m = md5_message(data);
            let end = m.len() - 8;
            &&& m.len() % 64 == 0
            &&& data.len() + 9 <= m.len() < data.len() + 9 + 64
            &&& m.take(data.len() as int) == data
            &&& m[data.len() as int] == 0x80
            &&& data.len() < i < end ==> m[i] == 0
            &&& crate::bytes::word32(m, end) + 0x1_0000_0000 * crate::bytes::word32(m, end + 4) == 8
                * data.len()
        }),
{
    law_md5_whole_blocks(data);
    let m = md5_message(data);
    let bits = (data.len() as u64).wrapping_mul(8);
    assert(bits == 8 * data.len());
    assert(m.take(data.len() as int) =~= data);
    crate::bytes::lemma_word32_round_trip(bits as u32);
    crate::bytes::lemma_word32_round_trip((bits >> 32) as u32);
    lemma_halves(bits);
}

} // verus!
