//! Making the drive a file Windows can open by itself.
//!
//! A **fixed** VHD is not a container format. It is the raw disk, byte for
//! byte, with a 512-byte footer stuck on the end -- so the image the emulator
//! already writes *is* a VHD as soon as the footer is there, and the guest
//! goes on seeing an ordinary disk because the footer sits past the last
//! sector it knows about.
//!
//! That is worth 512 bytes because of what it buys: the user can mount the
//! drive on their own computer and use Explorer, which is a file manager they
//! already know and their screen reader already handles.
//!
//! Nothing may be mounted while the machine is running. Two writers on one
//! filesystem corrupt it, and neither would notice.

use super::fat32::Store;
use crate::bytes::{push32_be, push_all, push_zeroes};
use vstd::prelude::*;

verus! {

/// Every field is big-endian, which is the thing to remember here: the disk
/// it describes is little-endian throughout and the footer is not.
pub const FOOTER_BYTES: u64 = 512;

/// The most sectors that the format can describe: 65535 cylinders of 16 heads
/// of 255 sectors.
pub const MOST_SECTORS: u64 = 267_382_800;

/// `vbno`.
pub const CREATOR: [u8; 4] = [0x76, 0x62, 0x6E, 0x6F];

/// `Wi2k`: created on Windows.
pub const HOST: [u8; 4] = [0x57, 0x69, 0x32, 0x6B];

/// `VBNoteHD`.
pub const IDENTITY: [u8; 8] = [0x56, 0x42, 0x4E, 0x6F, 0x74, 0x65, 0x48, 0x44];

/// The footer of a disk of `disk` bytes, with nothing where its checksum goes.
/// A fixed disk has no header elsewhere, and says so with all ones; the time
/// stamp is zero, because a wrong one is harmless; the identity is a stable
/// one derived from the size.
pub open spec fn unsummed(disk: u64) -> Seq<u8> {
    let (cylinders, heads, sectors) = geometry_spec(disk as int / 512);
    super::fat32::FOOTER_COOKIE@ + crate::bytes::be32(2) + crate::bytes::be32(0x1_0000) + seq![
        0xFFu8,
        0xFF,
        0xFF,
        0xFF,
        0xFF,
        0xFF,
        0xFF,
        0xFF,
    ] + crate::bytes::be32(0) + CREATOR@ + crate::bytes::be32(0x1_0000) + HOST@
        + crate::bytes::be64(disk) + crate::bytes::be64(disk) + crate::bytes::be16(
        cylinders as u16,
    ) + seq![heads as u8, sectors as u8] + crate::bytes::be32(2) + crate::bytes::zeroes(4)
        + IDENTITY@ + crate::bytes::be64(disk) + crate::bytes::zeroes(428)
}

/// The ones' complement of the sum of the footer's bytes, with the checksum's
/// own field zero.
pub open spec fn checksum_of(disk: u64) -> u32 {
    !(super::onewire::sum_of(unsummed(disk)) as u32)
}

pub open spec fn footer_spec(disk: u64) -> Seq<u8> {
    crate::bytes::overlaid(unsummed(disk), 64, crate::bytes::be32(checksum_of(disk)))
}

/// How the format invents a geometry: sectors to a track, heads, and tracks.
pub open spec fn shape_of(total: int) -> (int, int, int) {
    if total >= 65535 * 16 * 63 {
        (255, 16, total / 255)
    } else {
        let tracks = total / 17;
        let rounded = (tracks + 1023) / 1024;
        let heads = if rounded < 4 {
            4
        } else {
            rounded
        };
        if tracks >= heads * 1024 || heads > 16 {
            if total / 31 >= 16 * 1024 {
                (63, 16, total / 63)
            } else {
                (31, 16, total / 31)
            }
        } else {
            (17, heads, tracks)
        }
    }
}

/// Cylinders, heads, and sectors to a track.
pub open spec fn geometry_spec(total_sectors: int) -> (int, int, int) {
    let total = if total_sectors < MOST_SECTORS {
        total_sectors
    } else {
        MOST_SECTORS as int
    };
    let (sectors, heads, tracks) = shape_of(total);
    (tracks / heads, heads, sectors)
}

/// Write the footer that makes an image a fixed VHD.
///
/// `store`'s length is the disk; the footer goes immediately after it.
pub fn write_footer(store: &mut Store) -> (r: Result<(), String>)
    requires
        old(store)@.len() + 512 <= usize::MAX,
    ensures
        r is Ok,
        final(store)@ == old(store)@ + footer_spec(old(store)@.len() as u64),
{
    let disk: u64 = store.len();
    let f: Vec<u8> = footer(disk);
    let ghost before = store@;
    match store.write_past_end(disk, f.as_slice()) {
        Ok(()) => {},
        Err(e) => {
            return Err(e);
        },
    }
    assert(store@ =~= before + footer_spec(disk));
    store.sync();
    Ok(())
}

fn push64_be(v: &mut Vec<u8>, x: u64)
    ensures
        final(v)@ == old(v)@ + crate::bytes::be64(x),
{
    let ghost before = v@;
    push32_be(v, (x >> 32) as u32);
    push32_be(v, x as u32);
    assert(v@ =~= before + crate::bytes::be64(x));
}

/// The footer of a disk of that many bytes.
pub fn footer(disk_bytes: u64) -> (r: Vec<u8>)
    ensures
        r@ == footer_spec(disk_bytes),
        r@.len() == FOOTER_BYTES,
{
    let mut f: Vec<u8> = Vec::new();
    push_all(&mut f, super::fat32::FOOTER_COOKIE.as_slice());
    // Features: bit 1 is reserved and must be set.
    push32_be(&mut f, 2);
    push32_be(&mut f, 0x1_0000);
    push_all(&mut f, [0xFF, 0xFF, 0xFF, 0xFF, 0xFF, 0xFF, 0xFF, 0xFF].as_slice());
    push32_be(&mut f, 0);
    push_all(&mut f, CREATOR.as_slice());
    push32_be(&mut f, 0x1_0000);
    push_all(&mut f, HOST.as_slice());
    push64_be(&mut f, disk_bytes);
    push64_be(&mut f, disk_bytes);
    let (cylinders, heads, sectors): (u16, u8, u8) = geometry(disk_bytes / 512);
    f.push((cylinders >> 8) as u8);
    f.push(cylinders as u8);
    f.push(heads);
    f.push(sectors);
    // 2 is a fixed disk: the data is all there, in order, with no map.
    push32_be(&mut f, 2);
    push_zeroes(&mut f, 4);
    push_all(&mut f, IDENTITY.as_slice());
    push64_be(&mut f, disk_bytes);
    push_zeroes(&mut f, 428);
    assert(f@ =~= unsummed(disk_bytes));
    // The checksum covers the whole footer with its own field zeroed, and is
    // the ones' complement of the sum. Windows refuses a footer whose
    // checksum disagrees, so this is not decoration.
    let mut sum: u32 = 0;
    let mut i: usize = 0;
    while i < f.len()
        invariant
            i <= f@.len(),
            f@.len() == 512,
            sum == super::onewire::sum_of(f@.take(i as int)),
            sum <= 255 * i,
        decreases f.len() - i,
    {
        assert(f@.take(i as int + 1).drop_last() =~= f@.take(i as int));
        sum = sum + f[i] as u32;
        i = i + 1;
    }
    assert(f@.take(512) =~= f@);
    let check: u32 = !sum;
    f.set(64, (check >> 24) as u8);
    f.set(65, (check >> 16) as u8);
    f.set(66, (check >> 8) as u8);
    f.set(67, check as u8);
    assert(f@ =~= footer_spec(disk_bytes));
    f
}

/// The geometry fits the fields it goes into, describes no more sectors than
/// there are, and is none of it zero once there is a track for every head.
pub proof fn law_geometry_fits(total_sectors: int)
    requires
        0 <= total_sectors,
    ensures
        ({
            let (c, h, s) = geometry_spec(total_sectors);
            &&& 0 <= c <= 65535
            &&& 4 <= h <= 16
            &&& 17 <= s <= 255
            &&& c * h * s <= total_sectors
            &&& total_sectors >= 68 ==> c >= 1
        }),
{
    let total = if total_sectors < MOST_SECTORS {
        total_sectors
    } else {
        MOST_SECTORS as int
    };
    let (s, h, t) = shape_of(total);
    let c = t / h;
    assert(t == total / s);
    assert(4 <= h <= 16);
    assert(c * h <= t) by (nonlinear_arith)
        requires
            c == t / h,
            h > 0,
    ;
    assert(t * s <= total) by (nonlinear_arith)
        requires
            t == total / s,
            s > 0,
    ;
    assert(c * h * s <= t * s) by (nonlinear_arith)
        requires
            c * h <= t,
            s >= 0,
    ;
    if s == 17 {
        assert(t < h * 1024);
        assert(c <= 1024) by (nonlinear_arith)
            requires
                c == t / h,
                t < h * 1024,
                4 <= h,
                t >= 0,
        ;
        if total >= 68 {
            assert(c >= 1) by (nonlinear_arith)
                requires
                    c == t / h,
                    t >= h,
                    h >= 4,
            ;
        }
    }
    assert(c >= 0) by (nonlinear_arith)
        requires
            c == t / h,
            t >= 0,
            h > 0,
    ;
}

/// The cylinder/head/sector numbers the VHD specification asks for.
///
/// Nothing reads a real geometry off a disk any more, but the format insists
/// on one and it has a defined way of inventing it. This is that way.
pub fn geometry(total_sectors: u64) -> (r: (u16, u8, u8))
    ensures
        r.0 == geometry_spec(total_sectors as int).0,
        r.1 == geometry_spec(total_sectors as int).1,
        r.2 == geometry_spec(total_sectors as int).2,
{
    proof {
        law_geometry_fits(total_sectors as int);
    }
    // The largest the format can describe.
    let total: u64 = if total_sectors < MOST_SECTORS {
        total_sectors
    } else {
        MOST_SECTORS
    };
    let mut sectors: u64 = 17;
    let mut heads: u64 = 16;
    let mut tracks: u64 = total / 17;
    if total >= 66_059_280 {
        sectors = 255;
        tracks = total / 255;
    } else {
        heads = (tracks + 1023) / 1024;
        if heads < 4 {
            heads = 4;
        }
        if tracks >= heads * 1024 || heads > 16 {
            sectors = 31;
            heads = 16;
            tracks = total / 31;
        }
        if tracks >= heads * 1024 {
            sectors = 63;
            heads = 16;
            tracks = total / 63;
        }
    }
    let cylinders: u64 = tracks / heads;
    (cylinders as u16, heads as u8, sectors as u8)
}

/// The size stands in the footer twice, most significant byte first, and is
/// the disk's: a footer that counted itself would describe a disk 512 bytes
/// too long.
pub proof fn law_footer_gives_the_disk(disk: u64)
    ensures
        footer_spec(disk).len() == 512,
        footer_spec(disk).subrange(0, 8) == super::fat32::FOOTER_COOKIE@,
        footer_spec(disk).subrange(40, 48) == crate::bytes::be64(disk),
        footer_spec(disk).subrange(48, 56) == crate::bytes::be64(disk),
        footer_spec(disk).subrange(60, 64) == crate::bytes::be32(2),
{
    let f = footer_spec(disk);
    assert(f.subrange(0, 8) =~= super::fat32::FOOTER_COOKIE@);
    assert(f.subrange(40, 48) =~= crate::bytes::be64(disk));
    assert(f.subrange(48, 56) =~= crate::bytes::be64(disk));
    assert(f.subrange(60, 64) =~= crate::bytes::be32(2));
}

/// The checksum in the footer is the complement of the sum of the rest.
pub proof fn law_checksum_covers_the_footer(disk: u64)
    ensures
        footer_spec(disk).subrange(64, 68) == crate::bytes::be32(
            !(super::onewire::sum_of(
                crate::bytes::overlaid(footer_spec(disk), 64, crate::bytes::zeroes(4)),
            ) as u32),
        ),
{
    let f = footer_spec(disk);
    assert(crate::bytes::overlaid(f, 64, crate::bytes::zeroes(4)) =~= unsummed(disk));
    assert(f.subrange(64, 68) =~= crate::bytes::be32(checksum_of(disk)));
}

/// The shape is the smallest of those the format has that the disk fits in. A
/// disk of the largest size has 255 sectors to a track. A smaller one has as
/// many heads as keep it below 1024 cylinders of 17 sectors, four at least; if
/// sixteen are not enough, tracks of 31 sectors, and if it still has 1024
/// cylinders, of 63. Less than one cylinder of it is left out.
pub proof fn law_the_shape_is_the_smallest_that_fits(total: int)
    requires
        0 <= total <= MOST_SECTORS,
    ensures
        ({
            let (c, h, s) = geometry_spec(total);
            &&& s == 17 || s == 31 || s == 63 || s == 255
            &&& (s == 255) == (total >= 66_059_280)
            &&& s != 17 ==> h == 16
            &&& s == 17 ==> (total / 17 < 1024 * h && (h == 4 || 1024 * (h - 1) < total / 17))
            &&& s == 31 || s == 63 ==> total / 17 > 16 * 1024 || (total / 17 >= 4096 && (total / 17)
                % 1024 == 0)
            &&& s == 31 ==> total / 31 < 16 * 1024
            &&& s == 63 ==> total / 31 >= 16 * 1024
            &&& total - c * h * s < h * s
        }),
{
    let (s, h, t) = shape_of(total);
    let c = t / h;
    assert(t == total / s);
    assert(t < c * h + h) by (nonlinear_arith)
        requires
            c == t / h,
            h > 0,
    ;
    assert(total < t * s + s) by (nonlinear_arith)
        requires
            t == total / s,
            s > 0,
    ;
    assert((t + 1) * s <= (c * h + h) * s) by (nonlinear_arith)
        requires
            t + 1 <= c * h + h,
            s >= 0,
    ;
    assert((t + 1) * s == t * s + s && (c * h + h) * s == c * h * s + h * s) by (nonlinear_arith);
}

/// The numbers in the footer are its disk's, the highest byte first: the shape,
/// the size in both its places, and the version and kind of the format.
pub proof fn law_the_footer_spells_the_disk(disk: u64)
    ensures
        ({
            let f = footer_spec(disk);
            let (c, h, s) = geometry_spec(disk as int / 512);
            &&& f[56] * 0x100 + f[57] == c
            &&& f[58] == h
            &&& f[59] == s
            &&& number64(f, 40) == disk
            &&& number64(f, 48) == disk
            &&& number64(f, 76) == disk
            &&& f[8] == 0 && f[9] == 0 && f[10] == 0 && f[11] == 2
            &&& f[12] == 0 && f[13] == 1 && f[14] == 0 && f[15] == 0
            &&& forall|i: int| 16 <= i < 24 ==> #[trigger] f[i] == 0xFF
            &&& forall|i: int| 84 <= i < 512 ==> #[trigger] f[i] == 0
        }),
{
    law_geometry_fits(disk as int / 512);
    let (c, h, s) = geometry_spec(disk as int / 512);
    let f = footer_spec(disk);
    crate::bytes::law_the_first_byte_is_lowest(0, 0, 0, 0, (disk >> 32) as u32, 0);
    crate::bytes::law_the_first_byte_is_lowest(0, 0, 0, 0, disk as u32, c as u16);
    crate::bytes::law_the_first_byte_is_lowest(0, 0, 0, 0, 2, 0);
    crate::bytes::law_the_first_byte_is_lowest(0, 0, 0, 0, 0x1_0000, 0);
    crate::bits::lemma_halves(disk);
    let d = crate::bytes::be64(disk);
    assert(f.subrange(40, 48) =~= d && f.subrange(48, 56) =~= d && f.subrange(76, 84) =~= d);
    assert(f.subrange(8, 12) =~= crate::bytes::be32(2));
    assert(f.subrange(12, 16) =~= crate::bytes::be32(0x1_0000));
    assert(number64(d, 0) == disk);
    assert(number64(f, 40) == number64(f.subrange(40, 48), 0));
    assert(number64(f, 48) == number64(f.subrange(48, 56), 0));
    assert(number64(f, 76) == number64(f.subrange(76, 84), 0));
    assert(f[8] == f.subrange(8, 12)[0] && f[9] == f.subrange(8, 12)[1] && f[10] == f.subrange(
        8,
        12,
    )[2] && f[11] == f.subrange(8, 12)[3]);
    assert(f[12] == f.subrange(12, 16)[0] && f[13] == f.subrange(12, 16)[1] && f[14] == f.subrange(
        12,
        16,
    )[2] && f[15] == f.subrange(12, 16)[3]);
}

/// Eight bytes as a number, the first of them highest.
pub open spec fn number64(b: Seq<u8>, at: int) -> int {
    (b[at] * 0x100_0000 + b[at + 1] * 0x1_0000 + b[at + 2] * 0x100 + b[at + 3]) * 0x1_0000_0000 + b[
    at + 4] * 0x100_0000 + b[at + 5] * 0x1_0000 + b[at + 6] * 0x100 + b[at + 7]
}

} // verus!
