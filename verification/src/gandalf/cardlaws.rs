//! What holds of a card in the socket: where it is on the bus, what its task
//! file keeps, what it refuses, and what it says of itself.

use super::pcmcia::{AtaState, Phase, Space};
use vstd::prelude::*;

verus! {

/// Each socket has a quarter of a gigabyte of addresses: common memory in its
/// lower half, then attribute memory, then the registers. An offset counts from
/// the start of its space.
pub proof fn law_each_space_has_its_window(off: u32)
    requires
        off < 0x400_0000,
    ensures
        super::pcmcia::decoded((0x2000_0000 + off) as u32) == Some((0u8, Space::Common, off)),
        super::pcmcia::decoded((0x2800_0000 + off) as u32) == Some((0u8, Space::Attribute, off)),
        super::pcmcia::decoded((0x2C00_0000 + off) as u32) == Some((0u8, Space::Io, off)),
        super::pcmcia::decoded((0x3000_0000 + off) as u32) == Some((1u8, Space::Common, off)),
        super::pcmcia::decoded((0x3800_0000 + off) as u32) == Some((1u8, Space::Attribute, off)),
        super::pcmcia::decoded((0x3C00_0000 + off) as u32) == Some((1u8, Space::Io, off)),
        super::pcmcia::decoded((0x1C00_0000 + off) as u32) is None,
        super::pcmcia::decoded((0x4000_0000 + off) as u32) is None,
{
    lemma_window((0x2000_0000 + off) as u32);
    lemma_window((0x2800_0000 + off) as u32);
    lemma_window((0x2C00_0000 + off) as u32);
    lemma_window((0x3000_0000 + off) as u32);
    lemma_window((0x3800_0000 + off) as u32);
    lemma_window((0x3C00_0000 + off) as u32);
}

proof fn lemma_window(pa: u32)
    requires
        super::pcmcia::BASE <= pa <= super::pcmcia::END,
    ensures
        super::pcmcia::decoded(pa) == Some(
            (
                if pa < 0x3000_0000 {
                    0u8
                } else {
                    1u8
                },
                if (pa % 0x1000_0000) / 0x400_0000 < 2 {
                    Space::Common
                } else if (pa % 0x1000_0000) / 0x400_0000 == 2 {
                    Space::Attribute
                } else {
                    Space::Io
                },
                pa % 0x400_0000,
            ),
        ),
{
    super::lemma_parts(pa);
    super::lemma_parts(pa & 0x0FFF_FFFF);
}

/// The registers of the task file hold a byte each, and no other changes with
/// one; nothing on the disk does. The status and the error are read in two
/// places each.
pub proof fn law_the_task_file_reads_back(
    a: AtaState,
    reg: u32,
    other: u32,
    val: u32,
    width: u32,
    disk: Seq<u8>,
)
    requires
        2 <= reg <= 6,
        2 <= other <= 6,
        a.lba.len() == 4,
    ensures
        a.written(reg, val, width, disk).1 == disk,
        a.written(reg, val, width, disk).0.read_spec(reg, width) == (val as u8),
        other != reg ==> a.written(reg, val, width, disk).0.read_spec(other, width) == a.read_spec(
            other,
            width,
        ),
        a.written(reg, val, width, disk).0.phase == a.phase,
        a.read_spec(7, width) == a.status && a.read_spec(0x0E, width) == a.status,
        a.read_spec(1, width) == a.error && a.read_spec(0x0D, width) == a.error,
{
    super::lemma_parts(reg);
    super::lemma_parts(other);
    super::lemma_parts(7);
    super::lemma_parts(0x0E);
    super::lemma_parts(1);
    super::lemma_parts(0x0D);
}

/// A sector that is not on the disk can neither be read nor written, and the
/// card says so; one that is can. A command the card does not know fails as
/// well. No command changes the disk by itself.
pub proof fn law_what_is_out_of_reach_is_refused(a: AtaState, cmd: u8, disk: Seq<u8>)
    requires
        a.sectors == disk.len() / 512,
    ensures
        ({
            let c = a.commanded(cmd, disk);
            let reads = cmd == 0x20 || cmd == 0x21;
            let writes = cmd == 0x30 || cmd == 0x31;
            let known = reads || writes || cmd == 0xEC || cmd == 0xA1 || cmd == 0xEF || cmd == 0x91
                || cmd == 0xE5 || cmd == 0xE1 || cmd == 0xE3 || cmd == 0x00 || cmd == 0x90;
            let there = a.lba_spec() < a.sectors;
            &&& ((reads || writes) && !there) || !known ==> c.status == 0x41 && c.error == 0x04
                && c.phase == Phase::Idle
            &&& reads && there ==> c.status == 0x48 && c.error == 0 && c.phase == Phase::Reading
            &&& writes && there ==> c.status == 0x48 && c.error == 0 && c.phase == Phase::Writing
            &&& known && !reads && !writes ==> c.status == 0x40 || c.status == 0x48
            &&& c.lba == a.lba
        }),
{
    lemma_status();
}

proof fn lemma_status()
    ensures
        super::pcmcia::STATUS_DRDY | super::pcmcia::STATUS_ERR == 0x41,
        super::pcmcia::STATUS_DRDY | super::pcmcia::STATUS_DRQ == 0x48,
{
    super::lemma_parts(0);
}

/// A card says how many sectors it has, twice, and at least one; the geometry
/// it makes up never has more than that, but for a card too small to have a
/// cylinder.
pub proof fn law_the_card_tells_its_size(sectors: u32)
    ensures
        ({
            let w = super::pcmcia::identity(sectors);
            let n = if sectors == 0 {
                1
            } else {
                sectors as int
            };
            let cylinders = crate::bytes::word16(w, 2);
            &&& w.len() == 512
            &&& crate::bytes::word16(w, 114) + 0x1_0000 * crate::bytes::word16(w, 116) == n
            &&& crate::bytes::word16(w, 120) + 0x1_0000 * crate::bytes::word16(w, 122) == n
            &&& crate::bytes::word16(w, 6) == 16 && crate::bytes::word16(w, 12) == 63
            &&& cylinders >= 1
            &&& n >= 1008 ==> cylinders * 16 * 63 <= n
            &&& 1008 <= n < 1008 * 65536 ==> n < (cylinders + 1) * 16 * 63
        }),
{
    let w = super::pcmcia::identity(sectors);
    let n = super::pcmcia::counted(sectors);
    super::lemma_parts(n);
    lemma_geometry(sectors);
    lemma_size(sectors);
}

proof fn lemma_geometry(sectors: u32)
    ensures
        super::pcmcia::identity(sectors).len() == 512,
        crate::bytes::word16(super::pcmcia::identity(sectors), 2) == super::pcmcia::cylinders(
            sectors,
        ),
        crate::bytes::word16(super::pcmcia::identity(sectors), 6) == 16,
        crate::bytes::word16(super::pcmcia::identity(sectors), 12) == 63,
{
    crate::bytes::lemma_word16_round_trip(super::pcmcia::cylinders(sectors));
    crate::bytes::lemma_word16_round_trip(16);
    crate::bytes::lemma_word16_round_trip(63);
}

proof fn lemma_size(sectors: u32)
    ensures
        ({
            let w = super::pcmcia::identity(sectors);
            let low = (super::pcmcia::counted(sectors) & 0xFFFF) as u16;
            let high = (super::pcmcia::counted(sectors) >> 16) as u16;
            &&& crate::bytes::word16(w, 114) == low && crate::bytes::word16(w, 116) == high
            &&& crate::bytes::word16(w, 120) == low && crate::bytes::word16(w, 122) == high
        }),
{
    crate::bytes::lemma_word16_round_trip((super::pcmcia::counted(sectors) & 0xFFFF) as u16);
    crate::bytes::lemma_word16_round_trip((super::pcmcia::counted(sectors) >> 16) as u16);
}

} // verus!
