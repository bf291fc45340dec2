//! What the board does as a whole: where its parts answer, where an image
//! comes to lie, and how its clocks run.

use super::image::CeImage;
use super::BoardState;
use vstd::prelude::*;

verus! {

/// Which part answers at an address: the flash from the bottom up, the board's
/// own logic at its megabyte, the processor's devices at theirs, and SDRAM. A
/// word that is read there is that part's, and a word that is written goes to
/// that part and changes no other memory.
pub proof fn law_each_part_answers_at_its_addresses(b: BoardState, pa: u32, val: u32)
    ensures
        ({
            let w = b.written32(pa, val);
            let mb = pa / 0x10_0000;
            let off = (pa % 0x10_0000) as u32;
            &&& pa + 4 <= 0x400_0000 ==> b.read32_spec(pa) == b.flash.read_spec(pa, 4) && w.flash
                == b.flash.written(pa, val, 4) && w.sdram == b.sdram && w.soc == b.soc
            &&& mb == 0x100 ==> b.read32_spec(pa) == b.cpld.read_spec(off) && w.cpld
                == b.cpld.written(off, val as u16, b.pc) && w.sdram == b.sdram && w.flash == b.flash
            &&& 0x400 <= mb <= 0x420 || mb == 0x480 || mb == 0x4C0 ==> b.read32_spec(pa)
                == b.soc.read32_spec(pa) && w.sdram == b.sdram && w.flash == b.flash && w.cpld
                == b.cpld
            &&& 0x400 <= mb <= 0x420 && mb != 0x40E ==> w.soc == b.soc.written32(pa, val)
            &&& 0xA000_0000 <= pa && pa + 4 <= 0xA400_0000 ==> b.read32_spec(pa)
                == crate::bytes::word32(b.sdram, pa - 0xA000_0000) && w.flash == b.flash && w.soc
                == b.soc && w.cpld == b.cpld
        }),
{
    reveal(BoardState::read32_spec);
    reveal(BoardState::written32);
    crate::pxa270::lemma_megabyte(pa);
}

/// Memory looks the same at every width: a halfword is its two bytes and a word
/// its four, the first of them lowest.
pub proof fn law_widths_agree_in_memory(b: BoardState, pa: u32)
    requires
        super::in_sdram(pa),
        pa + 4 <= super::SDRAM_BASE + super::SDRAM_SIZE,
    ensures
        ({
            let a = b.read8_spec(pa);
            let c = b.read8_spec((pa + 1) as u32);
            let d = b.read8_spec((pa + 2) as u32);
            let e = b.read8_spec((pa + 3) as u32);
            &&& b.read16_spec(pa) == a + 0x100 * c
            &&& b.read32_spec(pa) == a + 0x100 * c + 0x1_0000 * d + 0x100_0000 * e
        }),
{
    super::lemma_sdram_reads(b, pa);
    super::lemma_sdram_reads(b, (pa + 1) as u32);
    super::lemma_sdram_reads(b, (pa + 2) as u32);
    super::lemma_sdram_reads(b, (pa + 3) as u32);
    let at = super::sdram_at(pa);
    crate::bytes::law_the_first_byte_is_lowest(
        b.sdram[at],
        b.sdram[at + 1],
        b.sdram[at + 2],
        b.sdram[at + 3],
        0,
        0,
    );
}

/// The static map takes the window at 0x80000000 to the flash, the kernel's
/// window to SDRAM so that 0x96C00000 is its first byte, and an address that is
/// physical already to itself.
pub proof fn law_the_static_map(va: u32)
    ensures
        va < 0x400_0000 ==> super::static_map((0x8000_0000 + va) as u32) == Some(va as int),
        va <= 0x400_0000 ==> super::static_map((0x96C0_0000 + va) as u32) == Some(
            0xA000_0000 + va,
        ),
        va < 0x6000_0000 ==> super::static_map(va) == Some(va as int),
        0xA000_0000 <= va < 0xA400_0000 ==> super::static_map(va) == Some(va as int),
        va >= 0xA400_0000 ==> super::static_map(va) is None,
{
}

/// The byte of memory, SDRAM or flash, at a physical address.
pub open spec fn memory_at(b: BoardState, p: int) -> u8 {
    if 0xA000_0000 <= p < 0xA400_0000 {
        b.sdram[p - 0xA000_0000]
    } else {
        b.flash.data[p]
    }
}

/// Record `i` of an image covers a physical address.
pub open spec fn reaches(image: CeImage, i: int, p: int) -> bool {
    let r = image.records[i];
    super::static_map(r.addr) is Some && super::static_map(r.addr)->0 <= p < super::static_map(
        r.addr,
    )->0 + r.data@.len()
}

/// Every record of an image that was loaded lies in memory at the physical
/// address that the static map gives it, byte for byte; where two of them
/// overlap the later one wins. What no record covers is as it was.
pub proof fn law_an_image_lies_where_it_is_linked(
    b: BoardState,
    image: CeImage,
    n: int,
    i: int,
    p: int,
)
    requires
        b.wf(),
        0 <= n <= image.records@.len(),
        forall|j: int| 0 <= j < n ==> #[trigger] BoardState::record_error(image, j) is None,
        0 <= p < 0x400_0000 || 0xA000_0000 <= p < 0xA400_0000,
        forall|j: int| i < j < n ==> !#[trigger] reaches(image, j, p),
        -1 <= i < n,
        i >= 0 ==> reaches(image, i, p),
    ensures
        b.with_records(image, n).wf(),
        i >= 0 ==> memory_at(b.with_records(image, n), p) == image.records[i].data@[p
            - super::static_map(image.records[i].addr)->0],
        i == -1 ==> memory_at(b.with_records(image, n), p) == memory_at(b, p),
    decreases n,
{
    if n > 0 {
        let last = n - 1;
        let r = image.records[last];
        assert(BoardState::record_error(image, last) is None);
        let m = b.with_records(image, last);
        if i == last {
            lemma_loaded(b, image, last);
        } else {
            assert(!reaches(image, last, p));
            law_an_image_lies_where_it_is_linked(b, image, last, i, p);
        }
        let pa = super::static_map(r.addr)->0;
        assert(0 <= pa < 0x400_0000 || 0xA000_0000 <= pa < 0xA400_0000);
    }
}

proof fn lemma_loaded(b: BoardState, image: CeImage, n: int)
    requires
        b.wf(),
        0 <= n <= image.records@.len(),
    ensures
        b.with_records(image, n).wf(),
    decreases n,
{
    if n > 0 {
        lemma_loaded(b, image, n - 1);
    }
}

/// Time passes for every clock on the board at once: the timer, the clock of
/// the day and the codec all see the cycles of a tick, and so does the count
/// of them, while the memories stay as they are.
pub proof fn law_a_tick_reaches_every_clock(b: BoardState, cycles: u32)
    requires
        b.dma_idle(),
    ensures
        ({
            let t = b.ticked(cycles);
            &&& t.soc.ost == b.soc.ost.ticked(cycles)
            &&& t.soc.rtc == b.soc.rtc.ticked(cycles)
            &&& t.soc.ac97 == b.soc.ac97.ticked(cycles, b.soc.cpu_hz)
            &&& b.elapsed + cycles <= u64::MAX ==> t.elapsed == b.elapsed + cycles
            &&& t.sdram == b.sdram
            &&& t.flash == b.flash
            &&& t.cpld == b.cpld
            &&& b.power_divider + cycles <= u32::MAX ==> t.power_divider == if b.power_divider
                + cycles > 100_000 {
                0
            } else {
                b.power_divider + cycles
            }
        }),
{
    reveal(BoardState::clocked);
    reveal(BoardState::power_refreshed);
    super::dma::law_idle_engine_is_safe(b.clocked(cycles), cycles as nat);
}

/// An image is taken exactly if every record of it is linked to an address that
/// the static map gives a place in memory, and ends within that memory.
pub proof fn law_an_image_has_to_fit(image: CeImage, i: int)
    requires
        0 <= i < image.records@.len(),
    ensures
        ({
            let r = image.records[i];
            let pa = super::static_map(r.addr);
            &&& BoardState::record_error(image, i) is None <==> pa is Some && ({
                ||| pa->0 < 0x400_0000 && pa->0 + r.data@.len() <= 0x400_0000
                ||| 0xA000_0000 <= pa->0 < 0xA400_0000 && pa->0 + r.data@.len() <= 0xA400_0000
            })
            &&& pa is None ==> BoardState::record_error(image, i) == Some(
                super::LoadError::RecordOutsideMap { addr: r.addr },
            )
        }),
{
}

/// Every record of a bootloader lies in the flash as far from its start as it is
/// linked behind the base of the image, byte for byte; where two of them overlap
/// the later one wins. What no record covers is as it was, and so is the rest of
/// the board.
pub proof fn law_a_bootloader_lies_from_the_start_of_the_flash(
    b: BoardState,
    image: CeImage,
    n: int,
    i: int,
    p: int,
)
    requires
        0 <= n <= image.records@.len(),
        forall|j: int| 0 <= j < n ==> image.base <= (#[trigger] image.records[j]).addr,
        0 <= p < b.flash.data.len(),
        forall|j: int|
            i < j < n ==> !((#[trigger] image.records[j]).addr - image.base <= p
                < image.records[j].addr - image.base + image.records[j].data@.len()),
        -1 <= i < n,
        i >= 0 ==> image.records[i].addr - image.base <= p < image.records[i].addr - image.base
            + image.records[i].data@.len(),
    ensures
        ({
            let after = b.with_flash_records(image, n);
            &&& after.flash.data.len() == b.flash.data.len()
            &&& i >= 0 ==> after.flash.data[p] == image.records[i].data@[p - (image.records[i].addr
                - image.base)]
            &&& i == -1 ==> after.flash.data[p] == b.flash.data[p]
            &&& after.sdram == b.sdram
            &&& after.soc == b.soc
        }),
    decreases n,
{
    if n > 0 {
        let last = n - 1;
        assert(image.base <= image.records[last].addr);
        assert(BoardState::flash_offset(image, last) == image.records[last].addr - image.base);
        if i < last {
            law_a_bootloader_lies_from_the_start_of_the_flash(b, image, last, i, p);
        } else {
            lemma_flash_records(b, image, last);
        }
    }
}

proof fn lemma_flash_records(b: BoardState, image: CeImage, n: int)
    ensures
        ({
            let after = b.with_flash_records(image, n);
            &&& after.flash.data.len() == b.flash.data.len()
            &&& after.sdram == b.sdram
            &&& after.soc == b.soc
        }),
    decreases n,
{
    if n > 0 {
        lemma_flash_records(b, image, n - 1);
    }
}

} // verus!
