//! Building a NOR flash image the way a factory-provisioned machine has it.
//!
//! A real BrailleNote's flash is not just `NK.bin` dropped at an offset. The
//! bootloader occupies the first 256 KB, a twelve-byte HumanWare image header
//! sits immediately after it, and the Windows CE image follows. EBOOT reads
//! that header before it will boot anything:
//!
//! ```text
//!   0x000000  EBOOT, stored at image-base-relative offsets. Flash offset 0
//!             is EBOOT.bin's base address, and holds the reset branch.
//!   0x040000  Image header: { u32 id = 0x45464748, u32 start, u32 length }
//!   0x041000  NK.bin, at the offset its link address implies: it is based at
//!             0x80041000 and nCS0 maps to 0x80000000.
//! ```
//!
//! The header offset and magic come from EBOOT itself: the constructor at
//! `0x96c7cf7c` passes `0x40000`, and the validator at `0x96c858f0` reads
//! twelve bytes there and compares the first word against `0x45464748`.

use super::image::CeImage;
use crate::bytes::{filled, get32, put_all};
use vstd::prelude::*;
use vstd::string::*;

verus! {

/// Signature EBOOT requires in the image header.
pub const IMAGE_MAGIC: u32 = 0x4546_4748;

/// Flash offset of the image header.
pub const HEADER_OFFSET: usize = 0x0004_0000;

/// Flash offset the Windows CE image starts at.
pub const KERNEL_OFFSET: usize = 0x0004_1000;

/// Virtual address nCS0 is mapped to by the OEMAddressTable.
pub const FLASH_VA_BASE: u32 = 0x8000_0000;

#[derive(Debug, Clone, Copy, PartialEq, Eq, Structural)]
pub struct ImageHeader {
    pub id: u32,
    pub start: u32,
    pub length: u32,
}

impl ImageHeader {
    /// The twelve bytes that stand in the flash: three little-endian words.
    pub open spec fn encoded(self) -> Seq<u8> {
        crate::bytes::le32(self.id) + crate::bytes::le32(self.start) + crate::bytes::le32(
            self.length,
        )
    }

    /// The header that the first twelve bytes hold.
    pub open spec fn decoded(b: Seq<u8>) -> ImageHeader {
        ImageHeader {
            id: crate::bytes::word32(b, 0),
            start: crate::bytes::word32(b, 4),
            length: crate::bytes::word32(b, 8),
        }
    }

    /// What a flash with no kernel has where the header would be.
    pub open spec fn erased() -> ImageHeader {
        ImageHeader { id: 0xFFFF_FFFF, start: 0xFFFF_FFFF, length: 0xFFFF_FFFF }
    }

    pub fn to_bytes(self) -> (r: [u8; 12])
        ensures
            r@ =~= self.encoded(),
    {
        let i: [u8; 4] = crate::bytes::split32(self.id);
        let s: [u8; 4] = crate::bytes::split32(self.start);
        let l: [u8; 4] = crate::bytes::split32(self.length);
        [i[0], i[1], i[2], i[3], s[0], s[1], s[2], s[3], l[0], l[1], l[2], l[3]]
    }

    pub fn from_bytes(b: &[u8]) -> (r: Option<ImageHeader>)
        ensures
            r == (if b@.len() < 12 {
                None
            } else {
                Some(ImageHeader::decoded(b@))
            }),
    {
        if b.len() < 12 {
            return None;
        }
        Some(ImageHeader { id: get32(b, 0), start: get32(b, 4), length: get32(b, 8) })
    }

    pub fn is_valid(&self) -> (r: bool)
        ensures
            r == (self.id == IMAGE_MAGIC),
    {
        self.id == IMAGE_MAGIC
    }
}

/// How the kernel's Start field should be expressed.
///
/// EBOOT prints the value but the code path that consumes it runs through a
/// boot-device vtable, so which convention it wants is not yet proven from
/// static analysis. Both are one line apart, so the choice is exposed.
#[derive(Debug, Clone, Copy, PartialEq, Eq, Structural)]
pub enum StartConvention {
    /// Offset within the flash device, matching how the header itself is
    /// addressed (`Read(0x40000, ...)`).
    FlashOffset,
    /// Kernel virtual address, matching NK.bin's own link base.
    VirtualAddress,
}

pub struct Provisioned {
    pub image: Vec<u8>,
    pub header: ImageHeader,
    pub eboot_bytes: usize,
    pub kernel_bytes: usize,
}

impl Provisioned {
    /// The image in one line. Never its bytes: there are 64 MB of them.
    pub open spec fn text(self) -> Seq<char> {
        "Provisioned { image_len: "@ + crate::text::decimal(self.image@.len())
            + ", header: ImageHeader { id: "@ + crate::text::decimal(self.header.id as nat)
            + ", start: "@ + crate::text::decimal(self.header.start as nat) + ", length: "@
            + crate::text::decimal(self.header.length as nat) + " }, eboot_bytes: "@
            + crate::text::decimal(self.eboot_bytes as nat) + ", kernel_bytes: "@
            + crate::text::decimal(self.kernel_bytes as nat) + " }"@
    }

    pub fn describe(&self) -> (r: String)
        ensures
            r@ == self.text(),
    {
        let mut s = String::new();
        s.append("Provisioned { image_len: ");
        crate::text::push_decimal(&mut s, self.image.len() as u64);
        s.append(", header: ImageHeader { id: ");
        crate::text::push_decimal(&mut s, self.header.id as u64);
        s.append(", start: ");
        crate::text::push_decimal(&mut s, self.header.start as u64);
        s.append(", length: ");
        crate::text::push_decimal(&mut s, self.header.length as u64);
        s.append(" }, eboot_bytes: ");
        crate::text::push_decimal(&mut s, self.eboot_bytes as u64);
        s.append(", kernel_bytes: ");
        crate::text::push_decimal(&mut s, self.kernel_bytes as u64);
        s.append(" }");
        assert(s@ =~= self.text());
        s
    }
}

/// Why a flash image could not be laid out.
#[derive(Debug, Clone, Copy, PartialEq, Eq, Structural)]
pub enum ProvisionError {
    /// A bootloader record reaches the image header.
    BootloaderTooLong { addr: u32, end: u64 },
    NoKernelRecords,
    /// The kernel is linked below the flash window.
    BelowWindow { addr: u32 },
    /// A kernel record runs past the end of the device.
    PastEnd { addr: u32, size: usize },
    /// A kernel record lies where the bootloader and the header do.
    BelowKernel { addr: u32, offset: u32 },
}

impl ProvisionError {
    pub open spec fn text(self) -> Seq<char> {
        match self {
            ProvisionError::BootloaderTooLong { addr, end } => "bootloader record at "@
                + crate::text::address(addr) + " reaches flash offset "@ + crate::text::short_hex(
                end as nat,
            ) + ", which would overwrite the image header at 0x40000"@,
            ProvisionError::NoKernelRecords => "the kernel image has no records"@,
            ProvisionError::BelowWindow { addr } => "kernel record at "@ + crate::text::address(
                addr,
            ) + " is below the flash window"@,
            ProvisionError::PastEnd { addr, size } => "kernel record at "@ + crate::text::address(
                addr,
            ) + " runs past the end of a "@ + crate::text::decimal((size / 0x10_0000) as nat)
                + " MB device"@,
            ProvisionError::BelowKernel { addr, offset } => "kernel record at "@
                + crate::text::address(addr) + " maps to flash offset "@ + crate::text::short_hex(
                offset as nat,
            ) + ", below the expected start of 0x41000"@,
        }
    }

    pub fn message(&self) -> (r: String)
        ensures
            r@ == self.text(),
    {
        let mut s = String::new();
        match *self {
            ProvisionError::BootloaderTooLong { addr, end } => {
                s.append("bootloader record at ");
                crate::text::push_address(&mut s, addr);
                s.append(" reaches flash offset ");
                crate::text::push_short_hex(&mut s, end);
                s.append(", which would overwrite the image header at 0x40000");
            },
            ProvisionError::NoKernelRecords => {
                s.append("the kernel image has no records");
            },
            ProvisionError::BelowWindow { addr } => {
                s.append("kernel record at ");
                crate::text::push_address(&mut s, addr);
                s.append(" is below the flash window");
            },
            ProvisionError::PastEnd { addr, size } => {
                s.append("kernel record at ");
                crate::text::push_address(&mut s, addr);
                s.append(" runs past the end of a ");
                crate::text::push_decimal(&mut s, (size / 0x10_0000) as u64);
                s.append(" MB device");
            },
            ProvisionError::BelowKernel { addr, offset } => {
                s.append("kernel record at ");
                crate::text::push_address(&mut s, addr);
                s.append(" maps to flash offset ");
                crate::text::push_short_hex(&mut s, offset as u64);
                s.append(", below the expected start of 0x41000");
            },
        }
        assert(s@ =~= self.text());
        s
    }
}

/// Where record `i` of an image goes, with `origin` at flash offset zero.
pub open spec fn offset_in(image: CeImage, origin: u32, i: int) -> u32 {
    image.records[i].addr.wrapping_sub(origin)
}

/// Where record `i` ends in the flash.
pub open spec fn end_in(image: CeImage, origin: u32, i: int) -> int {
    offset_in(image, origin, i) + image.records[i].data@.len()
}

/// The flash with the first `n` records of an image laid over it.
pub open spec fn laid_out(flash: Seq<u8>, image: CeImage, origin: u32, n: int) -> Seq<u8>
    decreases n,
{
    if n <= 0 {
        flash
    } else {
        crate::bytes::overlaid(
            laid_out(flash, image, origin, n - 1),
            offset_in(image, origin, n - 1) as int,
            image.records[n - 1].data@,
        )
    }
}

/// Nothing of the first `n` bootloader records reaches the header.
pub open spec fn bootloader_fits(eboot: CeImage, n: int) -> bool {
    forall|i: int| 0 <= i < n ==> #[trigger] end_in(eboot, eboot.base, i) <= HEADER_OFFSET
}

/// What is wrong with kernel record `i` on a device of `size` bytes.
pub open spec fn kernel_error(kernel: CeImage, size: usize, i: int) -> Option<ProvisionError> {
    let addr = kernel.records[i].addr;
    if end_in(kernel, FLASH_VA_BASE, i) > size {
        Some(ProvisionError::PastEnd { addr, size })
    } else if offset_in(kernel, FLASH_VA_BASE, i) < KERNEL_OFFSET {
        Some(
            ProvisionError::BelowKernel { addr, offset: offset_in(kernel, FLASH_VA_BASE, i) },
        )
    } else {
        None
    }
}

pub open spec fn kernel_fits(kernel: CeImage, size: usize, n: int) -> bool {
    forall|i: int| 0 <= i < n ==> #[trigger] kernel_error(kernel, size, i) is None
}

/// The header that describes a kernel.
pub open spec fn header_for(kernel: CeImage, convention: StartConvention) -> ImageHeader {
    let n = kernel.records@.len() as int;
    ImageHeader {
        id: IMAGE_MAGIC,
        start: match convention {
            StartConvention::FlashOffset => (kernel.lowest(n) - FLASH_VA_BASE) as u32,
            StartConvention::VirtualAddress => kernel.lowest(n) as u32,
        },
        length: (kernel.highest(n) - kernel.lowest(n)) as u32,
    }
}

/// An erased device with the bootloader in place.
pub open spec fn with_bootloader(size: usize, eboot: CeImage) -> Seq<u8> {
    laid_out(
        Seq::new(size as nat, |i: int| 0xFFu8),
        eboot,
        eboot.base,
        eboot.records@.len() as int,
    )
}

/// What [`build_flash_image`] makes of its two files.
pub open spec fn image_with(
    size: usize,
    eboot: CeImage,
    kernel: CeImage,
    convention: StartConvention,
) -> Seq<u8> {
    crate::bytes::overlaid(
        laid_out(
            with_bootloader(size, eboot),
            kernel,
            FLASH_VA_BASE,
            kernel.records@.len() as int,
        ),
        HEADER_OFFSET as int,
        header_for(kernel, convention).encoded(),
    )
}

/// The first error in laying out the kernel, if there is one.
pub open spec fn is_kernel_failure(kernel: CeImage, size: usize, e: ProvisionError) -> bool {
    let n = kernel.records@.len() as int;
    if n == 0 {
        e == ProvisionError::NoKernelRecords
    } else if kernel.lowest(n) < FLASH_VA_BASE {
        e == (ProvisionError::BelowWindow { addr: kernel.lowest(n) as u32 })
    } else {
        exists|i: int|
            0 <= i < n && #[trigger] kernel_error(kernel, size, i) == Some(e) && kernel_fits(
                kernel,
                size,
                i,
            )
    }
}

pub open spec fn is_bootloader_failure(eboot: CeImage, e: ProvisionError) -> bool {
    exists|i: int|
        {
            &&& 0 <= i < eboot.records@.len()
            &&& #[trigger] end_in(eboot, eboot.base, i) > HEADER_OFFSET
            &&& bootloader_fits(eboot, i)
            &&& e == (ProvisionError::BootloaderTooLong {
                addr: eboot.records[i].addr,
                end: end_in(eboot, eboot.base, i) as u64,
            })
        }
}

/// Why the two files do not make a flash image: the bootloader is looked at
/// first.
pub open spec fn is_failure(
    eboot: CeImage,
    kernel: Option<&CeImage>,
    size: usize,
    e: ProvisionError,
) -> bool {
    ||| is_bootloader_failure(eboot, e)
    ||| {
        &&& bootloader_fits(eboot, eboot.records@.len() as int)
        &&& kernel is Some
        &&& is_kernel_failure(*kernel->0, size, e)
    }
}

pub proof fn lemma_laid_out_len(flash: Seq<u8>, image: CeImage, origin: u32, n: int)
    ensures
        laid_out(flash, image, origin, n).len() == flash.len(),
    decreases n,
{
    if n > 0 {
        lemma_laid_out_len(flash, image, origin, n - 1);
    }
}

/// Every record starts at or above the lowest and ends at or below the highest.
proof fn lemma_extent_covers(image: CeImage, n: int, i: int)
    requires
        0 <= i < n <= image.records@.len(),
    ensures
        image.lowest(n) <= image.records[i].addr,
        image.records[i].addr + image.records[i].data@.len() <= image.highest(n),
    decreases n,
{
    if i < n - 1 {
        lemma_extent_covers(image, n - 1, i);
    }
}

/// The highest end is the end of some record.
proof fn lemma_highest_is_some_end(image: CeImage, n: int) -> (i: int)
    requires
        0 < n <= image.records@.len(),
    ensures
        0 <= i < n,
        image.highest(n) == image.records[i].addr + image.records[i].data@.len(),
    decreases n,
{
    let end = image.records[n - 1].addr + image.records[n - 1].data@.len();
    if n == 1 || end > image.highest(n - 1) {
        n - 1
    } else {
        lemma_highest_is_some_end(image, n - 1)
    }
}

/// Lay the records of the bootloader over an erased device.
fn place_bootloader(image: &mut Vec<u8>, eboot: &CeImage) -> (r: Result<usize, ProvisionError>)
    requires
        eboot.sized(),
        forall|i: int|
            0 <= i < eboot.records@.len() && #[trigger] end_in(*eboot, eboot.base, i)
                <= HEADER_OFFSET ==> end_in(*eboot, eboot.base, i) <= old(image)@.len(),
    ensures
        final(image)@.len() == old(image)@.len(),
        match r {
            Ok(n) => {
                &&& bootloader_fits(*eboot, eboot.records@.len() as int)
                &&& n == eboot.total(eboot.records@.len() as int)
                &&& final(image)@ == laid_out(
                    old(image)@,
                    *eboot,
                    eboot.base,
                    eboot.records@.len() as int,
                )
            },
            Err(e) => is_bootloader_failure(*eboot, e),
        },
{
    let mut done: usize = 0;
    let mut i: usize = 0;
    while i < eboot.records.len()
        invariant
            i <= eboot.records.len(),
            eboot.sized(),
            image@ == laid_out(old(image)@, *eboot, eboot.base, i as int),
            image@.len() == old(image)@.len(),
            bootloader_fits(*eboot, i as int),
            done == eboot.total(i as int),
            forall|j: int|
                0 <= j < eboot.records@.len() && #[trigger] end_in(*eboot, eboot.base, j)
                    <= HEADER_OFFSET ==> end_in(*eboot, eboot.base, j) <= old(image)@.len(),
        decreases eboot.records.len() - i,
    {
        let addr: u32 = eboot.records[i].addr;
        let off: u32 = addr.wrapping_sub(eboot.base);
        let len: usize = eboot.records[i].data.len();
        let end: u64 = off as u64 + len as u64;
        assert(end == end_in(*eboot, eboot.base, i as int));
        if end > HEADER_OFFSET as u64 {
            return Err(ProvisionError::BootloaderTooLong { addr, end });
        }
        put_all(image, off as usize, eboot.records[i].data.as_slice());
        proof {
            eboot.lemma_total(i as int + 1, eboot.records@.len() as int);
        }
        done = done + len;
        i = i + 1;
    }
    Ok(done)
}

/// Lay the records of the kernel over a device with a bootloader on it.
fn place_kernel(image: &mut Vec<u8>, kernel: &CeImage, size: usize) -> (r: Result<
    usize,
    ProvisionError,
>)
    requires
        kernel.sized(),
        old(image)@.len() == size,
        forall|i: int|
            0 <= i < kernel.records@.len() ==> #[trigger] kernel.records[i].addr >= FLASH_VA_BASE,
    ensures
        final(image)@.len() == size,
        match r {
            Ok(n) => {
                &&& kernel_fits(*kernel, size, kernel.records@.len() as int)
                &&& n == kernel.total(kernel.records@.len() as int)
                &&& final(image)@ == laid_out(
                    old(image)@,
                    *kernel,
                    FLASH_VA_BASE,
                    kernel.records@.len() as int,
                )
            },
            Err(e) => exists|i: int|
                0 <= i < kernel.records@.len() && #[trigger] kernel_error(*kernel, size, i)
                    == Some(e) && kernel_fits(*kernel, size, i),
        },
{
    let mut done: usize = 0;
    let mut i: usize = 0;
    while i < kernel.records.len()
        invariant
            i <= kernel.records.len(),
            kernel.sized(),
            image@ == laid_out(old(image)@, *kernel, FLASH_VA_BASE, i as int),
            image@.len() == size,
            kernel_fits(*kernel, size, i as int),
            done == kernel.total(i as int),
            forall|j: int|
                0 <= j < kernel.records@.len() ==> #[trigger] kernel.records[j].addr
                    >= FLASH_VA_BASE,
        decreases kernel.records.len() - i,
    {
        let addr: u32 = kernel.records[i].addr;
        let off: u32 = addr - FLASH_VA_BASE;
        let len: usize = kernel.records[i].data.len();
        assert(off == offset_in(*kernel, FLASH_VA_BASE, i as int));
        if off as u64 + len as u64 > size as u64 {
            assert(kernel_error(*kernel, size, i as int) is Some);
            return Err(ProvisionError::PastEnd { addr, size });
        }
        if (off as usize) < KERNEL_OFFSET {
            assert(kernel_error(*kernel, size, i as int) is Some);
            return Err(ProvisionError::BelowKernel { addr, offset: off });
        }
        put_all(image, off as usize, kernel.records[i].data.as_slice());
        proof {
            kernel.lemma_total(i as int + 1, kernel.records@.len() as int);
        }
        done = done + len;
        i = i + 1;
    }
    Ok(done)
}

/// Lay out a complete flash image from the two firmware files.
///
/// EBOOT is stored relative to its own base, so flash offset 0 is the reset
/// branch: its self-copy loop reads from physical 0 and depends on this. The
/// kernel goes at the flash offset its link address implies.
pub fn build_flash_image(
    size: usize,
    eboot: &CeImage,
    kernel: Option<&CeImage>,
    convention: StartConvention,
) -> (r: Result<Provisioned, String>)
    requires
        eboot.sized(),
        kernel is Some ==> kernel->0.sized(),
        // A kernel ends where a 32-bit address can say; on a device of up to
        // 2 GB one that does not is refused.
        kernel is Some ==> size <= 0x8000_0000 || kernel->0.highest(
            kernel->0.records@.len() as int,
        ) <= u32::MAX,
        forall|i: int|
            0 <= i < eboot.records@.len() && #[trigger] end_in(*eboot, eboot.base, i)
                <= HEADER_OFFSET ==> end_in(*eboot, eboot.base, i) <= size,
    ensures
        match r {
            Ok(p) => {
                &&& bootloader_fits(*eboot, eboot.records@.len() as int)
                &&& p.eboot_bytes == eboot.total(eboot.records@.len() as int)
                &&& match kernel {
                    None => {
                        &&& p.image@ == with_bootloader(size, *eboot)
                        &&& p.header == ImageHeader::erased()
                        &&& p.kernel_bytes == 0
                    },
                    Some(k) => {
                        &&& k.records@.len() > 0
                        &&& k.lowest(k.records@.len() as int) >= FLASH_VA_BASE
                        &&& kernel_fits(*k, size, k.records@.len() as int)
                        &&& p.image@ == image_with(size, *eboot, *k, convention)
                        &&& p.header == header_for(*k, convention)
                        &&& p.kernel_bytes == k.total(k.records@.len() as int)
                    },
                }
            },
            Err(s) => exists|e: ProvisionError| #[trigger]
                is_failure(*eboot, kernel, size, e) && s@ == e.text(),
        },
{
    let mut image: Vec<u8> = filled(size, 0xFF);
    let eboot_bytes: usize = match place_bootloader(&mut image, eboot) {
        Ok(n) => n,
        Err(e) => {
            assert(is_failure(*eboot, kernel, size, e));
            return Err(e.message());
        },
    };
    assert(image@ == with_bootloader(size, *eboot));

    let kernel: &CeImage = match kernel {
        Some(k) => k,
        None => {
            return Ok(
                Provisioned {
                    image,
                    header: ImageHeader {
                        id: 0xFFFF_FFFF,
                        start: 0xFFFF_FFFF,
                        length: 0xFFFF_FFFF,
                    },
                    eboot_bytes,
                    kernel_bytes: 0,
                },
            );
        },
    };

    let (lo, hi): (u64, u64) = match kernel.extent() {
        Some((lo, hi)) => (lo, hi),
        None => {
            let e = ProvisionError::NoKernelRecords;
            assert(is_failure(*eboot, Some(kernel), size, e));
            return Err(e.message());
        },
    };
    let ghost n = kernel.records@.len() as int;
    proof {
        assert forall|i: int| 0 <= i < n implies lo <= #[trigger] kernel.records[i].addr by {
            lemma_extent_covers(*kernel, n, i);
        }
        lemma_extent_covers(*kernel, n, 0);
    }
    if lo < FLASH_VA_BASE as u64 {
        let e = ProvisionError::BelowWindow { addr: lo as u32 };
        assert(is_failure(*eboot, Some(kernel), size, e));
        return Err(e.message());
    }
    let kernel_bytes: usize = match place_kernel(&mut image, kernel, size) {
        Ok(n) => n,
        Err(e) => {
            assert(is_failure(*eboot, Some(kernel), size, e));
            return Err(e.message());
        },
    };
    proof {
        let last = lemma_highest_is_some_end(*kernel, n);
        assert(kernel_error(*kernel, size, last) is None);
        assert(kernel_error(*kernel, size, 0) is None);
    }
    let start: u32 = match convention {
        StartConvention::FlashOffset => (lo - FLASH_VA_BASE as u64) as u32,
        StartConvention::VirtualAddress => lo as u32,
    };
    let header = ImageHeader { id: IMAGE_MAGIC, start, length: (hi - lo) as u32 };
    assert(header == header_for(*kernel, convention));
    let encoded: [u8; 12] = header.to_bytes();
    put_all(&mut image, HEADER_OFFSET, encoded.as_slice());
    assert(encoded@ == header.encoded());

    Ok(Provisioned { image, header, eboot_bytes, kernel_bytes })
}

/// A header read back from the bytes it was written as is the same header.
pub proof fn law_header_round_trip(h: ImageHeader)
    ensures
        h.encoded().len() == 12,
        ImageHeader::decoded(h.encoded()) == h,
{
    crate::bytes::lemma_word32_round_trip(h.id);
    crate::bytes::lemma_word32_round_trip(h.start);
    crate::bytes::lemma_word32_round_trip(h.length);
}

/// A provisioned device holds a valid header for its kernel where EBOOT looks
/// for it.
pub proof fn law_header_in_place(
    size: usize,
    eboot: CeImage,
    kernel: CeImage,
    convention: StartConvention,
)
    requires
        HEADER_OFFSET + 12 <= size,
    ensures
        ImageHeader::decoded(
            image_with(size, eboot, kernel, convention).subrange(
                HEADER_OFFSET as int,
                HEADER_OFFSET + 12,
            ),
        ) == header_for(kernel, convention),
        header_for(kernel, convention).id == IMAGE_MAGIC,
{
    let h = header_for(kernel, convention);
    law_header_round_trip(h);
    lemma_laid_out_len(
        Seq::new(size as nat, |i: int| 0xFFu8),
        eboot,
        eboot.base,
        eboot.records@.len() as int,
    );
    lemma_laid_out_len(
        with_bootloader(size, eboot),
        kernel,
        FLASH_VA_BASE,
        kernel.records@.len() as int,
    );
    assert(image_with(size, eboot, kernel, convention).subrange(
        HEADER_OFFSET as int,
        HEADER_OFFSET + 12,
    ) =~= h.encoded());
}

/// Record `i` of an image covers place `p` of the flash.
pub open spec fn covers(image: CeImage, origin: u32, i: int, p: int) -> bool {
    offset_in(image, origin, i) <= p < end_in(image, origin, i)
}

/// What lies at a place of the flash once records are laid over it: what the
/// last record that covers the place has there, or what was there before.
proof fn lemma_laid(flash: Seq<u8>, image: CeImage, origin: u32, n: int, p: int, i: int)
    requires
        0 <= n <= image.records@.len(),
        0 <= p < flash.len(),
        forall|j: int| i < j < n ==> !#[trigger] covers(image, origin, j, p),
        i < n,
        i >= 0 ==> covers(image, origin, i, p),
    ensures
        laid_out(flash, image, origin, n).len() == flash.len(),
        i >= 0 ==> laid_out(flash, image, origin, n)[p] == image.records[i].data@[p - offset_in(
            image,
            origin,
            i,
        )],
        i < 0 ==> laid_out(flash, image, origin, n)[p] == flash[p],
    decreases n,
{
    if n > 0 {
        if i == n - 1 {
            lemma_laid_out_len(flash, image, origin, n - 1);
        } else {
            assert(!covers(image, origin, n - 1, p));
            lemma_laid(flash, image, origin, n - 1, p, i);
        }
    }
}

/// A provisioned device holds both images, each byte of a record at the place
/// it is linked to: a kernel record at its address less the address that the
/// flash is mapped to, and a bootloader record, all of it below the header, at
/// its address less the bootloader's base. Where records of one image overlap
/// the later one wins. What no record and no header covers is left erased.
pub proof fn law_a_provisioned_device_holds_both_images(
    size: usize,
    eboot: CeImage,
    kernel: CeImage,
    convention: StartConvention,
    i: int,
    p: int,
)
    requires
        HEADER_OFFSET + 12 <= size,
        bootloader_fits(eboot, eboot.records@.len() as int),
        kernel_fits(kernel, size, kernel.records@.len() as int),
        0 <= p < size,
    ensures
        ({
            let flash = image_with(size, eboot, kernel, convention);
            let k = kernel.records@.len() as int;
            let e = eboot.records@.len() as int;
            &&& flash.len() == size
            &&& 0 <= i < k && kernel.records[i].addr >= 0x8000_0000 && kernel.records[i].addr
                - 0x8000_0000 <= p < kernel.records[i].addr - 0x8000_0000
                + kernel.records[i].data@.len() && (forall|j: int|
                i < j < k ==> !#[trigger] covers(kernel, FLASH_VA_BASE, j, p)) ==> flash[p]
                == kernel.records[i].data@[p - (kernel.records[i].addr - 0x8000_0000)]
            &&& 0 <= i < e && eboot.records[i].addr >= eboot.base && eboot.records[i].addr
                - eboot.base <= p < eboot.records[i].addr - eboot.base
                + eboot.records[i].data@.len() && (forall|j: int|
                i < j < e ==> !#[trigger] covers(eboot, eboot.base, j, p)) ==> flash[p]
                == eboot.records[i].data@[p - (eboot.records[i].addr - eboot.base)]
            &&& !(0x4_0000 <= p < 0x4_000C) && (forall|j: int|
                0 <= j < k ==> !#[trigger] covers(kernel, FLASH_VA_BASE, j, p)) && (forall|j: int|
                0 <= j < e ==> !#[trigger] covers(eboot, eboot.base, j, p)) ==> flash[p] == 0xFF
        }),
{
    let k = kernel.records@.len() as int;
    let e = eboot.records@.len() as int;
    let blank = Seq::new(size as nat, |i: int| 0xFFu8);
    let booted = with_bootloader(size, eboot);
    let both = laid_out(booted, kernel, FLASH_VA_BASE, k);
    let flash = image_with(size, eboot, kernel, convention);
    lemma_laid_out_len(blank, eboot, eboot.base, e);
    lemma_laid_out_len(booted, kernel, FLASH_VA_BASE, k);
    law_header_round_trip(header_for(kernel, convention));
    assert(!(0x4_0000 <= p < 0x4_000C) ==> flash[p] == both[p]);
    assert forall|j: int| 0 <= j < k && #[trigger] covers(kernel, FLASH_VA_BASE, j, p) implies p
        >= 0x4_1000 by {
        assert(kernel_error(kernel, size, j) is None);
    }
    assert forall|j: int| 0 <= j < e && #[trigger] covers(eboot, eboot.base, j, p) implies p
        < 0x4_0000 by {
        assert(end_in(eboot, eboot.base, j) <= HEADER_OFFSET);
    }
    if 0 <= i < k && kernel.records[i].addr >= 0x8000_0000 && kernel.records[i].addr - 0x8000_0000
        <= p < kernel.records[i].addr - 0x8000_0000 + kernel.records[i].data@.len() && (forall|
        j: int,
    |
        i < j < k ==> !#[trigger] covers(kernel, FLASH_VA_BASE, j, p)) {
        assert(covers(kernel, FLASH_VA_BASE, i, p));
        lemma_laid(booted, kernel, FLASH_VA_BASE, k, p, i);
    }
    if 0 <= i < e && eboot.records[i].addr >= eboot.base && eboot.records[i].addr - eboot.base <= p
        < eboot.records[i].addr - eboot.base + eboot.records[i].data@.len() && (forall|j: int|
        i < j < e ==> !#[trigger] covers(eboot, eboot.base, j, p)) {
        assert(covers(eboot, eboot.base, i, p));
        assert forall|j: int| -1 < j < k implies !#[trigger] covers(
            kernel,
            FLASH_VA_BASE,
            j,
            p,
        ) by {}
        lemma_laid(booted, kernel, FLASH_VA_BASE, k, p, -1);
        lemma_laid(blank, eboot, eboot.base, e, p, i);
    }
    if (forall|j: int| 0 <= j < k ==> !#[trigger] covers(kernel, FLASH_VA_BASE, j, p)) && (forall|
        j: int,
    |
        0 <= j < e ==> !#[trigger] covers(eboot, eboot.base, j, p)) {
        assert forall|j: int| -1 < j < k implies !#[trigger] covers(
            kernel,
            FLASH_VA_BASE,
            j,
            p,
        ) by {}
        assert forall|j: int| -1 < j < e implies !#[trigger] covers(eboot, eboot.base, j, p) by {}
        lemma_laid(booted, kernel, FLASH_VA_BASE, k, p, -1);
        lemma_laid(blank, eboot, eboot.base, e, p, -1);
    }
}

/// The header names the stretch of flash that the kernel takes up: every record
/// lies between its start and its end, and one of them at each.
pub proof fn law_the_header_spans_the_kernel(kernel: CeImage, i: int)
    requires
        0 <= i < kernel.records@.len(),
        kernel.lowest(kernel.records@.len() as int) >= 0x8000_0000,
        kernel.highest(kernel.records@.len() as int) <= u32::MAX,
    ensures
        ({
            let o = header_for(kernel, StartConvention::FlashOffset);
            let v = header_for(kernel, StartConvention::VirtualAddress);
            let r = kernel.records[i];
            &&& v.start <= r.addr && r.addr + r.data@.len() <= v.start + v.length
            &&& o.start == v.start - 0x8000_0000
            &&& o.length == v.length
            &&& exists|j: int|
                0 <= j < kernel.records@.len() && (#[trigger] kernel.records[j]).addr == v.start
            &&& exists|j: int|
                0 <= j < kernel.records@.len() && (#[trigger] kernel.records[j]).addr
                    + kernel.records[j].data@.len() == v.start + v.length
        }),
{
    super::image::law_the_extent_is_tight(kernel, kernel.records@.len() as int);
    assert(kernel.records[i].addr >= 0);
}

} // verus!
