use vbnote::gandalf::image::{CeImage, ImageRecord};
use vbnote::gandalf::provision::{HEADER_OFFSET, IMAGE_MAGIC, ImageHeader, KERNEL_OFFSET, StartConvention, build_flash_image};

fn image(base: u32, records: &[(u32, usize)], launch: u32) -> CeImage {
    let mut list = Vec::new();
    for (addr, len) in records {
        list.push(ImageRecord { addr: *addr, data: vec![0xA5u8; *len] });
    }
    CeImage { base, launch, records: list }
}

const SIZE: usize = 64 * 1024 * 1024;

#[test]
fn bootloader_lands_at_flash_offset_zero() {
    let eboot = image(0x96C7_8000, &[(0x96C7_8000, 4), (0x96C7_9000, 0x100)], 0x96C7_9000);
    let p = build_flash_image(SIZE, &eboot, None, StartConvention::FlashOffset).unwrap();
    assert_eq!(&p.image[0..4], &[0xA5; 4], "reset branch at offset 0");
    assert_eq!(&p.image[0x1000..0x1004], &[0xA5; 4]);
    assert_eq!(p.eboot_bytes, 4 + 0x100);
}

#[test]
fn header_is_written_where_eboot_looks_for_it() {
    let eboot = image(0x96C7_8000, &[(0x96C7_8000, 4)], 0x96C7_9000);
    let nk = image(0x8004_1000, &[(0x8004_1000, 0x2000)], 0x8004_1000);
    let p = build_flash_image(SIZE, &eboot, Some(&nk), StartConvention::FlashOffset).unwrap();

    let h = ImageHeader::from_bytes(&p.image[HEADER_OFFSET..HEADER_OFFSET + 12]).unwrap();
    assert!(h.is_valid());
    assert_eq!(h.id, IMAGE_MAGIC);
    assert_eq!(h.start, 0x41000);
    assert_eq!(h.length, 0x2000);
    assert_eq!(h, p.header);
}

#[test]
fn virtual_address_convention_reports_the_link_base() {
    let eboot = image(0x96C7_8000, &[(0x96C7_8000, 4)], 0x96C7_9000);
    let nk = image(0x8004_1000, &[(0x8004_1000, 0x2000)], 0x8004_1000);
    let p = build_flash_image(SIZE, &eboot, Some(&nk), StartConvention::VirtualAddress).unwrap();
    assert_eq!(p.header.start, 0x8004_1000);
}

#[test]
fn kernel_lands_at_the_offset_its_link_address_implies() {
    let eboot = image(0x96C7_8000, &[(0x96C7_8000, 4)], 0x96C7_9000);
    let nk = image(0x8004_1000, &[(0x8004_1000, 8)], 0x8004_1000);
    let p = build_flash_image(SIZE, &eboot, Some(&nk), StartConvention::FlashOffset).unwrap();
    assert_eq!(&p.image[KERNEL_OFFSET..KERNEL_OFFSET + 8], &[0xA5; 8]);
}

#[test]
fn without_a_kernel_the_header_area_stays_erased() {
    let eboot = image(0x96C7_8000, &[(0x96C7_8000, 4)], 0x96C7_9000);
    let p = build_flash_image(SIZE, &eboot, None, StartConvention::FlashOffset).unwrap();
    assert_eq!(&p.image[HEADER_OFFSET..HEADER_OFFSET + 12], &[0xFF; 12]);
    assert!(!p.header.is_valid());
}

#[test]
fn a_bootloader_that_would_clobber_the_header_is_rejected() {
    let eboot = image(0x96C7_8000, &[(0x96C7_8000, HEADER_OFFSET + 16)], 0x96C7_9000);
    let err = build_flash_image(SIZE, &eboot, None, StartConvention::FlashOffset).err().unwrap();
    assert!(err.contains("image header"), "{err}");
}

#[test]
fn a_kernel_below_the_expected_offset_is_rejected() {
    let eboot = image(0x96C7_8000, &[(0x96C7_8000, 4)], 0x96C7_9000);
    let nk = image(0x8000_0000, &[(0x8000_0000, 16)], 0x8000_0000);
    let err =
        build_flash_image(SIZE, &eboot, Some(&nk), StartConvention::FlashOffset).err().unwrap();
    assert!(err.contains("below the expected start"), "{err}");
}

#[test]
fn header_round_trips_through_bytes() {
    let h = ImageHeader { id: IMAGE_MAGIC, start: 0x41000, length: 0x2A86FD0 };
    assert_eq!(ImageHeader::from_bytes(&h.to_bytes()), Some(h));
}
