use vbnote::gandalf::fat32::SECTOR;
use vbnote::gandalf::vhd::{FOOTER_BYTES, footer, geometry};

fn footer_of(megabytes: u64) -> Vec<u8> {
    footer(megabytes * 1024 * 1024)
}

#[test]
fn it_is_recognisably_a_fixed_vhd() {
    let f = footer_of(64);
    assert_eq!(&f[0..8], b"conectix");
    assert_eq!(u32::from_be_bytes(f[60..64].try_into().unwrap()), 2);
    // A fixed disk points nowhere for its header.
    assert_eq!(u64::from_be_bytes(f[16..24].try_into().unwrap()), u64::MAX);
    assert_eq!(f.len() as u64, FOOTER_BYTES);
}

/// Windows rejects a footer whose checksum disagrees, so this is the
/// difference between a disk that mounts and one that does not.
#[test]
fn the_checksum_is_what_the_format_asks_for() {
    let f = footer_of(64);
    let stated = u32::from_be_bytes(f[64..68].try_into().unwrap());
    let mut zeroed = f.clone();
    zeroed[64..68].fill(0);
    let sum: u32 = zeroed.iter().map(|b| *b as u32).sum();
    assert_eq!(stated, !sum);
}

/// The size is recorded twice and both are the disk, not the file. A
/// footer that counted itself would describe a disk 512 bytes too long.
#[test]
fn the_size_is_the_disk_not_the_file() {
    let bytes = 64 * 1024 * 1024;
    let f = footer(bytes);
    assert_eq!(u64::from_be_bytes(f[40..48].try_into().unwrap()), bytes);
    assert_eq!(u64::from_be_bytes(f[48..56].try_into().unwrap()), bytes);
}

/// Every field is big-endian. Reading one back little-endian is the
/// mistake this catches: 64 MB would come out as an absurd number.
#[test]
fn the_footer_is_big_endian_throughout() {
    let f = footer_of(64);
    let wrong = u64::from_le_bytes(f[40..48].try_into().unwrap());
    assert_ne!(wrong, 64 * 1024 * 1024);
}

/// The geometry has to multiply out to no more than the disk, or a tool
/// believes in sectors that are not there.
#[test]
fn the_geometry_fits_inside_the_disk() {
    for mb in [64u64, 512, 2048, 8192, 32 * 1024] {
        let sectors = mb * 1024 * 1024 / SECTOR;
        let (c, h, s) = geometry(sectors);
        let described = c as u64 * h as u64 * s as u64;
        assert!(
            described <= sectors,
            "{mb} MB: geometry describes {described} of {sectors} sectors"
        );
        assert!(c > 0 && h > 0 && s > 0, "{mb} MB gave a zero dimension");
    }
}

/// The largest disk this project will make still has a describable
/// geometry, which is not obvious: the format runs out at 127 GB.
#[test]
fn the_largest_disk_still_has_a_geometry() {
    let sectors = 32u64 * 1024 * 1024 * 1024 / SECTOR;
    let (c, h, s) = geometry(sectors);
    assert!(c > 0 && h == 16 && s > 0);
}
