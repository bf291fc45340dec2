use vbnote::gandalf::image::{CeImage, ImageRecord};
use vbnote::gandalf::licence::{cbc_encrypt, derived_key, md5, pkcs5_pad, rc2_encrypt_block, rc2_expand, Licence};
use vbnote::gandalf::nkp::{hex, parse, parse_number};
use vbnote::gandalf::patch::{apply, builtin, is_well_formed, Failed, Patch, Reach, CONTEXT};
use vbnote::gandalf::provision::{build_flash_image, ImageHeader, StartConvention, HEADER_OFFSET, IMAGE_MAGIC};
use vbnote::gandalf::registry::{find_all_dwords, find_dword, set_all_dwords, AUTO_PART};

fn image(base: u32, records: &[(u32, usize)]) -> CeImage {
    CeImage {
        base,
        launch: base,
        records: records.iter().map(|(addr, len)| ImageRecord { addr: *addr, data: vec![0xA5; *len] }).collect(),
    }
}

fn build(eboot: &CeImage, kernel: Option<&CeImage>) -> Result<(), String> {
    build_flash_image(1 << 20, eboot, kernel, StartConvention::FlashOffset).map(|_| ())
}

#[test]
fn every_provisioning_failure_says_why() {
    let eboot = image(0x96C7_8000, &[(0x96C7_8000, 4)]);
    let long = image(0x96C7_8000, &[(0x96C7_8000, HEADER_OFFSET + 1)]);
    assert_eq!(
        build(&long, None),
        Err("bootloader record at 0x96c78000 reaches flash offset 0x40001, which would overwrite the image header at 0x40000"
            .into())
    );
    assert_eq!(build(&eboot, Some(&image(0, &[]))), Err("the kernel image has no records".into()));
    assert_eq!(
        build(&eboot, Some(&image(0, &[(0x7FFF_0000, 4)]))),
        Err("kernel record at 0x7fff0000 is below the flash window".into())
    );
    assert_eq!(
        build(&eboot, Some(&image(0, &[(0x800F_FFFF, 2)]))),
        Err("kernel record at 0x800fffff runs past the end of a 1 MB device".into())
    );
    assert_eq!(
        build(&eboot, Some(&image(0, &[(0x8004_0FFF, 2)]))),
        Err("kernel record at 0x80040fff maps to flash offset 0x40fff, below the expected start of 0x41000".into())
    );
}

#[test]
fn a_header_covers_the_whole_kernel() {
    let eboot = image(0x96C7_8000, &[(0x96C7_8000, 4)]);
    let kernel = image(0x8004_1000, &[(0x8004_2000, 16), (0x8004_1000, 8)]);
    assert_eq!(kernel.extent(), Some((0x8004_1000, 0x8004_2010)));
    let p = build_flash_image(1 << 20, &eboot, Some(&kernel), StartConvention::FlashOffset).unwrap_or_else(|e| panic!("{e}"));
    assert_eq!(p.header, ImageHeader { id: IMAGE_MAGIC, start: 0x41000, length: 0x1010 });
    assert_eq!((p.eboot_bytes, p.kernel_bytes), (4, 24));
    assert_eq!(ImageHeader::from_bytes(&p.image[HEADER_OFFSET..]), Some(p.header));
    assert_eq!(ImageHeader::from_bytes(&[0; 11]), None);
}

fn complaint(text: &str) -> String {
    parse(text, "f").unwrap_err()
}

#[test]
fn every_mistake_in_a_patch_file_is_named() {
    assert_eq!(complaint(""), "f: no name");
    assert_eq!(complaint("name: n\n"), "f: no because");
    assert_eq!(complaint("01 02\n"), "f: line 1: bytes outside a signature or replacement block");
    assert_eq!(complaint("at: many\n"), "f: line 1: at needs a number");
    assert_eq!(complaint("\n\nReach: SOME \"way\"\n"), "f: line 3: \"some \\\"way\\\"\" is not sole or every");
    assert_eq!(complaint("WHAT: x\n"), "f: line 1: \"what\" is not a field");
    assert_eq!(complaint("signature: 012\n"), "f: line 1: \"012\" is not whole bytes");
    assert_eq!(complaint("signature: 01\n 0x\n"), "f: line 2: \"0x\" is not hex");
    assert_eq!(
        complaint("name: n\nbecause: b\nat: 1\nsignature: 0102\nreplacement: 0304\n"),
        "f: the replacement runs past the signature: 2 bytes at offset 1 of 2"
    );
}

#[test]
fn keys_are_read_whatever_their_case() {
    let p = parse("NAME : n\nBecause: b # why\nREACH: Every\nAT: 0x1\nSignature: 01 02\n  03\nreplacement: ff", "f").unwrap();
    assert_eq!(p.name, "n");
    assert_eq!(p.because, "b");
    assert_eq!(p.reach, Reach::Every);
    assert_eq!((p.at, p.signature, p.replacement), (1, vec![1, 2, 3], vec![0xFF]));
}

#[test]
fn numbers_are_decimal_or_hexadecimal() {
    assert_eq!(parse_number(" 42 "), Some(42));
    assert_eq!(parse_number("0x2A"), Some(42));
    assert_eq!(parse_number("0Xff"), Some(255));
    assert_eq!(parse_number("+7"), Some(7));
    assert_eq!(parse_number("-7"), None);
    assert_eq!(parse_number(""), None);
    assert_eq!(parse_number("0x"), None);
    assert_eq!(parse_number("99999999999999999999999"), None);
    assert_eq!(hex("+f").unwrap_err(), "\"+f\" is not hex");
    assert_eq!(hex("\u{e9}").unwrap_err(), "\"\u{e9}\" is not hex");
}

/// A word that two bytes of end in the middle of a character is wrong like any
/// other, and on its line.
#[test]
fn a_character_cut_in_half_is_reported_with_its_line() {
    let text = "name: n\nbecause: b\nsignature: a\u{e9}b\nreplacement: 03\n";
    assert_eq!(parse(text, "t.nkp").unwrap_err(), "t.nkp: line 3: \"a\u{e9}b\" is not hex");
    assert_eq!(hex("01 \u{1F600}").unwrap_err(), "\"\u{1F600}\" is not hex");
    assert_eq!(hex("a\u{e9}").unwrap_err(), "\"a\u{e9}\" is not whole bytes");
    assert_eq!(parse("Reach: SomeTimes\n", "t").unwrap_err(), "t: line 1: \"sometimes\" is not sole or every");
    assert_eq!(parse("\n\u{c9}XTRA: 1\n", "t").unwrap_err(), "t: line 2: \"\u{c9}xtra\" is not a field");
}

/// A match too near an end of the image has nothing to be compared by.
#[test]
fn matches_without_surroundings_are_unlike() {
    let patch = |reach| Patch {
        name: "t".into(),
        signature: b"SIG".to_vec(),
        at: 0,
        replacement: b"NEW".to_vec(),
        because: "t".into(),
        reach,
    };
    let mut img = b"SIGaSIGb".to_vec();
    assert_eq!(apply(&mut img, &patch(Reach::Sole)), Err(Failed::Ambiguous(2)));
    assert_eq!(img, b"SIGaSIGb");
    assert_eq!(apply(&mut img, &patch(Reach::Every)), Ok(vec![0, 4]));
    assert_eq!(img, b"NEWaNEWb");

    // Alike, with exactly enough on either side of the outer ones.
    let mut wide = vec![7u8; CONTEXT];
    wide.extend(b"SIG");
    wide.extend(vec![7u8; CONTEXT]);
    wide.extend(b"SIG");
    wide.extend(vec![7u8; CONTEXT]);
    let mut short = wide[1..].to_vec();
    assert_eq!(apply(&mut wide, &patch(Reach::Sole)), Ok(vec![CONTEXT, 2 * CONTEXT + 3]));
    assert_eq!(apply(&mut short, &patch(Reach::Sole)), Err(Failed::Ambiguous(2)));
    let mut alone = b"xSIG".to_vec();
    assert_eq!(apply(&mut alone, &patch(Reach::Sole)), Ok(vec![1]), "one match needs no comparing");
}

fn file(name: &str, text: &str) -> (String, String) {
    (name.into(), text.into())
}

#[test]
fn embedded_patches_are_read_in_order() {
    let good = "name: one\nbecause: b\nsignature: 01 02\nreplacement: 03\n";
    let other = "name: two\nbecause: b\nsignature: 04\nreplacement: 05\n";
    let patches = builtin(&vec![file("a.nkp", good), file("b.nkp", other)]).unwrap();
    assert_eq!(patches.len(), 2);
    assert_eq!((patches[0].name.as_str(), patches[1].name.as_str()), ("one", "two"));
    assert!(patches.iter().all(is_well_formed));
    let e = builtin(&vec![file("a.nkp", good), file("b.nkp", "name: x\n"), file("c.nkp", "")]).unwrap_err();
    assert_eq!(e, "b.nkp: no because");
    assert!(builtin(&vec![]).unwrap().is_empty());
}

#[test]
fn a_refused_patch_changes_nothing() {
    let p = Patch {
        name: "p".into(),
        signature: vec![1, 2, 3],
        at: 1,
        replacement: vec![9],
        because: "b".into(),
        reach: Reach::Sole,
    };
    let mut img: Vec<u8> = (0..200).collect();
    assert_eq!(apply(&mut img, &p), Ok(vec![2]));
    assert_eq!(img[1..4], [1, 9, 3]);
    let before = img.clone();
    assert_eq!(apply(&mut img, &p), Err(Failed::NotFound));
    assert_eq!(img, before);
    let long = Patch { at: 3, ..p };
    assert!(!is_well_formed(&long));
}

#[test]
fn values_of_one_name_are_set_and_nothing_else() {
    let mut record = Vec::new();
    for h in [28u16, 2, 4, 9, 4] {
        record.extend_from_slice(&h.to_le_bytes());
    }
    for c in "AutoPart\0".encode_utf16() {
        record.extend_from_slice(&c.to_le_bytes());
    }
    record.extend_from_slice(&[5, 0, 0, 0]);
    let mut img = vec![0x77u8; 5];
    img.extend(&record);
    img.push(0x77);
    let was = set_all_dwords(&mut img, AUTO_PART, 0x0102_0304);
    assert_eq!(was.len(), 1);
    assert_eq!((was[0].record, was[0].value), (5, 5));
    assert_eq!(find_all_dwords(&img, AUTO_PART)[0].value, 0x0102_0304);
    let at = was[0].data;
    assert_eq!(img[at..at + 4], [4, 3, 2, 1]);
    assert_eq!(img[..5], [0x77; 5]);
    assert_eq!(*img.last().unwrap(), 0x77);
}

#[test]
fn padding_always_adds_and_says_how_much() {
    assert_eq!(pkcs5_pad(&[1, 2, 3]), vec![1, 2, 3, 5, 5, 5, 5, 5]);
    assert_eq!(pkcs5_pad(&[0; 8])[8..], [8; 8]);
}

/// Each block is mixed with the one before it.
#[test]
fn blocks_are_chained() {
    let sched = rc2_expand(&derived_key(), 128);
    let out = cbc_encrypt(&sched, &[0u8; 16]);
    assert_eq!(out.len(), 16);
    let first = rc2_encrypt_block(&sched, [0; 8]);
    assert_eq!(out[..8], first);
    assert_eq!(out[8..], rc2_encrypt_block(&sched, first));
}

#[test]
fn a_digest_of_several_blocks() {
    let text = vec![b'a'; 119];
    assert_ne!(md5(&text), md5(&text[..118]));
    assert_eq!(md5(b"message digest")[..4], [0xf9, 0x6b, 0x69, 0x7d]);
    let eighty = b"12345678901234567890123456789012345678901234567890123456789012345678901234567890";
    assert_eq!(md5(eighty)[..4], [0x57, 0xed, 0xf4, 0xa2]);
}

#[test]
fn a_dump_is_an_identity_and_a_record() {
    let dump = Licence::default().eeprom();
    assert_eq!(dump.len(), 8 + 128);
    assert_eq!(vbnote::gandalf::onewire::crc8(&dump[..8]), 0);
}

#[test]
fn an_image_is_described_without_its_bytes() {
    let eboot = image(0x96C7_8000, &[(0x96C7_8000, 4)]);
    let nk = image(0x8004_1000, &[(0x8004_1000, 0x20)]);
    let p = build_flash_image(1 << 20, &eboot, Some(&nk), StartConvention::FlashOffset).unwrap();
    assert_eq!(
        p.describe(),
        format!(
            "Provisioned {{ image_len: 1048576, header: {:?}, eboot_bytes: {}, kernel_bytes: {} }}",
            p.header, p.eboot_bytes, p.kernel_bytes
        )
    );
}

/// The list of records starts with what a single search finds.
#[test]
fn records_are_listed_from_the_first_one_found() {
    let mut img = vec![0xEEu8; 7];
    for value in [1u32, 2] {
        img.extend([0, 0, 0, 0, 4, 0, 9, 0, 4, 0]);
        for c in AUTO_PART.bytes() {
            img.extend([c, 0]);
        }
        img.extend([0, 0]);
        img.extend(value.to_le_bytes());
    }
    let all = find_all_dwords(&img, AUTO_PART);
    assert_eq!(all.len(), 2);
    assert_eq!(Some(all[0]), find_dword(&img, AUTO_PART));
    for v in &all {
        assert_eq!(v.data, v.record + 12 + 2 * AUTO_PART.len());
    }
    assert_eq!((all[0].record, all[0].value, all[1].value), (7, 1, 2));
    assert!(find_all_dwords(&img, "AutoForm").is_empty());
    assert_eq!(find_dword(&img, "AutoForm"), None);
}
