use vbnote::gandalf::licence::{Licence, PASSPHRASE, derived_key, md5, rc2_encrypt_block, rc2_expand};

/// RFC 1321's own vectors. Everything else here depends on this being
/// right, because the key is five bytes of it.
#[test]
fn md5_matches_its_specification() {
    assert_eq!(hex(&md5(b"")), "d41d8cd98f00b204e9800998ecf8427e");
    assert_eq!(hex(&md5(b"abc")), "900150983cd24fb0d6963f7d28e17f72");
    assert_eq!(
        hex(&md5(b"The quick brown fox jumps over the lazy dog")),
        "9e107d9d372bb6826bd81d3542a419d6"
    );
}

/// RFC 2268's own vectors, including the short-key case this uses.
#[test]
fn rc2_matches_its_specification() {
    for (key, plain, bits, want) in [
        ("0000000000000000", "0000000000000000", 63, "ebb773f993278eff"),
        ("ffffffffffffffff", "ffffffffffffffff", 64, "278b27e42e2f0d49"),
        ("88bca90e90875a7f0f79c384627bafb2", "0000000000000000", 128, "2269552ab0f85ca6"),
    ] {
        let sched = rc2_expand(&unhex(key), bits);
        let mut block = [0u8; 8];
        block.copy_from_slice(&unhex(plain));
        assert_eq!(hex(&rc2_encrypt_block(&sched, block)), want, "T1={bits}");
    }
}

/// The key material is five bytes of MD5 and eleven of zero salt. Getting
/// this wrong is why several earlier attempts were refused: the Base
/// Provider salts a 40-bit key, and the salt is zero unless asked
/// otherwise, so the cipher sees sixteen bytes rather than five.
#[test]
fn the_key_is_salted_to_sixteen_bytes() {
    let key = derived_key();
    assert_eq!(key.len(), 16);
    assert_eq!(&key[..5], &md5(&PASSPHRASE)[..5]);
    assert!(key[5..].iter().all(|b| *b == 0), "the salt is zero");
}

/// The device id inside the blob has to be the serial the part reports,
/// or the validator refuses it. They come from one place so they cannot
/// drift apart.
#[test]
fn the_identity_inside_matches_the_part_outside() {
    let l = Licence { serial: [9, 8, 7, 6, 5, 4], ..Default::default() };
    let payload = l.payload();
    assert_eq!(&payload[0x18..0x1e], &[9, 8, 7, 6, 5, 4]);
    assert_eq!(&payload[0x1e..0x20], &[0, 0], "and zero-padded to eight");
    let dump = l.eeprom();
    assert_eq!(&dump[1..7], &[9, 8, 7, 6, 5, 4], "the same serial in the ROM id");
}

/// The validator reads the length before anything else and requires
/// exactly 0x2c.
#[test]
fn the_payload_is_the_length_the_validator_demands() {
    assert_eq!(Licence::default().payload().len(), 0x2c);
}

/// The blob is whole blocks, and the record around it carries the length
/// and checksum the reader retries until it agrees with.
#[test]
fn the_record_frames_the_blob_the_way_the_reader_expects() {
    let l = Licence::default();
    let blob = l.blob();
    assert_eq!(blob.len() % 8, 0, "whole RC2 blocks");
    assert_eq!(blob.len(), 48, "44 bytes padded to a block boundary");
    let dump = l.eeprom();
    let mem = &dump[8..];
    assert_eq!(mem[0] as usize, blob.len(), "the length byte");
    assert_eq!(&mem[1..1 + blob.len()], &blob[..]);
    let sum = blob.iter().fold(0u8, |a, b| a.wrapping_add(*b));
    assert_eq!(mem[1 + blob.len()], sum, "the checksum");
}

/// Pinned against the blob KeySoft's own validator accepted, so a change
/// to any part of the chain that would stop the machine starting fails
/// here first.
#[test]
fn the_default_licence_is_the_one_that_was_accepted() {
    let want = "ad75c4a606b4b024a71207570f051595be5fa05b9e58553521cf6b07e1bb692a\
                fd9ca858b9df1ff6d0d18c8bb9ca20e9";
    assert_eq!(hex(&Licence::default().blob()), want);
}

fn hex(bytes: &[u8]) -> String {
    bytes.iter().map(|b| format!("{b:02x}")).collect()
}

fn unhex(text: &str) -> Vec<u8> {
    (0..text.len())
        .step_by(2)
        .map(|i| u8::from_str_radix(&text[i..i + 2], 16).unwrap())
        .collect()
}
