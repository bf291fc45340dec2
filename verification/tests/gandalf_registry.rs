use vbnote::gandalf::registry::{AUTO_FORMAT, TYPE_DWORD, find_all_dwords, find_dword, set_all_dwords, set_dword};

/// Build a record the way the image does, so the tests exercise the
/// layout rather than a fixture copied out of it.
fn record(name: &str, kind: u16, data: &[u8]) -> Vec<u8> {
    let wide: Vec<u8> = name.encode_utf16().chain(Some(0)).flat_map(|c| c.to_le_bytes()).collect();
    let mut out = Vec::new();
    let size = (10 + wide.len() + data.len() - 4) as u16;
    for h in [size, 2, data.len() as u16, name.chars().count() as u16 + 1, kind] {
        out.extend_from_slice(&h.to_le_bytes());
    }
    out.extend_from_slice(&wide);
    out.extend_from_slice(data);
    out
}

fn image() -> Vec<u8> {
    let mut v = vec![0xAB; 32];
    v.extend(record("MountFlags", TYPE_DWORD, &[0, 0, 0, 0]));
    v.extend(record("AutoFormat", TYPE_DWORD, &[0, 0, 0, 0]));
    v.extend(record("AutoPart", TYPE_DWORD, &[1, 0, 0, 0]));
    v
}

#[test]
fn a_named_dword_is_found_with_its_value() {
    let img = image();
    let found = find_dword(&img, AUTO_FORMAT).expect("AutoFormat should be there");
    assert_eq!(found.value, 0);
    assert_eq!(find_dword(&img, "AutoPart").unwrap().value, 1);
}

#[test]
fn setting_it_reports_what_it_was_and_leaves_the_neighbours_alone() {
    let mut img = image();
    assert_eq!(set_dword(&mut img, AUTO_FORMAT, 1), Some(0));
    assert_eq!(find_dword(&img, AUTO_FORMAT).unwrap().value, 1);
    assert_eq!(find_dword(&img, "MountFlags").unwrap().value, 0);
    assert_eq!(find_dword(&img, "AutoPart").unwrap().value, 1);
}

#[test]
fn a_loose_mention_of_the_name_is_not_mistaken_for_the_value() {
    // The same text with no record header in front of it, placed first.
    let mut img: Vec<u8> = "AutoFormat".encode_utf16().flat_map(|c| c.to_le_bytes()).collect();
    img.extend(image());
    let found = find_dword(&img, AUTO_FORMAT).expect("the real record should win");
    assert_eq!(found.value, 0);
    assert!(found.record > 10, "it should not have matched the bare string");
}

#[test]
fn a_record_of_the_wrong_type_or_width_is_skipped() {
    let mut img = vec![0u8; 8];
    img.extend(record(AUTO_FORMAT, 1, &[0, 0, 0, 0])); // REG_SZ, not DWORD
    assert_eq!(find_dword(&img, AUTO_FORMAT), None);
}

#[test]
fn every_copy_of_a_name_is_found_and_can_be_set() {
    let mut img = image();
    img.extend(record(AUTO_FORMAT, TYPE_DWORD, &[0, 0, 0, 0]));
    assert_eq!(find_all_dwords(&img, AUTO_FORMAT).len(), 2, "one per profile");
    let was = set_all_dwords(&mut img, AUTO_FORMAT, 1);
    assert_eq!(was.len(), 2);
    assert!(find_all_dwords(&img, AUTO_FORMAT).iter().all(|v| v.value == 1));
}

/// The scan must move past each record it returns.
///
/// Resuming at `record + 10` lands on the same record's name and finds it
/// again, which does not fail — it loops until memory runs out, and takes
/// the emulator with it, since provisioning calls this on every boot.
#[test]
fn scanning_terminates_and_each_record_is_returned_once() {
    let mut img = image();
    img.extend(record(AUTO_FORMAT, TYPE_DWORD, &[0, 0, 0, 0]));
    img.extend(record(AUTO_FORMAT, TYPE_DWORD, &[2, 0, 0, 0]));
    let found = find_all_dwords(&img, AUTO_FORMAT);
    assert_eq!(found.len(), 3);
    let mut records: Vec<usize> = found.iter().map(|v| v.record).collect();
    records.dedup();
    assert_eq!(records.len(), 3, "each record should appear once");
    assert!(found.windows(2).all(|w| w[0].record < w[1].record), "and in order");
}

#[test]
fn a_name_that_is_not_there_is_not_invented() {
    assert_eq!(find_dword(&image(), "NoSuchValue"), None);
}
