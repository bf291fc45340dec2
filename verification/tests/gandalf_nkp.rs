use vbnote::gandalf::nkp::{hex, parse};
use vbnote::gandalf::patch::Reach;

const SAMPLE: &str = "\
# A comment, and a blank line follows.

name: test patch
because: so the tests have something to read
reach: every
at: 4

signature:
  aa bb cc dd
  ee ff   # trailing comment

replacement: 11 22
";

#[test]
fn a_file_parses_into_the_patch_it_describes() {
    let p = parse(SAMPLE, "test.nkp").unwrap();
    assert_eq!(p.name, "test patch");
    assert_eq!(p.because, "so the tests have something to read");
    assert_eq!(p.reach, Reach::Every);
    assert_eq!(p.at, 4);
    assert_eq!(p.signature, vec![0xaa, 0xbb, 0xcc, 0xdd, 0xee, 0xff]);
    assert_eq!(p.replacement, vec![0x11, 0x22]);
}

/// The defaults are the cautious ones: a patch that does not say how far
/// it reaches only changes one place.
#[test]
fn reach_and_at_default_to_the_careful_answer() {
    let p = parse("name: n\nbecause: b\nsignature: 01 02\nreplacement: 03\n", "t").unwrap();
    assert_eq!(p.reach, Reach::Sole);
    assert_eq!(p.at, 0);
}

/// A patch that writes outside what it matched is a guess about the bytes
/// next door, and `apply` would panic on it. Catch it at the file.
#[test]
fn a_replacement_past_the_signature_is_refused() {
    let e = parse("name: n\nbecause: b\nsignature: 01 02\nreplacement: 03 04 05\n", "t")
        .unwrap_err();
    assert!(e.contains("runs past the signature"), "{e}");
}

#[test]
fn the_things_that_would_match_everything_are_refused() {
    assert!(parse("name: n\nbecause: b\nreplacement: 03\n", "t")
        .unwrap_err()
        .contains("no signature"));
    assert!(parse("name: n\nbecause: b\nsignature: 03\n", "t")
        .unwrap_err()
        .contains("no replacement"));
}

/// Every complaint carries the line it is on, because a patch file is
/// edited by hand and a bare "parse error" is no help.
#[test]
fn mistakes_are_reported_with_their_line() {
    let e = parse("name: n\nbecause: b\nsignature:\n  zz\n", "t.nkp").unwrap_err();
    assert!(e.starts_with("t.nkp: line 4:"), "{e}");
    let e = parse("name: n\nwhat: no\n", "t.nkp").unwrap_err();
    assert!(e.starts_with("t.nkp: line 2:"), "{e}");
}

#[test]
fn hex_may_be_spaced_or_run_together() {
    assert_eq!(hex("00 ff").unwrap(), vec![0, 255]);
    assert_eq!(hex("00ff").unwrap(), vec![0, 255]);
    assert!(hex("0").is_err());
    assert!(hex("gg").is_err());
}
