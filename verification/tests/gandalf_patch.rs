use vbnote::gandalf::patch::{CONTEXT, Failed, NOP, Patch, Reach, apply};

/// A patch to exercise `apply` with, rather than borrowing a real one.
///
/// The generic behaviour under test -- one match, several matches, none,
/// staying inside the signature -- has nothing to do with any particular
/// firmware, and a test that names a real patch breaks when that patch is
/// retired for reasons of its own. Which is what happened to the one that
/// used to be here.
fn sample() -> Patch {
    Patch {
        name: "sample".into(),
        signature: vec![
            0x18, 0x20, 0x8d, 0xe2, // add r2, sp, #0x18
            0x06, 0x10, 0x81, 0xe3, // orr r1, r1, #0x6
            0x07, 0x00, 0xa0, 0xe1, // mov r0, r7
            0x00, 0x00, 0x50, 0xe3, // cmp r0, #0x0
            0x0a, 0x00, 0x00, 0x0a, // beq +0x28
        ],
        at: 16,
        replacement: NOP.to_vec(),
        because: "a fixture, so the tests do not depend on a real patch".into(),
        reach: Reach::Sole,
    }
}

fn image_with(sig: &[u8], copies: usize) -> Vec<u8> {
    let mut v = vec![0xAB; 16];
    for _ in 0..copies {
        v.extend_from_slice(sig);
        v.extend_from_slice(&[0xCD; 16]);
    }
    v
}

#[test]
fn a_patch_replaces_exactly_its_word_and_nothing_else() {
    let p = &sample();
    let mut img = image_with(&p.signature, 1);
    let before = img.clone();
    let at = apply(&mut img, p).unwrap()[0];
    assert_eq!(img[at..at + 4], NOP, "the branch is gone");
    assert_eq!(img[..at], before[..at], "and nothing before it moved");
    assert_eq!(img[at + 4..], before[at + 4..], "nor after");
}

/// Patching the first of several matches would be a guess about which
/// copy of the code is the live one, and this driver ships several
/// near-identical copies of everything.
/// Matches whose surroundings differ are different code that happens to
/// share a few instructions, and patching the first would be a guess.
/// `trueffs.dll` ships several near-identical drivers and this is what
/// stops the wrong one being changed.
#[test]
fn matches_in_different_surroundings_are_refused() {
    let p = &sample();
    let mut img = vec![0x11u8; 400];
    img.extend_from_slice(&p.signature);
    img.extend_from_slice(&[0x22; 400]);
    img.extend_from_slice(&p.signature);
    img.extend_from_slice(&[0x33; 400]);
    assert_eq!(apply(&mut img, p), Err(Failed::Ambiguous(2)));
    assert!(!img.windows(4).any(|w| w == NOP), "and nothing was touched");
}

/// A module the image genuinely holds twice is the same code in two
/// places, and both want patching.
#[test]
fn identical_copies_of_one_module_are_all_patched() {
    let p = &sample();
    let mut img = Vec::new();
    for _ in 0..2 {
        img.extend_from_slice(&[0xAB; 400]);
        img.extend_from_slice(&p.signature);
        img.extend_from_slice(&[0xCD; 400]);
    }
    let at = apply(&mut img, p).unwrap();
    assert_eq!(at.len(), 2, "both copies");
    for o in at {
        assert_eq!(&img[o..o + 4], NOP);
    }
}

#[test]
fn a_missing_signature_is_reported_rather_than_ignored() {
    let mut img = vec![0u8; 4096];
    assert_eq!(apply(&mut img, &sample()), Err(Failed::NotFound));
}

/// `at` has to land on a whole instruction, not straddle two of them.
#[test]
fn a_patch_replaces_whole_instructions() {
    // Only for a patch that changes ARM code. Both of the patches left in
    // this file rewrite registry records, which are bytes rather than
    // instructions and are not word-aligned; the last code patch went
    // when the licence stopped needing one.
    let p = &sample();
    assert_eq!(p.at % 4, 0, "{} starts mid-instruction", p.name);
    assert_eq!(p.replacement.len() % 4, 0, "{} is not whole words", p.name);
    assert_eq!(p.signature.len() % 4, 0, "{} is not whole words", p.name);
}

/// An image with the signature in two modules, each surrounded by more
/// than `CONTEXT` bytes of its own code, so the two are genuinely
/// distinguishable. Padding matters: an image shorter than the context
/// window makes every match look alike, which is a property of the test
/// rather than of the code.
fn two_modules_sharing(sig: &[u8]) -> Vec<u8> {
    let mut image = Vec::new();
    image.extend(std::iter::repeat_n(b'a', CONTEXT * 2));
    image.extend(sig);
    image.extend(std::iter::repeat_n(b'b', CONTEXT * 2));
    image.extend(sig);
    image.extend(std::iter::repeat_n(b'c', CONTEXT * 2));
    image
}

/// A routine a build linked into two modules sits in different
/// surroundings in each, so the sameness test cannot recognise it and
/// must not be asked to. `Every` is how a patch says it already knows,
/// having been shown which modules those are.
#[test]
fn a_patch_that_names_every_match_changes_all_of_them() {
    let sig: &[u8] = b"ROUTINE";
    let mut image = two_modules_sharing(sig);
    let every = Patch {
        name: "t".into(), signature: sig.to_vec(), at: 0,
        replacement: b"PATCHED".to_vec(), because: "t".into(),
        reach: Reach::Every,
    };
    let at = apply(&mut image, &every).expect("Every patches regardless of surroundings");
    assert_eq!(at.len(), 2);
    assert_eq!(image.windows(7).filter(|w| *w == b"PATCHED").count(), 2);
    assert!(!image.windows(7).any(|w| w == sig), "no match left behind");
}

/// The same image, the same signature, with `Sole` -- because the default
/// has to keep refusing. Several near-identical drivers ship in
/// trueffs.dll and picking the wrong one is silent.
#[test]
fn the_same_matches_are_refused_when_a_patch_expects_one() {
    let sig: &[u8] = b"ROUTINE";
    let mut image = two_modules_sharing(sig);
    let sole = Patch {
        name: "t".into(), signature: sig.to_vec(), at: 0,
        replacement: b"PATCHED".to_vec(), because: "t".into(),
        reach: Reach::Sole,
    };
    assert_eq!(apply(&mut image, &sole), Err(Failed::Ambiguous(2)));
    assert!(!image.windows(7).any(|w| w == b"PATCHED"), "a refusal changes nothing");
}
