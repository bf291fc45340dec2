//! Code patches applied to the ROM image as it is built.
//!
//! A patch changes a few bytes of the image being built, never `NK.bin` on
//! disk. It is not a fix and is not pretending to be one: each carries what it
//! bypasses, so that when the real cause turns up the patch can be deleted.
//!
//! Patches themselves are not here: they are `.nkp` files, parsed by
//! `nkp`. This is the machinery that applies one.
//!
//! # Finding the site
//!
//! Patches match a **byte signature** rather than an address, and refuse to
//! apply unless the signature appears exactly once in the whole image. An
//! address would be quietly wrong against a different build; a signature that
//! matches twice means the assumption about which code is being changed is
//! already broken, and applying to the first hit would be a guess.

use vstd::prelude::*;

verus! {

/// One patch: a signature to find, and a word to replace within it.
#[derive(Debug, Clone, PartialEq, Eq)]
pub struct Patch {
    /// Short name, used in the message printed when it applies.
    pub name: String,
    /// Bytes that must appear exactly once in the image.
    pub signature: Vec<u8>,
    /// Offset within the signature of the bytes being replaced.
    pub at: usize,
    /// What to put there. Must not run past the end of the signature: a
    /// patch that writes outside what it matched is not a patch, it is a
    /// guess about the bytes next door.
    pub replacement: Vec<u8>,
    /// What the patch buys, for the log line.
    pub because: String,
    /// How many places in the image this is expected to change.
    pub reach: Reach,
}

/// How many places a patch is expected to change.
#[derive(Debug, PartialEq, Eq, Clone, Copy, Structural)]
pub enum Reach {
    /// One place. If the image holds the signature more than once the patch
    /// refuses, unless the matches are copies of one another.
    ///
    /// This is the right answer almost always, and the refusal is the point:
    /// `trueffs.dll` ships several near-identical drivers.
    Sole,
    /// Every match, because the routine is in more than one module and all of
    /// them are the same code.
    ///
    /// Only for a patch that has been shown to be that, module by module. It
    /// is not a way to make an ambiguous patch stop complaining.
    Every,
}

/// Why a patch did not apply.
#[derive(Debug, PartialEq, Eq, Structural)]
pub enum Failed {
    /// The signature is not in the image at all.
    NotFound,
    /// It is there more than once, so which one to patch is a guess.
    Ambiguous(usize),
}

/// ARM's canonical no-op: `mov r0, r0`.
pub const NOP: [u8; 4] = [0x00, 0x00, 0xA0, 0xE1];

/// How much either side of a signature has to agree before two matches are
/// treated as the same code in two places.
pub const CONTEXT: usize = 192;

impl Patch {
    /// The patch stays inside the bytes it matched.
    pub open spec fn well_formed(self) -> bool {
        self.at + self.replacement@.len() <= self.signature@.len()
    }
}

/// Every patch has to stay inside the bytes it matched.
pub fn is_well_formed(p: &Patch) -> (r: bool)
    ensures
        r == p.well_formed(),
{
    p.at <= p.signature.len() && p.replacement.len() <= p.signature.len() - p.at
}

/// The signature stands in the image at `i`.
pub open spec fn matches_at(image: Seq<u8>, sig: Seq<u8>, i: int) -> bool {
    &&& 0 <= i
    &&& i + sig.len() <= image.len()
    &&& image.subrange(i, i + sig.len()) == sig
}

/// Where in the first `n` positions the signature stands, in order.
pub open spec fn hits_upto(image: Seq<u8>, sig: Seq<u8>, n: int) -> Seq<int>
    decreases n,
{
    if n <= 0 {
        Seq::empty()
    } else if matches_at(image, sig, n - 1) {
        hits_upto(image, sig, n - 1).push(n - 1)
    } else {
        hits_upto(image, sig, n - 1)
    }
}

/// Everywhere the signature stands.
pub open spec fn hits_of(image: Seq<u8>, sig: Seq<u8>) -> Seq<int> {
    hits_upto(image, sig, image.len() as int)
}

/// A match of `len` bytes has `CONTEXT` bytes of the image on either side.
pub open spec fn surrounded(image: Seq<u8>, hit: int, len: int) -> bool {
    CONTEXT <= hit && hit + len + CONTEXT <= image.len()
}

/// A match of `len` bytes and what surrounds it.
pub open spec fn surroundings(image: Seq<u8>, hit: int, len: int) -> Seq<u8> {
    image.subrange(hit - CONTEXT, hit + len + CONTEXT)
}

/// Every match sits in the same surroundings. One too near either end of the
/// image has none to compare, and is like no other.
pub open spec fn alike(image: Seq<u8>, hits: Seq<int>, len: int) -> bool {
    forall|i: int|
        0 <= i < hits.len() ==> surrounded(image, #[trigger] hits[i], len) && surroundings(
            image,
            hits[i],
            len,
        ) == surroundings(image, hits[0], len)
}

/// The image with the first `n` hits patched, in order.
pub open spec fn patched(image: Seq<u8>, hits: Seq<int>, patch: Patch, n: int) -> Seq<u8>
    decreases n,
{
    if n <= 0 {
        image
    } else {
        crate::bytes::overlaid(
            patched(image, hits, patch, n - 1),
            hits[n - 1] + patch.at,
            patch.replacement@,
        )
    }
}

/// What [`apply`] answers, before anything is changed.
pub open spec fn refusal(image: Seq<u8>, patch: Patch) -> Option<Failed> {
    let hits = hits_of(image, patch.signature@);
    if hits.len() == 0 {
        Some(Failed::NotFound)
    } else if patch.reach == Reach::Sole && hits.len() > 1 && !alike(
        image,
        hits,
        patch.signature@.len() as int,
    ) {
        Some(Failed::Ambiguous(hits.len() as usize))
    } else {
        None
    }
}

/// Every hit is a match, they come in ascending order, and none is missed.
pub proof fn lemma_hits(image: Seq<u8>, sig: Seq<u8>, n: int)
    requires
        0 <= n,
    ensures
        hits_upto(image, sig, n).len() <= n,
        forall|k: int|
            0 <= k < hits_upto(image, sig, n).len() ==> {
                let h = #[trigger] hits_upto(image, sig, n)[k];
                0 <= h < n && matches_at(image, sig, h)
            },
        forall|j: int, k: int|
            0 <= j < k < hits_upto(image, sig, n).len() ==> #[trigger] hits_upto(image, sig, n)[j]
                < #[trigger] hits_upto(image, sig, n)[k],
        forall|i: int|
            0 <= i < n && #[trigger] matches_at(image, sig, i) ==> hits_upto(
                image,
                sig,
                n,
            ).contains(i),
    decreases n,
{
    if n > 0 {
        lemma_hits(image, sig, n - 1);
        let before = hits_upto(image, sig, n - 1);
        let after = hits_upto(image, sig, n);
        assert forall|i: int| 0 <= i < n && #[trigger] matches_at(image, sig, i) implies
            after.contains(i) by {
            if i == n - 1 {
                assert(after[after.len() - 1] == i);
            } else {
                assert(before.contains(i));
                let k = choose|k: int| 0 <= k < before.len() && before[k] == i;
                assert(after[k] == i);
            }
        }
    }
}

/// The first `len` bytes at two places are the same.
pub fn same_bytes(a: &[u8], at: usize, b: &[u8], bt: usize, len: usize) -> (r: bool)
    requires
        at + len <= a.len(),
        bt + len <= b.len(),
    ensures
        r == (a@.subrange(at as int, at + len) == b@.subrange(bt as int, bt + len)),
{
    let mut i: usize = 0;
    while i < len
        invariant
            i <= len,
            at + len <= a.len(),
            bt + len <= b.len(),
            forall|j: int|
                0 <= j < i ==> #[trigger] a@.subrange(at as int, at + len)[j] == b@.subrange(
                    bt as int,
                    bt + len,
                )[j],
        decreases len - i,
    {
        if a[at + i] != b[bt + i] {
            assert(a@.subrange(at as int, at + len)[i as int] != b@.subrange(
                bt as int,
                bt + len,
            )[i as int]);
            return false;
        }
        i = i + 1;
    }
    assert(a@.subrange(at as int, at + len) =~= b@.subrange(bt as int, bt + len));
    true
}

/// Find every match.
fn find_hits(image: &[u8], sig: &[u8]) -> (r: Vec<usize>)
    ensures
        r@.map_values(|h: usize| h as int) =~= hits_of(image@, sig@),
{
    let mut hits: Vec<usize> = Vec::new();
    let mut i: usize = 0;
    while i < image.len()
        invariant
            i <= image@.len(),
            hits@.map_values(|h: usize| h as int) =~= hits_upto(image@, sig@, i as int),
        decreases image.len() - i,
    {
        if sig.len() <= image.len() - i && same_bytes(image, i, sig, 0, sig.len()) {
            assert(sig@.subrange(0, sig@.len() as int) =~= sig@);
            hits.push(i);
        } else {
            assert(sig@.subrange(0, sig@.len() as int) =~= sig@);
        }
        i = i + 1;
    }
    hits
}

/// Whether every match sits in the same surroundings.
fn all_alike(image: &[u8], hits: &Vec<usize>, len: usize) -> (r: bool)
    requires
        hits@.len() > 0,
        forall|i: int| 0 <= i < hits@.len() ==> #[trigger] hits@[i] + len <= image.len(),
    ensures
        r == alike(image@, hits@.map_values(|h: usize| h as int), len as int),
{
    let ghost places = hits@.map_values(|h: usize| h as int);
    let first: usize = hits[0];
    let mut i: usize = 0;
    while i < hits.len()
        invariant
            i <= hits@.len(),
            hits@.len() > 0,
            first == hits@[0],
            places == hits@.map_values(|h: usize| h as int),
            forall|j: int| 0 <= j < hits@.len() ==> #[trigger] hits@[j] + len <= image.len(),
            i > 0 ==> surrounded(image@, first as int, len as int),
            forall|j: int|
                0 <= j < i ==> surrounded(image@, #[trigger] places[j], len as int)
                    && surroundings(image@, places[j], len as int) == surroundings(
                    image@,
                    places[0],
                    len as int,
                ),
        decreases hits.len() - i,
    {
        let hit: usize = hits[i];
        assert(places[i as int] == hit);
        // A match too near either end has a short window and cannot be
        // compared, so treat it as unlike rather than as a match.
        if hit < CONTEXT || image.len() - (hit + len) < CONTEXT {
            assert(!surrounded(image@, places[i as int], len as int));
            return false;
        }
        if !same_bytes(image, hit - CONTEXT, image, first - CONTEXT, CONTEXT + len + CONTEXT) {
            assert(surroundings(image@, places[i as int], len as int) != surroundings(
                image@,
                places[0],
                len as int,
            ));
            return false;
        }
        i = i + 1;
    }
    true
}

/// Lay `part` over a slice from `at` on.
pub fn put_slice(image: &mut [u8], at: usize, part: &[u8])
    requires
        at + part.len() <= old(image).len(),
    ensures
        final(image)@ == crate::bytes::overlaid(old(image)@, at as int, part@),
{
    let mut i: usize = 0;
    while i < part.len()
        invariant
            i <= part.len(),
            at + part.len() <= image.len(),
            image@ =~= crate::bytes::overlaid(old(image)@, at as int, part@.take(i as int)),
        decreases part.len() - i,
    {
        image[at + i] = part[i];
        i = i + 1;
    }
    assert(part@.take(part@.len() as int) =~= part@);
}

/// Apply a patch, returning every offset it landed on.
///
/// A signature that matches more than once is usually a reason to stop:
/// `trueffs.dll` carries several **near-identical but different** driver
/// copies, where patching the first hit would be a guess about which one runs.
/// It is wrong for a module the image genuinely holds twice, where both are
/// the same code and both should be patched.
///
/// So the two are told apart by looking wider: if every match has the same
/// `CONTEXT` bytes either side of it, they are copies of one thing and all of
/// them are patched. If the surroundings differ, the matches are different
/// code that happens to share a few instructions.
pub fn apply(image: &mut [u8], patch: &Patch) -> (r: Result<Vec<usize>, Failed>)
    requires
        patch.signature@.len() > 0,
        forall|i: int| #[trigger]
            matches_at(old(image)@, patch.signature@, i) ==> i + patch.at
                + patch.replacement@.len() <= old(image).len(),
    ensures
        match r {
            Ok(at) => {
                let hits = hits_of(old(image)@, patch.signature@);
                &&& refusal(old(image)@, *patch) is None
                &&& final(image)@ == patched(old(image)@, hits, *patch, hits.len() as int)
                &&& at@.len() == hits.len()
                &&& forall|i: int|
                    0 <= i < hits.len() ==> #[trigger] at@[i] == hits[i] + patch.at
            },
            Err(e) => refusal(old(image)@, *patch) == Some(e) && final(image)@ == old(image)@,
        },
{
    let hits: Vec<usize> = find_hits(image, patch.signature.as_slice());
    let ghost places = hits_of(image@, patch.signature@);
    proof {
        lemma_hits(image@, patch.signature@, image@.len() as int);
        assert forall|i: int| 0 <= i < hits@.len() implies matches_at(
            image@,
            patch.signature@,
            #[trigger] hits@[i] as int,
        ) by {
            assert(places[i] == hits@[i]);
        }
    }
    if hits.len() == 0 {
        return Err(Failed::NotFound);
    }
    if patch.reach == Reach::Sole && hits.len() > 1 && !all_alike(
        image,
        &hits,
        patch.signature.len(),
    ) {
        return Err(Failed::Ambiguous(hits.len()));
    }
    let mut at: Vec<usize> = Vec::new();
    let mut i: usize = 0;
    while i < hits.len()
        invariant
            i <= hits@.len(),
            places == hits_of(old(image)@, patch.signature@),
            hits@.map_values(|h: usize| h as int) =~= places,
            image@ == patched(old(image)@, places, *patch, i as int),
            image@.len() == old(image)@.len(),
            at@.len() == i,
            forall|j: int| 0 <= j < i ==> #[trigger] at@[j] == places[j] + patch.at,
            forall|j: int|
                0 <= j < hits@.len() ==> matches_at(
                    old(image)@,
                    patch.signature@,
                    #[trigger] hits@[j] as int,
                ),
            forall|j: int| #[trigger]
                matches_at(old(image)@, patch.signature@, j) ==> j + patch.at
                    + patch.replacement@.len() <= old(image).len(),
        decreases hits.len() - i,
    {
        assert(places[i as int] == hits@[i as int]);
        assert(matches_at(old(image)@, patch.signature@, hits@[i as int] as int));
        let o: usize = hits[i] + patch.at;
        put_slice(image, o, patch.replacement.as_slice());
        at.push(o);
        i = i + 1;
    }
    Ok(at)
}

/// Every file parses, and is the patch in its place.
pub open spec fn all_fit(files: Seq<(String, String)>, patches: Seq<Patch>) -> bool {
    &&& patches.len() == files.len()
    &&& forall|i: int|
        0 <= i < files.len() ==> super::nkp::parses(files[i].1@) && super::nkp::parsed(
            files[i].1@,
            files[i].0@,
            Ok(#[trigger] patches[i]),
        )
}

/// File `i` is the first that does not parse, and `e` is what is wrong with it.
pub open spec fn first_unfit(files: Seq<(String, String)>, i: int, e: String) -> bool {
    &&& 0 <= i < files.len()
    &&& !super::nkp::parses(files[i].1@)
    &&& super::nkp::parsed(files[i].1@, files[i].0@, Err(e))
    &&& forall|j: int| 0 <= j < i ==> super::nkp::parses((#[trigger] files[j]).1@)
}

/// The patches that a program ships, from the `.nkp` files it embeds: each a
/// name and the text. The first that does not parse is the answer instead.
pub fn builtin(files: &Vec<(String, String)>) -> (r: Result<Vec<Patch>, String>)
    ensures
        match r {
            Ok(patches) => all_fit(files@, patches@),
            Err(e) => exists|i: int| #[trigger] first_unfit(files@, i, e),
        },
{
    let mut patches: Vec<Patch> = Vec::new();
    let mut i: usize = 0;
    while i < files.len()
        invariant
            i <= files.len(),
            patches@.len() == i,
            forall|k: int|
                0 <= k < i ==> super::nkp::parses(files[k].1@) && super::nkp::parsed(
                    files[k].1@,
                    files[k].0@,
                    Ok(#[trigger] patches[k]),
                ),
            forall|k: int| 0 <= k < i ==> super::nkp::parses((#[trigger] files@[k]).1@),
        decreases files.len() - i,
    {
        match super::nkp::parse(files[i].1.as_str(), files[i].0.as_str()) {
            Ok(p) => {
                patches.push(p);
            },
            Err(e) => {
                let refused: Result<Vec<Patch>, String> = Err(e);
                assert(first_unfit(files@, i as int, refused->Err_0));
                return refused;
            },
        }
        i = i + 1;
    }
    Ok(patches)
}


/// A byte that lies in none of the places a patch writes is left alone.
pub proof fn law_rest_unchanged(image: Seq<u8>, hits: Seq<int>, patch: Patch, n: int, i: int)
    requires
        0 <= i < image.len(),
        0 <= n <= hits.len(),
        forall|k: int|
            0 <= k < n ==> !(#[trigger] hits[k] + patch.at <= i < hits[k] + patch.at
                + patch.replacement@.len()),
    ensures
        patched(image, hits, patch, n).len() == image.len(),
        patched(image, hits, patch, n)[i] == image[i],
    decreases n,
{
    if n > 0 {
        law_rest_unchanged(image, hits, patch, n - 1, i);
    }
}

/// A well-formed patch changes nothing outside the bytes it matched.
pub proof fn law_stays_inside_matches(image: Seq<u8>, patch: Patch, i: int)
    requires
        patch.well_formed(),
        0 <= i < image.len(),
        forall|h: int| #[trigger]
            matches_at(image, patch.signature@, h) ==> !(h <= i < h + patch.signature@.len()),
    ensures
        ({
            let hits = hits_of(image, patch.signature@);
            patched(image, hits, patch, hits.len() as int)[i] == image[i]
        }),
{
    let hits = hits_of(image, patch.signature@);
    lemma_hits(image, patch.signature@, image.len() as int);
    assert forall|k: int| 0 <= k < hits.len() implies !(#[trigger] hits[k] + patch.at <= i
        < hits[k] + patch.at + patch.replacement@.len()) by {
        assert(matches_at(image, patch.signature@, hits[k]));
    }
    law_rest_unchanged(image, hits, patch, hits.len() as int, i);
}

/// Where the places written do not overlap, each of them holds the
/// replacement afterwards.
pub proof fn law_every_hit_is_replaced(
    image: Seq<u8>,
    hits: Seq<int>,
    patch: Patch,
    n: int,
    k: int,
)
    requires
        0 <= k < n <= hits.len(),
        forall|j: int|
            0 <= j < hits.len() ==> 0 <= #[trigger] hits[j] && hits[j] + patch.at
                + patch.replacement@.len() <= image.len(),
        forall|i: int, j: int|
            0 <= i < j < hits.len() ==> #[trigger] hits[i] + patch.replacement@.len()
                <= #[trigger] hits[j],
    ensures
        patched(image, hits, patch, n).len() == image.len(),
        patched(image, hits, patch, n).subrange(
            hits[k] + patch.at,
            hits[k] + patch.at + patch.replacement@.len(),
        ) == patch.replacement@,
    decreases n,
{
    let part = patch.replacement@;
    let before = patched(image, hits, patch, n - 1);
    let after = patched(image, hits, patch, n);
    let at = hits[k] + patch.at;
    lemma_patched_len(image, hits, patch, n - 1);
    if k < n - 1 {
        law_every_hit_is_replaced(image, hits, patch, n - 1, k);
        assert(hits[k] + part.len() <= hits[n - 1]);
        assert(after.subrange(at, at + part.len()) =~= before.subrange(at, at + part.len()));
    } else {
        assert(after.subrange(at, at + part.len()) =~= part);
    }
}

proof fn lemma_patched_len(image: Seq<u8>, hits: Seq<int>, patch: Patch, n: int)
    ensures
        patched(image, hits, patch, n).len() == image.len(),
    decreases n,
{
    if n > 0 {
        lemma_patched_len(image, hits, patch, n - 1);
    }
}

/// A patch is not found exactly where its signature stands nowhere.
pub proof fn law_only_a_missing_signature_is_not_found(image: Seq<u8>, patch: Patch)
    requires
        patch.signature@.len() > 0,
    ensures
        refusal(image, patch) == Some(Failed::NotFound) <==> forall|i: int|
            !#[trigger] matches_at(image, patch.signature@, i),
{
    let sig = patch.signature@;
    lemma_hits(image, sig, image.len() as int);
    let hits = hits_of(image, sig);
    if hits.len() > 0 {
        assert(matches_at(image, sig, hits[0]));
    } else {
        assert forall|i: int| !#[trigger] matches_at(image, sig, i) by {
            if matches_at(image, sig, i) {
                assert(hits.contains(i));
            }
        }
    }
}

/// A patch that goes into one place only goes into several where they are the
/// same code: any two places agree over the signature and 192 bytes on either
/// side of it, all of which are in the image.
pub proof fn law_several_places_agree(image: Seq<u8>, patch: Patch, i: int, j: int, d: int)
    requires
        patch.signature@.len() > 0,
        patch.reach == Reach::Sole,
        refusal(image, patch) is None,
        matches_at(image, patch.signature@, i),
        matches_at(image, patch.signature@, j),
        i != j,
        -192 <= d < patch.signature@.len() + 192,
    ensures
        192 <= i && i + patch.signature@.len() + 192 <= image.len(),
        image[i + d] == image[j + d],
{
    let sig = patch.signature@;
    let len = sig.len() as int;
    lemma_hits(image, sig, image.len() as int);
    let hits = hits_of(image, sig);
    assert(hits.contains(i) && hits.contains(j));
    let k = choose|k: int| 0 <= k < hits.len() && hits[k] == i;
    let l = choose|l: int| 0 <= l < hits.len() && hits[l] == j;
    assert(k != l && hits.len() > 1);
    assert(surroundings(image, hits[k], len)[d + 192] == image[i + d]);
    assert(surroundings(image, hits[l], len)[d + 192] == image[j + d]);
}

/// A patch whose signature stands in the image is refused only if it goes into
/// one place, and two places that it stands in are not surrounded alike.
pub proof fn law_a_patch_that_is_found_is_applied(image: Seq<u8>, patch: Patch, i: int)
    requires
        patch.signature@.len() > 0,
        matches_at(image, patch.signature@, i),
        patch.reach != Reach::Sole || (forall|j: int| #[trigger]
            matches_at(image, patch.signature@, j) ==> j == i) || (forall|j: int| #[trigger]
            matches_at(image, patch.signature@, j) ==> 192 <= j && j + patch.signature@.len() + 192
                <= image.len() && image.subrange(j - 192, j + patch.signature@.len() + 192)
                == image.subrange(i - 192, i + patch.signature@.len() + 192)),
    ensures
        refusal(image, patch) is None,
{
    let sig = patch.signature@;
    lemma_hits(image, sig, image.len() as int);
    let hits = hits_of(image, sig);
    assert(hits.contains(i));
    if patch.reach == Reach::Sole && hits.len() > 1 {
        assert(hits[0] < hits[1]);
        assert(matches_at(image, sig, hits[0]) && matches_at(image, sig, hits[1]));
    }
}

} // verus!
