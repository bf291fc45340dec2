//! A Windows CE image: records of bytes with the addresses they belong at.

use vstd::prelude::*;

verus! {

/// One stretch of an image.
pub struct ImageRecord {
    /// Where it is linked to lie.
    pub addr: u32,
    pub data: Vec<u8>,
}

/// A Windows CE image, taken apart into its records.
pub struct CeImage {
    /// The address the image starts at.
    pub base: u32,
    /// The address execution starts at.
    pub launch: u32,
    pub records: Vec<ImageRecord>,
}

impl CeImage {
    /// How many bytes the first `n` records hold.
    pub open spec fn total(self, n: int) -> int
        decreases n,
    {
        if n <= 0 {
            0
        } else {
            self.total(n - 1) + self.records[n - 1].data@.len()
        }
    }

    /// The records are of a size that an image in memory can have: none ends
    /// past what 64 bits can hold, and together they fit the address space.
    pub open spec fn sized(self) -> bool {
        &&& self.total(self.records@.len() as int) <= usize::MAX
        &&& forall|i: int|
            0 <= i < self.records@.len() ==> #[trigger] self.records[i].data@.len() + 0xFFFF_FFFF
                <= u64::MAX
    }

    pub proof fn lemma_total(self, i: int, n: int)
        requires
            0 <= i <= n <= self.records@.len(),
        ensures
            0 <= self.total(i) <= self.total(n),
        decreases n,
    {
        if i < n {
            self.lemma_total(i, n - 1);
        } else if i > 0 {
            self.lemma_total(i - 1, n - 1);
        }
    }

    /// The lowest address of the first `n` records, if there are any.
    pub open spec fn lowest(self, n: int) -> int
        decreases n,
    {
        if n <= 0 {
            0
        } else if n == 1 || self.records[n - 1].addr < self.lowest(n - 1) {
            self.records[n - 1].addr as int
        } else {
            self.lowest(n - 1)
        }
    }

    /// The end of the record that reaches furthest, of the first `n`.
    pub open spec fn highest(self, n: int) -> int
        decreases n,
    {
        if n <= 0 {
            0
        } else {
            let end = self.records[n - 1].addr + self.records[n - 1].data@.len();
            if n == 1 || end > self.highest(n - 1) {
                end
            } else {
                self.highest(n - 1)
            }
        }
    }

    /// The addresses the records cover, from the lowest start to the highest
    /// end; nothing for an image without records.
    pub fn extent(&self) -> (r: Option<(u64, u64)>)
        requires
            self.sized(),
        ensures
            match r {
                Some((lo, hi)) => self.records@.len() > 0 && lo == self.lowest(
                    self.records@.len() as int,
                ) && hi == self.highest(self.records@.len() as int),
                None => self.records@.len() == 0,
            },
    {
        if self.records.len() == 0 {
            return None;
        }
        let mut lo: u64 = self.records[0].addr as u64;
        let mut hi: u64 = self.end_of(0);
        let mut i: usize = 1;
        while i < self.records.len()
            invariant
                1 <= i <= self.records.len(),
                self.sized(),
                lo == self.lowest(i as int),
                hi == self.highest(i as int),
            decreases self.records.len() - i,
        {
            let start: u64 = self.records[i].addr as u64;
            if start < lo {
                lo = start;
            }
            let end: u64 = self.end_of(i);
            if end > hi {
                hi = end;
            }
            i = i + 1;
        }
        Some((lo, hi))
    }

    fn end_of(&self, i: usize) -> (r: u64)
        requires
            i < self.records.len(),
            self.sized(),
        ensures
            r == self.records[i as int].addr + self.records[i as int].data@.len(),
    {
        self.records[i].addr as u64 + self.records[i].data.len() as u64
    }
}

/// The extent of an image reaches from the lowest start of a record to the
/// furthest end of one: every record lies within it, and there is a record at
/// each of its ends.
pub proof fn law_the_extent_is_tight(image: CeImage, n: int)
    requires
        0 < n <= image.records@.len(),
    ensures
        forall|i: int|
            0 <= i < n ==> image.lowest(n) <= (#[trigger] image.records[i]).addr
                && image.records[i].addr + image.records[i].data@.len() <= image.highest(n),
        exists|i: int|
            0 <= i < n && (#[trigger] image.records[i]).addr == image.lowest(n),
        exists|i: int|
            0 <= i < n && (#[trigger] image.records[i]).addr + image.records[i].data@.len()
                == image.highest(n),
    decreases n,
{
    if n > 1 {
        law_the_extent_is_tight(image, n - 1);
    }
    assert(image.records[n - 1].addr >= image.lowest(n));
}

} // verus!
