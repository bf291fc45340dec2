//! A disk that costs no more than what is stored on it.
//!
//! A 32 GB disk is 32 GB of memory if it is held as bytes. Here it is held
//! sector by sector, and a sector that nothing was ever written to is not held
//! at all: it reads as zeroes.

use std::collections::BTreeMap;
use vstd::prelude::*;

verus! {

broadcast use vstd::std_specs::btree::group_btree_axioms;

pub struct SparseDisk {
    /// The sectors that have been written to, by number.
    pub sectors: BTreeMap<u64, [u8; 512]>,
    pub len: u64,
}

/// The byte at a place, if the sectors held are `sectors`.
pub open spec fn byte_at(sectors: Map<u64, [u8; 512]>, i: int) -> u8 {
    if sectors.contains_key((i / 512) as u64) {
        sectors[(i / 512) as u64][i % 512]
    } else {
        0
    }
}

impl View for SparseDisk {
    type V = Seq<u8>;

    open spec fn view(&self) -> Seq<u8> {
        Seq::new(self.len as nat, |i: int| byte_at(self.sectors@, i))
    }
}

impl SparseDisk {
    /// A disk with nothing on it.
    pub fn new(len: u64) -> (r: SparseDisk)
        ensures
            r@ == crate::bytes::zeroes(len as nat),
    {
        let r = SparseDisk { sectors: BTreeMap::new(), len };
        assert(r@ =~= crate::bytes::zeroes(len as nat));
        r
    }

    /// A sector, as it reads.
    fn sector(&self, n: u64) -> (r: [u8; 512])
        ensures
            forall|j: int|
                #![trigger r[j]]
                0 <= j < 512 ==> r[j] == byte_at(self.sectors@, 512 * n + j),
    {
        match self.sectors.get(&n) {
            Some(s) => *s,
            None => [0; 512],
        }
    }

    /// `len` bytes from `at` on. A read past the end is a read of what was
    /// never written, which is zeroes.
    pub fn read(&self, at: u64, len: usize) -> (r: Vec<u8>)
        ensures
            r@ == super::fat32::stretch(self@, at as int, len as nat),
    {
        let mut out: Vec<u8> = Vec::new();
        let mut i: usize = 0;
        while i < len
            invariant
                i <= len,
                out@ =~= super::fat32::stretch(self@, at as int, i as nat),
            decreases len - i,
        {
            if at >= self.len || i as u64 >= self.len - at {
                out.push(0);
                i = i + 1;
            } else {
                let place: u64 = at + i as u64;
                let held: [u8; 512] = self.sector(place / 512);
                let mut from: usize = (place % 512) as usize;
                let ghost start = i - from;
                while from < 512 && i < len && (i as u64) < self.len - at
                    invariant
                        from <= 512,
                        i <= len,
                        at < self.len,
                        i == start + from,
                        at + start == 512 * (place / 512),
                        forall|j: int|
                            #![trigger held[j]]
                            0 <= j < 512 ==> held[j] == byte_at(
                                self.sectors@,
                                512 * (place / 512) + j,
                            ),
                        out@ =~= super::fat32::stretch(self@, at as int, i as nat),
                    decreases len - i,
                {
                    assert(held[from as int] == byte_at(self.sectors@, at + i));
                    out.push(held[from]);
                    i = i + 1;
                    from = from + 1;
                }
            }
        }
        out
    }

    /// Write. What lies past the end of the disk is dropped.
    pub fn write(&mut self, at: u64, data: &[u8])
        ensures
            final(self)@ == crate::bytes::overlaid(old(self)@, at as int, data@),
            final(self).len == old(self).len,
    {
        let ghost start = self@;
        let mut i: usize = 0;
        while i < data.len() && at < self.len && (i as u64) < self.len - at
            invariant
                i <= data@.len(),
                self.len == old(self).len,
                start == old(self)@,
                self@ =~= crate::bytes::overlaid(start, at as int, data@.take(i as int)),
            decreases data.len() - i,
        {
            let ghost was = self@;
            let next: usize = self.fill_sector(at, data, i);
            assert forall|q: int| 0 <= q < self.len implies self@[q] == crate::bytes::overlaid(
                start,
                at as int,
                data@.take(next as int),
            )[q] by {
                assert(self@[q] == byte_at(self.sectors@, q));
                assert(was[q] == crate::bytes::overlaid(start, at as int, data@.take(i as int))[q]);
            }
            i = next;
        }
        assert(self@ =~= crate::bytes::overlaid(start, at as int, data@));
    }

    /// Put what belongs in one sector there, from byte `i` of the data on, and
    /// say how far that got.
    fn fill_sector(&mut self, at: u64, data: &[u8], i: usize) -> (r: usize)
        requires
            i < data@.len(),
            at + i < old(self).len,
        ensures
            i < r <= data@.len(),
            final(self).len == old(self).len,
            forall|q: int|
                0 <= q < old(self).len ==> #[trigger] byte_at(final(self).sectors@, q) == (if at + i
                    <= q < at + r {
                    data@[q - at]
                } else {
                    byte_at(old(self).sectors@, q)
                }),
    {
        let place: u64 = at + i as u64;
        let n: u64 = place / 512;
        let ghost before = self.sectors@;
        let was: [u8; 512] = self.sector(n);
        let mut held: [u8; 512] = was;
        let mut from: usize = (place % 512) as usize;
        let mut r: usize = i;
        let ghost first = from;
        while from < 512 && r < data.len()
            invariant
                first <= from <= 512,
                i <= r <= data@.len(),
                r - i == from - first,
                from > first || r == i,
                at + i + 512 - first == 512 * n + 512,
                at + i == place,
                forall|j: int|
                    #![trigger held[j]]
                    0 <= j < 512 ==> held[j] == (if first <= j < from {
                        data@[i + j - first]
                    } else {
                        was[j]
                    }),
            decreases 512 - from,
        {
            held[from] = data[r];
            from = from + 1;
            r = r + 1;
        }
        self.sectors.insert(n, held);
        proof {
            assert forall|q: int| 0 <= q < self.len implies #[trigger] byte_at(self.sectors@, q) == (
            if at + i <= q < at + r {
                data@[q - at]
            } else {
                byte_at(before, q)
            }) by {
                if q / 512 == n {
                    assert(held[q % 512] == held@[q % 512]);
                    assert(was[q % 512] == byte_at(before, 512 * n + q % 512));
                    assert(q == 512 * n + q % 512);
                } else {
                    assert((q / 512) as u64 != n);
                }
            }
        }
        r
    }

    /// Make the disk longer. What is new reads as zeroes.
    pub fn grow(&mut self, len: u64)
        requires
            old(self).len <= len,
        ensures
            final(self)@ == old(self)@ + crate::bytes::zeroes((len - old(self).len) as nat),
            final(self).len == len,
    {
        let ghost before = self.sectors@;
        let end: u64 = self.len;
        let mut n: u64 = end / 512;
        // Whatever stands behind the end was never part of the disk.
        while n <= len / 512
            invariant
                end / 512 <= n <= len / 512 + 1,
                self.len == end <= len,
                forall|q: int|
                    0 <= q < end ==> #[trigger] byte_at(self.sectors@, q) == byte_at(before, q),
                forall|q: int|
                    end <= q < 512 * n && q <= u64::MAX ==> #[trigger] byte_at(self.sectors@, q) == 0,
            decreases len / 512 + 1 - n,
        {
            self.clear_behind(n);
            n = n + 1;
        }
        self.len = len;
        assert(self@ =~= old(self)@ + crate::bytes::zeroes((len - old(self).len) as nat));
    }

    /// Clear what a sector holds behind the end of the disk.
    fn clear_behind(&mut self, n: u64)
        ensures
            final(self).len == old(self).len,
            forall|q: int|
                0 <= q <= u64::MAX ==> #[trigger] byte_at(final(self).sectors@, q) == (if q / 512 == n && q
                    >= old(self).len {
                    0
                } else {
                    byte_at(old(self).sectors@, q)
                }),
    {
        let ghost before = self.sectors@;
        if self.sectors.get(&n).is_none() {
            return ;
        }
        let was: [u8; 512] = self.sector(n);
        let mut held: [u8; 512] = was;
        let mut j: usize = 0;
        while j < 512
            invariant
                j <= 512,
                forall|k: int|
                    #![trigger held[k]]
                    0 <= k < 512 ==> held[k] == (if k < j && 512 * n + k >= self.len {
                        0
                    } else {
                        was[k]
                    }),
            decreases 512 - j,
        {
            if n > self.len / 512 || (n == self.len / 512 && j as u64 >= self.len % 512) {
                held[j] = 0;
            }
            j = j + 1;
        }
        self.sectors.insert(n, held);
        proof {
            assert forall|q: int| 0 <= q <= u64::MAX implies #[trigger] byte_at(self.sectors@, q) == (if q / 512
                == n && q >= self.len {
                0
            } else {
                byte_at(before, q)
            }) by {
                if q / 512 == n {
                    assert(held[q % 512] == held@[q % 512]);
                    assert(was[q % 512] == byte_at(before, 512 * n + q % 512));
                    assert(q == 512 * n + q % 512);
                }
            }
        }
    }
}

} // verus!
