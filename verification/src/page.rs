//! Self-contained, fixed-size slotted page.
//!
//! One page is a single byte blob: a header holding the slot counter and the
//! low-water free-space boundary, a directory of fixed-width record offsets
//! growing forward from the header, and variable-length record bytes packed
//! backward from the page's end.  Header and directory are read and written
//! only through explicit little-endian byte-range accessors; a directory
//! entry, once written, is immutable, and slots are never reclaimed.

use crate::bytes::{get_u16_le, read_bytes, set_u16_le, u16_le, write_bytes};
use vstd::prelude::*;

verus! {

/// Total size of a page in bytes.
pub const PAGE_SIZE: usize = 8192;

/// Width in bytes of one directory entry (a record's offset).
pub const OFFSET_SIZE: usize = 2;

/// The header: slot counter and free-space boundary, one offset-width each.
pub const PAGE_HEADER_SIZE: usize = 4;

/// Bytes available past the header for directory entries and record data.
pub const DATA_SIZE: usize = PAGE_SIZE - PAGE_HEADER_SIZE;

/// Failures of the slotted page.
#[derive(Debug, PartialEq, Eq, Structural)]
pub enum Error {
    /// The item plus one directory entry exceed the page's free span.
    NotEnoughSpace,
}

/// A fixed-size slotted page over one owned byte blob.
pub struct Page {
    data: Vec<u8>,
}

impl Page {
    /// Number of slots handed out so far: the header's monotonically
    /// incrementing counter.
    pub closed spec fn count(self) -> int {
        u16_le(self.data@, 0)
    }

    /// The low-water free-space boundary: record bytes occupy
    /// `[low, PAGE_SIZE)`.
    pub closed spec fn low(self) -> int {
        u16_le(self.data@, 2)
    }

    /// Directory entry `i`: the byte offset of record `i`.
    pub closed spec fn dir_entry(self, i: int) -> int {
        u16_le(self.data@, 4 + 2 * i)
    }

    /// Where record `i` ends: the previous record's offset, or the page's
    /// end for the first record.
    pub closed spec fn slot_end(self, i: int) -> int {
        if i == 0 {
            PAGE_SIZE as int
        } else {
            self.dir_entry(i - 1)
        }
    }

    /// The bytes of record `i`.
    pub closed spec fn record(self, i: int) -> Seq<u8> {
        self.data@.subrange(self.dir_entry(i), self.slot_end(i))
    }

    /// The records added so far, in slot order.
    pub closed spec fn records(self) -> Seq<Seq<u8>> {
        Seq::new(self.count() as nat, |i: int| self.record(i))
    }

    /// The free span: from the directory's write position up to the
    /// free-space boundary.
    pub closed spec fn free_space(self) -> int {
        self.low() - (4 + 2 * self.count())
    }

    /// The page's raw bytes.
    pub closed spec fn blob(self) -> Seq<u8> {
        self.data@
    }

    /// Structural soundness of header and directory: the directory never
    /// crosses the boundary, offsets descend from the page's end, and the
    /// last entry sits exactly at the boundary.
    pub closed spec fn wf(self) -> bool {
        &&& self.data@.len() == PAGE_SIZE
        &&& 4 + 2 * self.count() <= self.low() <= PAGE_SIZE as int
        &&& (self.count() == 0 ==> self.low() == PAGE_SIZE as int)
        &&& (self.count() > 0 ==> self.dir_entry(self.count() - 1) == self.low())
        &&& forall|i: int|
            0 <= i < self.count() ==> self.low() <= #[trigger] self.dir_entry(i)
                && self.dir_entry(i) <= self.slot_end(i) && self.slot_end(i) <= PAGE_SIZE as int
    }

    /// The page's fixed byte size.
    pub fn size(&self) -> (n: usize)
        ensures
            n == PAGE_SIZE,
    {
        PAGE_SIZE
    }

    /// Borrows the page's raw bytes, e.g. to store the whole page as one
    /// record of a fixed-stride store.
    pub fn as_bytes(&self) -> (b: &Vec<u8>)
        ensures
            b@ == self.blob(),
    {
        &self.data
    }

    /// Carves `item` out of the top of the free region, appends a directory
    /// entry holding its new offset, and returns the slot index, which
    /// increases by exactly one per successful call, starting at zero.
    /// Fails with `NotEnoughSpace`, leaving the page untouched, exactly when
    /// the item plus one directory entry exceed the free span.
    pub fn add(&mut self, item: &Vec<u8>) -> (r: Result<usize, Error>)
        requires
            old(self).wf(),
        ensures
            final(self).wf(),
            item@.len() + 2 <= old(self).free_space() ==> ({
                &&& r == Ok::<usize, Error>(old(self).count() as usize)
                &&& final(self).count() == old(self).count() + 1
                &&& final(self).records() == old(self).records().push(item@)
                &&& final(self).low() == old(self).low() - item@.len()
                &&& final(self).free_space() == old(self).free_space() - item@.len() - 2
            }),
            item@.len() + 2 > old(self).free_space() ==> ({
                &&& r == Err::<usize, Error>(Error::NotEnoughSpace)
                &&& *final(self) == *old(self)
            }),
    {
        let count = get_u16_le(&self.data, 0);
        let low = get_u16_le(&self.data, 2);
        let dir_end = 4 + 2 * (count as usize);
        let free = (low as usize) - dir_end;
        let item_size = item.len();

        if free < 2 || item_size > free - 2 {
            return Err(Error::NotEnoughSpace);
        }

        let new_low = (low as usize) - item_size;
        let ghost d0 = self.data@;
        let ghost prior = *self;

        write_bytes(&mut self.data, new_low, item);
        let ghost d1 = self.data@;
        set_u16_le(&mut self.data, dir_end, new_low as u16);
        let ghost d2 = self.data@;
        set_u16_le(&mut self.data, 0, count + 1);
        let ghost d3 = self.data@;
        set_u16_le(&mut self.data, 2, new_low as u16);

        proof {
            let d4 = self.data@;
            let cnt0 = prior.count();
            let low0 = prior.low();
            let de = 4 + 2 * cnt0;
            let nl = new_low as int;

            // Bytes below the new directory entry and at or above the old
            // boundary are untouched by all four writes.
            assert forall|b: int| 4 <= b < de || low0 <= b < PAGE_SIZE implies d4[b] == d0[b] by {
                assert(d1[b] == d0[b]);
                assert(d2[b] == d1[b]);
                assert(d3[b] == d2[b]);
                assert(d4[b] == d3[b]);
            }
            // The item's window keeps what the first write put there.
            assert forall|b: int| nl <= b < low0 implies d4[b] == d1[b] by {
                assert(d2[b] == d1[b]);
                assert(d3[b] == d2[b]);
                assert(d4[b] == d3[b]);
            }
            // Header fields of the final page.
            assert(d4[0] == d3[0] && d4[1] == d3[1]);
            assert(self.count() == cnt0 + 1);
            assert(self.low() == nl);
            // The new directory entry survives the header writes.
            assert(d3[de] == d2[de] && d3[de + 1] == d2[de + 1]);
            assert(d4[de] == d3[de] && d4[de + 1] == d3[de + 1]);
            assert(self.dir_entry(cnt0) == nl);
            // Old directory entries are untouched.
            assert forall|i: int| 0 <= i < cnt0 implies #[trigger] self.dir_entry(i)
                == prior.dir_entry(i) by {
                assert(d4[4 + 2 * i] == d0[4 + 2 * i]);
                assert(d4[4 + 2 * i + 1] == d0[4 + 2 * i + 1]);
            }
            // Old records are untouched.
            assert forall|i: int| 0 <= i < cnt0 implies #[trigger] self.record(i) == prior.record(
                i,
            ) by {
                assert(self.slot_end(i) == prior.slot_end(i));
                assert forall|b: int|
                    prior.dir_entry(i) <= b < prior.slot_end(i) implies d4[b] == d0[b] by {}
                assert(self.record(i) =~= prior.record(i));
            }
            // The new slot holds exactly the item's bytes.
            assert(self.slot_end(cnt0) == low0);
            assert(d1.subrange(nl, nl + item@.len()) == item@);
            assert forall|k: int| 0 <= k < item@.len() implies d4[nl + k] == item@[k] by {
                assert(d4[nl + k] == d1[nl + k]);
                assert(d1[nl + k] == d1.subrange(nl, nl + item@.len())[k]);
            }
            assert(self.record(cnt0) =~= item@);
            assert(self.records() =~= prior.records().push(item@));
        }
        Ok(count as usize)
    }

    /// Returns the record at the offset the directory stores for
    /// `slot_index`, or nothing for an index no `add` has handed out.
    pub fn get(&self, slot_index: usize) -> (r: Option<Vec<u8>>)
        requires
            self.wf(),
        ensures
            slot_index < self.records().len() ==> (r matches Some(v) && v@ == self.records()[
                slot_index as int]),
            slot_index >= self.records().len() ==> r is None,
    {
        let count = get_u16_le(&self.data, 0);
        if slot_index >= count as usize {
            return None;
        }
        proof {
            let si = slot_index as int;
            assert(self.low() <= self.dir_entry(si));
            assert(self.dir_entry(si) <= self.slot_end(si));
            assert(self.slot_end(si) <= PAGE_SIZE as int);
        }
        let off = get_u16_le(&self.data, 4 + 2 * slot_index) as usize;
        let end = if slot_index == 0 {
            PAGE_SIZE
        } else {
            get_u16_le(&self.data, 4 + 2 * (slot_index - 1)) as usize
        };
        proof {
            let si = slot_index as int;
            assert(end == self.slot_end(si));
            assert(self.records()[si] == self.record(si));
        }
        Some(read_bytes(&self.data, off, end - off))
    }
}

impl Default for Page {
    /// A zero-filled page: the free-space boundary starts at the page's end
    /// and the slot counter at zero.
    fn default() -> (p: Page)
        ensures
            p.wf(),
            p.count() == 0,
            p.low() == PAGE_SIZE as int,
            p.free_space() == DATA_SIZE as int,
            p.records() == Seq::<Seq<u8>>::empty(),
    {
        let mut data: Vec<u8> = Vec::new();
        let mut i: usize = 0;
        while i < PAGE_SIZE
            invariant
                data@.len() == i,
                i <= PAGE_SIZE,
                forall|j: int| 0 <= j < i ==> data@[j] == 0,
            decreases PAGE_SIZE - i,
        {
            data.push(0u8);
            i = i + 1;
        }
        set_u16_le(&mut data, 2, PAGE_SIZE as u16);
        let p = Page { data };
        proof {
            assert(p.count() == 0);
            assert(p.records() =~= Seq::<Seq<u8>>::empty());
        }
        p
    }
}

/// A record added at the slot `add` returned reads back byte-identical, and
/// every record that was readable before is readable unchanged: one `add`
/// only appends to the slot sequence.
pub proof fn lemma_add_then_get(before: Page, after: Page, item: Seq<u8>)
    requires
        after.records() == before.records().push(item),
    ensures
        after.records()[before.records().len() as int] == item,
        forall|i: int|
            0 <= i < before.records().len() ==> after.records()[i] == before.records()[i],
{
}

} // verus!
