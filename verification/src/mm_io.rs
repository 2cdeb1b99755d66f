//! Growable, fixed-stride record store over an owned byte region.
//!
//! The region plays the role of the mapped extent of a backing file:
//! offset-indexed typed reads and writes, golden-ratio growth rounded to the
//! record stride when an index falls outside the current bounds, and bytes
//! gained by growth logically zero.  All access is bounds-checked; a record's
//! byte offset is always `index * stride`.

use crate::bytes::{read_bytes, write_bytes};
use vstd::arithmetic::div_mod::{
    lemma_div_is_ordered,
    lemma_fundamental_div_mod,
    lemma_mod_division_less_than_divisor,
    lemma_mod_multiples_basic,
};
use vstd::arithmetic::mul::lemma_mul_inequality;
use vstd::prelude::*;

verus! {

/// Every region holds at least this many bytes; a shorter initial extent is
/// zero-padded up to it.
pub const MIN_SIZE: usize = 65536;

/// Failures of the record store and of the file handling around it.
#[derive(Debug, PartialEq, Eq, Structural)]
pub enum Error {
    /// The backing file could not be opened or extended.
    IoErr,
    /// The backing file could not be mapped or unmapped.
    MmapErr,
    /// The backing file's length cannot be represented by `usize`.
    TooLargeFile(u64),
    /// A read offset lies at or beyond the current extent.
    IndexOutOfBounds,
}

/// The required size scaled by the golden ratio (ceiling of `size * 1.618`),
/// rounded down to a multiple of the record stride.
pub open spec fn spec_next_size(size: int, block_size: int) -> int {
    ((size * 1618 + 999) / 1000) / block_size * block_size
}

/// Next extent after growth: golden-ratio scaling amortizes the cost of
/// repeated extension, stride rounding keeps index arithmetic exact.
pub fn next_size(size: usize, block_size: usize) -> (r: usize)
    requires
        block_size > 0,
        size * 1618 + 999 <= usize::MAX,
    ensures
        r == spec_next_size(size as int, block_size as int),
{
    let scaled = (size * 1618 + 999) / 1000;
    let quot = scaled / block_size;
    proof {
        lemma_fundamental_div_mod(scaled as int, block_size as int);
        lemma_mod_division_less_than_divisor(scaled as int, block_size as int);
        assert(quot == scaled as int / block_size as int);
        assert(scaled as int == block_size as int * (quot as int) + (scaled as int) % (
        block_size as int));
        assert(0 <= (scaled as int) % (block_size as int));
        assert(quot * block_size <= scaled);
    }
    quot * block_size
}

/// The scaled-and-rounded size stays a multiple of the stride and still
/// covers any stride-aligned requirement.
pub proof fn lemma_next_size_covers(size: int, block_size: int)
    requires
        block_size > 0,
        size >= 0,
        size % block_size == 0,
    ensures
        spec_next_size(size, block_size) >= size,
        spec_next_size(size, block_size) % block_size == 0,
{
    let scaled = (size * 1618 + 999) / 1000;
    assert(size * 1000 <= size * 1618 + 999) by (nonlinear_arith)
        requires
            size >= 0,
    ;
    lemma_div_is_ordered(size * 1000, size * 1618 + 999, 1000);
    assert((size * 1000) / 1000 == size) by {
        lemma_mod_multiples_basic(size, 1000);
        lemma_fundamental_div_mod(size * 1000, 1000);
        assert(size * 1000 == 1000 * ((size * 1000) / 1000)) by (nonlinear_arith)
            requires
                size * 1000 == 1000 * ((size * 1000) / 1000) + (size * 1000) % 1000,
                (size * 1000) % 1000 == 0,
        ;
        assert(size == (size * 1000) / 1000) by (nonlinear_arith)
            requires
                size * 1000 == 1000 * ((size * 1000) / 1000),
        ;
    }
    assert(scaled >= size);
    lemma_div_is_ordered(size, scaled, block_size);
    assert((size / block_size) * block_size == size) by {
        lemma_fundamental_div_mod(size, block_size);
        assert(size == block_size * (size / block_size)) by (nonlinear_arith)
            requires
                size == block_size * (size / block_size) + size % block_size,
                size % block_size == 0,
        ;
    }
    lemma_mul_inequality(size / block_size, scaled / block_size, block_size);
    lemma_mod_multiples_basic(scaled / block_size, block_size);
}

/// A read of `idx` is in bounds when the whole record lies inside the extent.
pub open spec fn read_ok(region: Seq<u8>, stride: int, idx: int) -> bool {
    (idx + 1) * stride <= region.len()
}

/// The bytes of record `idx`: the extent's window at offset `idx * stride`.
pub open spec fn record_of(region: Seq<u8>, stride: int, idx: int) -> Seq<u8> {
    region.subrange(idx * stride, (idx + 1) * stride)
}

/// The extent after the growth an insert at `idx` forces, if any: unchanged
/// when the record already fits, otherwise zero-extended to the next size,
/// as a sparse file extension leaves the intervening bytes logically zero.
pub open spec fn grown_region(region: Seq<u8>, stride: int, idx: int) -> Seq<u8> {
    if (idx + 1) * stride <= region.len() {
        region
    } else {
        region + Seq::new(
            (spec_next_size((idx + 1) * stride, stride) - region.len()) as nat,
            |i: int| 0u8,
        )
    }
}

/// The extent after inserting `rec` at `idx`: grown if needed, the record's
/// window overwritten, every other byte untouched.
pub open spec fn region_after_insert(
    region: Seq<u8>,
    stride: int,
    rec: Seq<u8>,
    idx: int,
) -> Seq<u8> {
    let g = grown_region(region, stride, idx);
    g.take(idx * stride) + rec + g.skip((idx + 1) * stride)
}

/// A growable, fixed-stride record store.  The owned byte region stands for
/// the mapped extent of the backing file; every access is bounds-checked and
/// addressed by explicit offsets.
pub struct Mapping {
    region: Vec<u8>,
    stride: usize,
}

impl Mapping {
    /// The fixed per-record byte size.
    pub closed spec fn stride_spec(self) -> int {
        self.stride as int
    }

    /// The current extent in bytes.
    pub closed spec fn size_spec(self) -> int {
        self.region@.len() as int
    }

    /// The bytes of the current extent.
    pub closed spec fn region_spec(self) -> Seq<u8> {
        self.region@
    }

    /// A positive stride, and an extent never below the minimum floor.
    pub closed spec fn wf(self) -> bool {
        self.stride > 0 && self.region@.len() >= MIN_SIZE
    }

    /// Establishes the store over the bytes of the backing file,
    /// zero-extending a short extent up to the minimum floor.
    pub fn new(contents: Vec<u8>, stride: usize) -> (m: Mapping)
        requires
            stride > 0,
        ensures
            m.wf(),
            m.stride_spec() == stride,
            contents@.len() >= MIN_SIZE ==> m.region_spec() == contents@,
            contents@.len() < MIN_SIZE ==> m.region_spec() == contents@ + Seq::new(
                (MIN_SIZE - contents@.len()) as nat,
                |i: int| 0u8,
            ),
    {
        let mut region = contents;
        let ghost orig = region@;
        while region.len() < MIN_SIZE
            invariant
                orig.len() <= region@.len(),
                orig.len() < MIN_SIZE ==> region@.len() <= MIN_SIZE,
                orig.len() >= MIN_SIZE ==> region@ == orig,
                region@.subrange(0, orig.len() as int) == orig,
                forall|j: int| orig.len() <= j < region@.len() ==> region@[j] == 0,
            decreases MIN_SIZE - region.len(),
        {
            region.push(0u8);
        }
        proof {
            if orig.len() < MIN_SIZE {
                assert(region@ =~= orig + Seq::new((MIN_SIZE - orig.len()) as nat, |i: int| 0u8));
            }
        }
        Mapping { region, stride }
    }

    /// Writes `record` at byte offset `idx * stride`, growing the extent
    /// first when the record would not fit.  Growth multiplies the required
    /// size by the golden ratio and rounds to the stride; the bytes it gains
    /// are zero.
    pub fn insert_at(&mut self, record: &Vec<u8>, idx: usize) -> (r: Result<(), Error>)
        requires
            old(self).wf(),
            record@.len() == old(self).stride_spec(),
            (idx + 1) * old(self).stride_spec() <= usize::MAX,
            old(self).size_spec() < (idx + 1) * old(self).stride_spec() ==> (idx + 1) * old(
                self,
            ).stride_spec() * 1618 + 999 <= usize::MAX,
        ensures
            r == Ok::<(), Error>(()),
            final(self).wf(),
            final(self).stride_spec() == old(self).stride_spec(),
            final(self).region_spec() == region_after_insert(
                old(self).region_spec(),
                old(self).stride_spec(),
                record@,
                idx as int,
            ),
            read_ok(final(self).region_spec(), final(self).stride_spec(), idx as int),
            record_of(final(self).region_spec(), final(self).stride_spec(), idx as int)
                == record@,
            old(self).size_spec() >= (idx + 1) * old(self).stride_spec() ==> final(self).size_spec()
                == old(self).size_spec(),
            old(self).size_spec() < (idx + 1) * old(self).stride_spec() ==> final(self).size_spec()
                >= (idx + 1) * old(self).stride_spec() && final(self).size_spec() % old(
                self,
            ).stride_spec() == 0,
    {
        let stride = self.stride;
        proof {
            lemma_mul_inequality(idx as int, idx as int + 1, stride as int);
            assert((idx as int + 1) * (stride as int) == idx as int * (stride as int)
                + stride as int) by (nonlinear_arith);
        }
        let off = idx * stride;
        let desired = off + stride;
        assert(desired == (idx + 1) * (stride as int));
        if self.region.len() < desired {
            let new_size = next_size(desired, stride);
            proof {
                lemma_mod_multiples_basic(idx as int + 1, stride as int);
                assert((idx as int + 1) * stride as int % (stride as int) == 0);
                lemma_next_size_covers(desired as int, stride as int);
            }
            let ghost old_region = self.region@;
            while self.region.len() < new_size
                invariant
                    self.stride == stride,
                    old_region == old(self).region@,
                    old_region.len() <= self.region@.len(),
                    self.region@.len() <= new_size,
                    old_region.len() < new_size,
                    self.region@.subrange(0, old_region.len() as int) == old_region,
                    forall|j: int|
                        old_region.len() <= j < self.region@.len() ==> self.region@[j] == 0,
                decreases new_size - self.region.len(),
            {
                self.region.push(0u8);
            }
            proof {
                assert(self.region@ =~= grown_region(
                    old(self).region@,
                    stride as int,
                    idx as int,
                ));
            }
        }
        proof {
            assert(self.region@ == grown_region(old(self).region@, stride as int, idx as int));
            assert(self.region@.len() >= desired);
        }
        let ghost g = self.region@;
        write_bytes(&mut self.region, off, record);
        proof {
            let after = region_after_insert(
                old(self).region@,
                stride as int,
                record@,
                idx as int,
            );
            assert forall|p: int| 0 <= p < g.len() implies self.region@[p] == after[p] by {
                if p < off {
                    assert(after[p] == g.take(off as int)[p]);
                } else if p < off + stride {
                    assert(self.region@.subrange(off as int, off + record@.len())[p - off]
                        == record@[p - off]);
                } else {
                    assert(after[p] == g.skip((idx as int + 1) * stride as int)[p - off - stride]);
                }
            }
            assert(self.region@ =~= after);
            assert(record_of(self.region@, stride as int, idx as int) =~= record@);
        }
        Ok(())
    }

    /// Reads record `idx`, failing with `IndexOutOfBounds` when any byte of
    /// the record lies at or beyond the current extent.  An in-bounds record
    /// that was never written reads back as stride many zero bytes.
    pub fn read_at(&self, idx: usize) -> (r: Result<Vec<u8>, Error>)
        requires
            self.wf(),
        ensures
            read_ok(self.region_spec(), self.stride_spec(), idx as int) ==> (r matches Ok(v)
                && v@ == record_of(self.region_spec(), self.stride_spec(), idx as int)),
            !read_ok(self.region_spec(), self.stride_spec(), idx as int) ==> r == Err::<
                Vec<u8>,
                Error,
            >(Error::IndexOutOfBounds),
    {
        let stride = self.stride;
        let len = self.region.len();
        let max_idx = len / stride;
        proof {
            lemma_fundamental_div_mod(len as int, stride as int);
            lemma_mod_division_less_than_divisor(len as int, stride as int);
            assert(stride as int * (max_idx as int) == max_idx as int * (stride as int))
                by (nonlinear_arith);
        }
        if idx > max_idx {
            proof {
                lemma_mul_inequality(max_idx as int + 1, idx as int, stride as int);
                assert((max_idx as int + 1) * (stride as int) == max_idx as int * (stride as int)
                    + stride as int) by (nonlinear_arith);
                assert((idx as int + 1) * (stride as int) == idx as int * (stride as int)
                    + stride as int) by (nonlinear_arith);
            }
            return Err(Error::IndexOutOfBounds);
        }
        proof {
            lemma_mul_inequality(idx as int, max_idx as int, stride as int);
            assert((idx as int + 1) * (stride as int) == idx as int * (stride as int)
                + stride as int) by (nonlinear_arith);
        }
        let off = idx * stride;
        if len - off < stride {
            return Err(Error::IndexOutOfBounds);
        }
        Ok(read_bytes(&self.region, off, stride))
    }

    /// The current extent in bytes.
    pub fn size(&self) -> (n: usize)
        ensures
            n == self.size_spec(),
    {
        self.region.len()
    }

    /// Hands the extent's bytes back, e.g. to persist them to the backing
    /// file.
    pub fn into_bytes(self) -> (b: Vec<u8>)
        ensures
            b@ == self.region_spec(),
    {
        self.region
    }
}

/// Inserting a record and then reading the same index yields a value
/// byte-identical to the record.
pub proof fn lemma_insert_then_read(region: Seq<u8>, stride: int, rec: Seq<u8>, idx: int)
    requires
        stride > 0,
        idx >= 0,
        rec.len() == stride,
    ensures
        read_ok(region_after_insert(region, stride, rec, idx), stride, idx),
        record_of(region_after_insert(region, stride, rec, idx), stride, idx) == rec,
{
    let g = grown_region(region, stride, idx);
    let r2 = region_after_insert(region, stride, rec, idx);
    let off = idx * stride;
    assert(idx * stride >= 0) by (nonlinear_arith)
        requires
            idx >= 0,
            stride > 0,
    ;
    assert((idx + 1) * stride == idx * stride + stride) by (nonlinear_arith);
    if (idx + 1) * stride > region.len() {
        lemma_mod_multiples_basic(idx + 1, stride);
        lemma_next_size_covers((idx + 1) * stride, stride);
    }
    assert(g.len() >= (idx + 1) * stride);
    assert(g.take(off).len() == off);
    assert(g.skip(off + stride).len() == g.len() - off - stride);
    assert(r2.len() == g.len());
    assert forall|k: int| 0 <= k < stride implies r2[off + k] == rec[k] by {
        assert(g.take(off).len() == off);
    }
    assert(record_of(r2, stride, idx) =~= rec);
}

/// A read whose byte offset lies at or beyond the current extent fails,
/// regardless of prior writes.
pub proof fn lemma_read_out_of_bounds(region: Seq<u8>, stride: int, idx: int)
    requires
        stride > 0,
        idx >= 0,
        idx * stride >= region.len(),
    ensures
        !read_ok(region, stride, idx),
{
    assert((idx + 1) * stride == idx * stride + stride) by (nonlinear_arith);
}

/// Inserting at one index, growth included, never changes the record read
/// at any other index that was readable before.
pub proof fn lemma_insert_preserves_others(
    region: Seq<u8>,
    stride: int,
    rec: Seq<u8>,
    idx: int,
    j: int,
)
    requires
        stride > 0,
        idx >= 0,
        j >= 0,
        j != idx,
        rec.len() == stride,
        read_ok(region, stride, j),
    ensures
        read_ok(region_after_insert(region, stride, rec, idx), stride, j),
        record_of(region_after_insert(region, stride, rec, idx), stride, j) == record_of(
            region,
            stride,
            j,
        ),
{
    let g = grown_region(region, stride, idx);
    let r2 = region_after_insert(region, stride, rec, idx);
    let off = idx * stride;
    assert(idx * stride >= 0) by (nonlinear_arith)
        requires
            idx >= 0,
            stride > 0,
    ;
    assert((idx + 1) * stride == idx * stride + stride) by (nonlinear_arith);
    assert(j * stride >= 0) by (nonlinear_arith)
        requires
            j >= 0,
            stride > 0,
    ;
    if (idx + 1) * stride > region.len() {
        lemma_mod_multiples_basic(idx + 1, stride);
        lemma_next_size_covers((idx + 1) * stride, stride);
    }
    assert(g.len() >= (idx + 1) * stride);
    assert(g.len() >= region.len());
    assert(forall|p: int| 0 <= p < region.len() ==> g[p] == region[p]);
    assert(g.take(off).len() == off);
    assert(g.skip(off + stride).len() == g.len() - off - stride);
    assert(r2.len() == g.len());
    if j < idx {
        lemma_mul_inequality(j + 1, idx, stride);
    } else {
        lemma_mul_inequality(idx + 1, j, stride);
    }
    assert forall|k: int| 0 <= k < stride implies #[trigger] r2[j * stride + k] == region[j
        * stride + k] by {
        let p = j * stride + k;
        assert((j + 1) * stride == j * stride + stride) by (nonlinear_arith);
        assert(p < region.len());
        if j < idx {
            assert(p < off);
            assert(r2[p] == g.take(off)[p]);
        } else {
            assert(off + stride <= p);
            assert(r2[p] == g.skip((idx + 1) * stride)[p - off - stride]);
        }
    }
    assert((j + 1) * stride == j * stride + stride) by (nonlinear_arith);
    assert(record_of(r2, stride, j) =~= record_of(region, stride, j));
}

/// Checks that a backing file's length is representable by the addressable
/// size type.
pub fn check_file_size(len: u64) -> (r: Result<usize, Error>)
    ensures
        len <= usize::MAX ==> r == Ok::<usize, Error>(len as usize),
        len > usize::MAX ==> r == Err::<usize, Error>(Error::TooLargeFile(len)),
{
    if len > usize::MAX as u64 {
        Err(Error::TooLargeFile(len))
    } else {
        Ok(len as usize)
    }
}

} // verus!
