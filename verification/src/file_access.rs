//! Random access and forward iteration over a fixed-width integer array
//! taken from a region of an index image.

use vstd::prelude::*;

use crate::types::{IntWidth, SufrError};
use crate::util::le_value_at;

verus! {

/// A logical array of `count` integers of one width, decoded on demand
/// from the bytes of its region, with a restartable forward cursor.
#[derive(Debug)]
pub struct FileAccess {
    data: Vec<u8>,
    width: IntWidth,
    count: usize,
    pos: usize,
}

impl View for FileAccess {
    type V = Seq<u64>;

    closed spec fn view(&self) -> Seq<u64> {
        Seq::new(self.count as nat, |i: int| le_value_at(self.data@, self.width, i))
    }
}

impl FileAccess {
    /// Structural well-formedness: the byte region is exactly as long as
    /// the array it stores, and the cursor is inside it.
    pub closed spec fn wf(self) -> bool {
        &&& self.data@.len() == self.count * self.width.spec_bytes()
        &&& self.pos <= self.count
    }

    /// Position of the forward cursor.
    pub closed spec fn spec_pos(self) -> nat {
        self.pos as nat
    }

    pub closed spec fn spec_width(self) -> IntWidth {
        self.width
    }

    /// Carves the array of `count` integers of width `w` out of `image`,
    /// starting at byte `base_offset`.
    pub fn new(image: &[u8], base_offset: usize, count: usize, w: IntWidth) -> (r: Result<
        FileAccess,
        SufrError,
    >)
        ensures
            r is Ok <==> base_offset + count * w.spec_bytes() <= image@.len(),
            r is Err ==> r.unwrap_err() == SufrError::MalformedHeader,
            r is Ok ==> {
                let f = r.unwrap();
                &&& f.wf()
                &&& f.spec_width() == w
                &&& f.spec_pos() == 0
                &&& f@.len() == count
                &&& forall|i: int|
                    0 <= i < count ==> f@[i] == le_value_at(
                        image@.subrange(
                            base_offset as int,
                            base_offset + count * w.spec_bytes(),
                        ),
                        w,
                        i,
                    )
            },
    {
        let img_len: usize = image.len();
        let wb: usize = w.bytes();
        let size: usize = match count.checked_mul(wb) {
            Some(s) => s,
            None => {
                return Err(SufrError::MalformedHeader);
            },
        };
        let end: usize = match base_offset.checked_add(size) {
            Some(e) => e,
            None => {
                return Err(SufrError::MalformedHeader);
            },
        };
        if end > image.len() {
            return Err(SufrError::MalformedHeader);
        }
        let region = vstd::slice::slice_subrange(image, base_offset, end);
        let data = vstd::slice::slice_to_vec(region);
        let f = FileAccess { data, width: w, count, pos: 0 };
        proof {
            assert forall|i: int| 0 <= i < count implies f@[i] == le_value_at(
                image@.subrange(base_offset as int, base_offset + count * w.spec_bytes()),
                w,
                i,
            ) by {
                lemma_le_value_at_agree(
                    f.data@,
                    image@.subrange(base_offset as int, base_offset + count * w.spec_bytes()),
                    w,
                    i,
                );
            }
        }
        Ok(f)
    }

    /// Number of bytes the array occupies.
    pub fn size(&self) -> (n: usize)
        requires
            self.wf(),
        ensures
            n == self@.len() * self.spec_width().spec_bytes(),
    {
        self.data.len()
    }

    /// Number of stored integers.
    pub fn count(&self) -> (n: usize)
        ensures
            n == self@.len(),
    {
        self.count
    }

    /// The `i`-th value, or `None` past the end.
    pub fn get(&self, i: usize) -> (r: Option<u64>)
        requires
            self.wf(),
        ensures
            r == if i < self@.len() {
                Some(self@[i as int])
            } else {
                None::<u64>
            },
    {
        if i < self.count {
            Some(self.value_at(i))
        } else {
            None
        }
    }

    /// The `i`-th value of an index known to be inside the array.
    pub fn at(&self, i: usize) -> (r: u64)
        requires
            self.wf(),
            i < self@.len(),
        ensures
            r == self@[i as int],
    {
        self.value_at(i)
    }

    fn value_at(&self, i: usize) -> (r: u64)
        requires
            self.wf(),
            i < self@.len(),
        ensures
            r == self@[i as int],
    {
        let wb: usize = self.width.bytes();
        let dlen: usize = self.data.len();
        proof {
            assert((i + 1) * self.width.spec_bytes() <= self.count * self.width.spec_bytes())
                by (nonlinear_arith)
                requires
                    i + 1 <= self.count,
                    self.width.spec_bytes() >= 0,
            ;
            assert(i * self.width.spec_bytes() + self.width.spec_bytes() == (i + 1)
                * self.width.spec_bytes()) by (nonlinear_arith);
            assert(i * self.width.spec_bytes() >= 0) by (nonlinear_arith)
                requires
                    i >= 0,
                    self.width.spec_bytes() >= 0,
            ;
        }
        let start: usize = i * wb;
        match self.width {
            IntWidth::U32 => vstd::bytes::u32_from_le_bytes(
                vstd::slice::slice_subrange(self.data.as_slice(), start, start + 4),
            ) as u64,
            IntWidth::U64 => vstd::bytes::u64_from_le_bytes(
                vstd::slice::slice_subrange(self.data.as_slice(), start, start + 8),
            ),
        }
    }

    /// The block of values with ranks `start .. end`; `InvalidRange` when
    /// the bounds are reversed or reach past the end.
    pub fn get_range(&self, start: usize, end: usize) -> (r: Result<Vec<u64>, SufrError>)
        requires
            self.wf(),
        ensures
            r is Ok <==> start <= end && end <= self@.len(),
            r is Err ==> r.unwrap_err() == SufrError::InvalidRange(start, end),
            r is Ok ==> r.unwrap()@ == self@.subrange(start as int, end as int),
    {
        if start > end || end > self.count {
            return Err(SufrError::InvalidRange(start, end));
        }
        let mut out: Vec<u64> = Vec::with_capacity(end - start);
        let mut i: usize = start;
        while i < end
            invariant
                start <= i <= end,
                end <= self@.len(),
                self.wf(),
                out@ == self@.subrange(start as int, i as int),
            decreases end - i,
        {
            out.push(self.value_at(i));
            assert(out@ =~= self@.subrange(start as int, i + 1));
            i = i + 1;
        }
        Ok(out)
    }

    /// The next value under the forward cursor, or `None` at the end.
    pub fn next(&mut self) -> (r: Option<u64>)
        requires
            old(self).wf(),
        ensures
            final(self).wf(),
            final(self)@ == old(self)@,
            final(self).spec_width() == old(self).spec_width(),
            r == if old(self).spec_pos() < old(self)@.len() {
                Some(old(self)@[old(self).spec_pos() as int])
            } else {
                None::<u64>
            },
            final(self).spec_pos() == if old(self).spec_pos() < old(self)@.len() {
                old(self).spec_pos() + 1
            } else {
                old(self).spec_pos()
            },
    {
        if self.pos < self.count {
            let v = self.value_at(self.pos);
            self.pos = self.pos + 1;
            Some(v)
        } else {
            None
        }
    }

    /// Restarts the forward cursor at rank 0.
    pub fn reset(&mut self)
        requires
            old(self).wf(),
        ensures
            final(self).wf(),
            final(self)@ == old(self)@,
            final(self).spec_width() == old(self).spec_width(),
            final(self).spec_pos() == 0,
    {
        self.pos = 0;
    }
}

/// Two byte stores that agree on a width-`w` cell decode it alike.
proof fn lemma_le_value_at_agree(a: Seq<u8>, b: Seq<u8>, w: IntWidth, i: int)
    requires
        a.len() == b.len(),
        0 <= i,
        i * w.spec_bytes() + w.spec_bytes() <= a.len(),
        forall|j: int| 0 <= j < a.len() ==> a[j] == b[j],
    ensures
        le_value_at(a, w, i) == le_value_at(b, w, i),
{
    assert(i * w.spec_bytes() >= 0) by (nonlinear_arith)
        requires
            i >= 0,
            w.spec_bytes() >= 0,
    ;
    match w {
        IntWidth::U32 => {
            assert(a.subrange(4 * i, 4 * i + 4) =~= b.subrange(4 * i, 4 * i + 4));
        },
        IntWidth::U64 => {
            assert(a.subrange(8 * i, 8 * i + 8) =~= b.subrange(8 * i, 8 * i + 8));
        },
    }
}

} // verus!
