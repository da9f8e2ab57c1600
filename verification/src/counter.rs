//! The counter bank of the memory: a flat matrix of saturating signed
//! counters, one row per hard location and one column per bit position of the
//! address width. All mutation of the memory funnels through `input`, which
//! moves each counter of one row one step toward the bit written there,
//! clamping at the representable bounds instead of wrapping.

use vstd::prelude::*;

use crate::bittable::BitTable;
use crate::errors::SdmError;

verus! {

/// One saturating step of a counter: up when the input bit is one, down when
/// it is zero, clamped at the bounds of `i16`.
pub open spec fn sat_bump(c: i16, up: bool) -> i16 {
    if up {
        if c == i16::MAX {
            c
        } else {
            (c + 1) as i16
        }
    } else {
        if c == i16::MIN {
            c
        } else {
            (c - 1) as i16
        }
    }
}

/// The flat position of the counter of location `index` at bit position `i`,
/// for rows of `width` columns.
pub fn pos(index: usize, i: usize, width: usize) -> (r: usize)
    requires
        index * width + i <= usize::MAX,
    ensures
        r == index * width + i,
{
    index * width + i
}

/// The counter matrix for a set of hard locations. Its view is the flat
/// sequence of counters, row after row.
pub struct Counter {
    hl: usize,
    w: usize,
    v: Vec<i16>,
}

impl View for Counter {
    type V = Seq<i16>;

    closed spec fn view(&self) -> Seq<i16> {
        self.v@
    }
}

impl Counter {
    /// The matrix holds exactly one counter per location and bit position.
    pub closed spec fn wf(&self) -> bool {
        self.v@.len() == self.hl * self.w
    }

    /// The number of hard locations (rows).
    pub closed spec fn spec_hardloc(&self) -> int {
        self.hl as int
    }

    /// The number of bit positions per location (columns).
    pub closed spec fn spec_width(&self) -> int {
        self.w as int
    }

    /// A well-formed matrix holds exactly `hardloc * width` counters.
    pub proof fn lemma_wf_len(&self)
        requires
            self.wf(),
        ensures
            self@.len() == self.spec_hardloc() * self.spec_width(),
    {
    }

    /// An all-zero matrix of `hardloc` rows and `width` columns.
    pub fn new(hardloc: usize, width: usize) -> (r: Counter)
        requires
            hardloc * width <= usize::MAX,
        ensures
            r.wf(),
            r.spec_hardloc() == hardloc,
            r.spec_width() == width,
            r@.len() == hardloc * width,
            forall|m: int| 0 <= m < r@.len() ==> r@[m] == 0i16,
    {
        let total = hardloc * width;
        let mut v: Vec<i16> = Vec::new();
        while v.len() < total
            invariant
                v@.len() <= total,
                forall|m: int| 0 <= m < v@.len() ==> v@[m] == 0i16,
            decreases total - v@.len(),
        {
            v.push(0i16);
        }
        Counter { hl: hardloc, w: width, v }
    }

    /// The total number of counters held.
    pub fn len(&self) -> (r: usize)
        ensures
            r == self@.len(),
    {
        self.v.len()
    }

    /// The counter of location `index` at bit position `i`;
    /// `IndexOutOfRange` when either coordinate is out of bounds.
    pub fn get(&self, index: usize, i: usize) -> (r: Result<i16, SdmError>)
        requires
            self.wf(),
        ensures
            index < self.spec_hardloc() && i < self.spec_width() ==> r == Ok::<i16, SdmError>(
                self@[index * self.spec_width() + i],
            ),
            !(index < self.spec_hardloc() && i < self.spec_width()) ==> r == Err::<i16, SdmError>(
                SdmError::IndexOutOfRange,
            ),
    {
        if index >= self.hl || i >= self.w {
            return Err(SdmError::IndexOutOfRange);
        }
        proof {
            vstd::std_specs::vec::axiom_spec_len(&self.v);
            assert(index * self.w + i < self.hl * self.w) by (nonlinear_arith)
                requires
                    index < self.hl,
                    i < self.w,
            ;
        }
        Ok(self.v[index * self.w + i])
    }

    /// Move the counter of location `index` at bit position `i` one
    /// saturating step: up when `b` is one, down when it is zero, clamped at
    /// the bounds of `i16` — never a wraparound. `IndexOutOfRange` when
    /// either coordinate is out of bounds, and the matrix is then unchanged.
    pub fn set(&mut self, index: usize, i: usize, b: bool) -> (r: Result<(), SdmError>)
        requires
            old(self).wf(),
        ensures
            final(self).wf(),
            final(self).spec_hardloc() == old(self).spec_hardloc(),
            final(self).spec_width() == old(self).spec_width(),
            final(self)@.len() == old(self)@.len(),
            index < old(self).spec_hardloc() && i < old(self).spec_width() ==> r == Ok::<
                (),
                SdmError,
            >(()) && final(self)@ == old(self)@.update(
                index * old(self).spec_width() + i,
                sat_bump(old(self)@[index * old(self).spec_width() + i], b),
            ),
            !(index < old(self).spec_hardloc() && i < old(self).spec_width()) ==> r == Err::<
                (),
                SdmError,
            >(SdmError::IndexOutOfRange) && final(self)@ == old(self)@,
    {
        if index >= self.hl || i >= self.w {
            return Err(SdmError::IndexOutOfRange);
        }
        proof {
            vstd::std_specs::vec::axiom_spec_len(&self.v);
            assert(index * self.w + i < self.hl * self.w) by (nonlinear_arith)
                requires
                    index < self.hl,
                    i < self.w,
            ;
        }
        let p = index * self.w + i;
        let cur = self.v[p];
        let next = if b {
            if cur == i16::MAX {
                cur
            } else {
                cur + 1
            }
        } else {
            if cur == i16::MIN {
                cur
            } else {
                cur - 1
            }
        };
        self.v[p] = next;
        Ok(())
    }

    /// Update the whole row of location `index` with the input vector `b`:
    /// for every bit position, a saturating step up where `b` has a one and
    /// down where it has a zero. `IndexOutOfRange` when `index` is out of
    /// bounds, `LengthMismatch` when `b` does not have the row width; the
    /// matrix is then unchanged.
    pub fn input(&mut self, index: usize, b: &BitTable) -> (r: Result<(), SdmError>)
        requires
            old(self).wf(),
            b.wf(),
        ensures
            final(self).wf(),
            final(self).spec_hardloc() == old(self).spec_hardloc(),
            final(self).spec_width() == old(self).spec_width(),
            final(self)@.len() == old(self)@.len(),
            index < old(self).spec_hardloc() && b@.len() == old(self).spec_width() ==> r == Ok::<
                (),
                SdmError,
            >(()) && (forall|p: int|
                0 <= p < old(self).spec_width() ==> final(self)@[index * old(self).spec_width() + p]
                    == sat_bump(old(self)@[index * old(self).spec_width() + p], b@[p])) && (forall|
                q: int,
            |
                0 <= q < old(self)@.len() && !(index * old(self).spec_width() <= q < index * old(
                    self,
                ).spec_width() + old(self).spec_width()) ==> final(self)@[q] == old(self)@[q]),
            index >= old(self).spec_hardloc() ==> r == Err::<(), SdmError>(
                SdmError::IndexOutOfRange,
            ) && final(self)@ == old(self)@,
            index < old(self).spec_hardloc() && b@.len() != old(self).spec_width() ==> r == Err::<
                (),
                SdmError,
            >(SdmError::LengthMismatch) && final(self)@ == old(self)@,
    {
        if index >= self.hl {
            return Err(SdmError::IndexOutOfRange);
        }
        if b.len() != self.w {
            return Err(SdmError::LengthMismatch);
        }
        let ghost base = index * self.spec_width();
        proof {
            assert((index + 1) * self.w <= self.hl * self.w && index * self.w + self.w == (index
                + 1) * self.w) by (nonlinear_arith)
                requires
                    index < self.hl,
            ;
        }
        let mut i: usize = 0;
        while i < self.w
            invariant
                self.wf(),
                b.wf(),
                i <= self.w,
                b@.len() == self.w,
                self.hl == old(self).hl,
                self.w == old(self).w,
                index < self.hl,
                base == index * self.spec_width(),
                base + self.w <= self@.len(),
                self@.len() == old(self)@.len(),
                forall|p: int| 0 <= p < i ==> self@[base + p] == sat_bump(old(self)@[base + p], b@[p]),
                forall|q: int|
                    0 <= q < self@.len() && !(base <= q < base + i) ==> self@[q] == old(self)@[q],
            decreases self.w - i,
        {
            let bit = match b.get(i) {
                Ok(x) => x,
                Err(_) => {
                    proof {
                        assert(false);
                    }
                    false
                },
            };
            let r = self.set(index, i, bit);
            proof {
                assert(r == Ok::<(), SdmError>(()));
            }
            i = i + 1;
        }
        Ok(())
    }

    /// A read-only copy of the full counter row of location `index`;
    /// `IndexOutOfRange` when `index` is out of bounds.
    pub fn get_counters(&self, index: usize) -> (r: Result<Vec<i16>, SdmError>)
        requires
            self.wf(),
        ensures
            index < self.spec_hardloc() ==> (r matches Ok(row) && row@ == self@.subrange(
                index * self.spec_width(),
                index * self.spec_width() + self.spec_width(),
            )),
            index >= self.spec_hardloc() ==> (r matches Err(e) && e == SdmError::IndexOutOfRange),
    {
        if index >= self.hl {
            return Err(SdmError::IndexOutOfRange);
        }
        proof {
            vstd::std_specs::vec::axiom_spec_len(&self.v);
            assert((index + 1) * self.w <= self.hl * self.w && index * self.w + self.w == (index
                + 1) * self.w) by (nonlinear_arith)
                requires
                    index < self.hl,
            ;
        }
        let base = index * self.w;
        let mut row: Vec<i16> = Vec::new();
        let mut i: usize = 0;
        while i < self.w
            invariant
                self.wf(),
                i <= self.w,
                base == index * self.spec_width(),
                base + self.w <= self@.len() <= usize::MAX,
                row@.len() == i,
                forall|p: int| 0 <= p < i ==> row@[p] == self@[base + p],
            decreases self.w - i,
        {
            row.push(self.v[base + i]);
            i = i + 1;
        }
        proof {
            assert(row@ =~= self@.subrange(
                index * self.spec_width(),
                index * self.spec_width() + self.spec_width(),
            ));
        }
        Ok(row)
    }
}

} // verus!
