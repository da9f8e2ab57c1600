//! The space of hard locations: a fixed-size collection of randomly drawn
//! addresses, each a `BitTable` of the configured width. Immutable after
//! construction except through an explicit indexed overwrite; the single
//! selection primitive of the memory engine is Hamming-distance radius
//! matching over this collection.

use vstd::prelude::*;

use crate::bittable::{hamming, lemma_hamming_le_len, BitTable, MAX_BITS};
use crate::errors::SdmError;

verus! {

/// The number of addresses in `book` lying within Hamming distance `radius`
/// of the query `q`.
pub open spec fn count_within(book: Seq<Seq<bool>>, q: Seq<bool>, radius: int) -> nat
    decreases book.len(),
{
    if book.len() == 0 {
        0
    } else {
        count_within(book.drop_last(), q, radius) + (if hamming(book.last(), q) <= radius {
            1nat
        } else {
            0nat
        })
    }
}

/// Extending the scanned prefix by one address adds one to the count exactly
/// when that address lies within the radius.
pub proof fn lemma_count_within_take_step(book: Seq<Seq<bool>>, q: Seq<bool>, radius: int, i: int)
    requires
        0 <= i < book.len(),
    ensures
        count_within(book.take(i + 1), q, radius) == count_within(book.take(i), q, radius) + (
        if hamming(book[i], q) <= radius {
            1nat
        } else {
            0nat
        }),
{
    assert(book.take(i + 1).drop_last() =~= book.take(i));
    assert(book.take(i + 1).last() == book[i]);
}

/// With a radius at least the address width, every address of the book is
/// within the radius of the query, and the selection is the whole book.
pub proof fn lemma_full_radius_selects_all(book: Seq<Seq<bool>>, q: Seq<bool>, radius: int)
    requires
        forall|i: int| 0 <= i < book.len() ==> (#[trigger] book[i]).len() == q.len(),
        radius >= q.len(),
    ensures
        count_within(book, q, radius) == book.len(),
        forall|i: int| 0 <= i < book.len() ==> hamming(#[trigger] book[i], q) <= radius,
    decreases book.len(),
{
    if book.len() > 0 {
        lemma_hamming_le_len(book.last(), q);
        lemma_full_radius_selects_all(book.drop_last(), q, radius);
        assert forall|i: int| 0 <= i < book.len() implies hamming(#[trigger] book[i], q)
            <= radius by {
            if i < book.len() - 1 {
                assert(book.drop_last()[i] == book[i]);
                assert(hamming(book.drop_last()[i], q) <= radius);
            } else {
                assert(book[i] == book.last());
            }
        }
    }
}

/// Membership in a pushed sequence: the new element, or an old member.
proof fn lemma_push_contains(v: Seq<usize>, x: usize)
    ensures
        forall|y: usize| #[trigger] v.push(x).contains(y) <==> (v.contains(y) || y == x),
{
    assert forall|y: usize| #[trigger] v.push(x).contains(y) implies (v.contains(y) || y
        == x) by {
        let k = choose|k: int| 0 <= k < v.push(x).len() && v.push(x)[k] == y;
        if k < v.len() {
            assert(v[k] == y);
        }
    }
    assert forall|y: usize| (v.contains(y) || y == x) implies #[trigger] v.push(x).contains(y) by {
        if v.contains(y) {
            let k = choose|k: int| 0 <= k < v.len() && v[k] == y;
            assert(v.push(x)[k] == y);
        } else {
            assert(v.push(x)[v.len() as int] == y);
        }
    }
}

/// Two strictly increasing index sequences with the same members are the same
/// sequence. A scan's postcondition pins exactly such a sequence down, so two
/// scans with identical arguments return identical results.
pub proof fn lemma_scan_deterministic(v1: Seq<usize>, v2: Seq<usize>)
    requires
        forall|k1: int, k2: int| 0 <= k1 < k2 < v1.len() ==> v1[k1] < v1[k2],
        forall|k1: int, k2: int| 0 <= k1 < k2 < v2.len() ==> v2[k1] < v2[k2],
        forall|x: usize| v1.contains(x) <==> v2.contains(x),
    ensures
        v1 == v2,
    decreases v1.len(),
{
    if v1.len() == 0 {
        if v2.len() > 0 {
            assert(v2.contains(v2[0]));
            assert(v1.contains(v2[0]));
        }
        assert(v1 =~= v2);
    } else {
        assert(v1.contains(v1[0]));
        assert(v2.contains(v1[0]));
        let k2 = choose|k: int| 0 <= k < v2.len() && v2[k] == v1[0];
        assert(v2[0] <= v2[k2]);
        assert(v2.contains(v2[0]));
        assert(v1.contains(v2[0]));
        let k1 = choose|k: int| 0 <= k < v1.len() && v1[k] == v2[0];
        assert(v1[0] <= v1[k1]);
        let h = v1[0];
        assert(v2[0] == h);
        let t1 = v1.skip(1);
        let t2 = v2.skip(1);
        assert forall|y: usize| #[trigger] t1.contains(y) implies v1.contains(y) && y > h by {
            let k = choose|k: int| 0 <= k < t1.len() && t1[k] == y;
            assert(v1[k + 1] == y);
        }
        assert forall|y: usize| v1.contains(y) && y > h implies #[trigger] t1.contains(y) by {
            let k = choose|k: int| 0 <= k < v1.len() && v1[k] == y;
            assert(k >= 1);
            assert(t1[k - 1] == y);
        }
        assert forall|y: usize| #[trigger] t2.contains(y) implies v2.contains(y) && y > h by {
            let k = choose|k: int| 0 <= k < t2.len() && t2[k] == y;
            assert(v2[k + 1] == y);
        }
        assert forall|y: usize| v2.contains(y) && y > h implies #[trigger] t2.contains(y) by {
            let k = choose|k: int| 0 <= k < v2.len() && v2[k] == y;
            assert(k >= 1);
            assert(t2[k - 1] == y);
        }
        lemma_scan_deterministic(t1, t2);
        assert(v1.len() == v2.len());
        assert forall|i: int| 0 <= i < v1.len() implies v1[i] == v2[i] by {
            if i >= 1 {
                assert(t1[i - 1] == v1[i]);
                assert(t2[i - 1] == v2[i]);
            }
        }
        assert(v1 =~= v2);
    }
}

/// Two selections that both satisfy the radius-scan contract for the same
/// book, query and radius — strictly increasing, all indices in range, and
/// containing exactly the indices within the radius — are the same sequence:
/// a scan mutates nothing, and two consecutive scans with identical
/// arguments return identical results.
pub proof fn lemma_scan_agreement(
    book: Seq<Seq<bool>>,
    q: Seq<bool>,
    radius: int,
    v1: Seq<usize>,
    v2: Seq<usize>,
)
    requires
        forall|k1: int, k2: int| 0 <= k1 < k2 < v1.len() ==> v1[k1] < v1[k2],
        forall|k1: int, k2: int| 0 <= k1 < k2 < v2.len() ==> v2[k1] < v2[k2],
        forall|k: int| 0 <= k < v1.len() ==> #[trigger] v1[k] < book.len(),
        forall|k: int| 0 <= k < v2.len() ==> #[trigger] v2[k] < book.len(),
        forall|i: usize| i < book.len() ==> (v1.contains(i) <==> hamming(book[i as int], q) <= radius),
        forall|i: usize| i < book.len() ==> (v2.contains(i) <==> hamming(book[i as int], q) <= radius),
    ensures
        v1 == v2,
{
    assert forall|x: usize| v1.contains(x) implies v2.contains(x) by {
        let k = choose|k: int| 0 <= k < v1.len() && v1[k] == x;
        assert(v1[k] < book.len());
    }
    assert forall|x: usize| v2.contains(x) implies v1.contains(x) by {
        let k = choose|k: int| 0 <= k < v2.len() && v2[k] == x;
        assert(v2[k] < book.len());
    }
    lemma_scan_deterministic(v1, v2);
}

/// A fixed collection of hard-location addresses, every one of the same
/// width. Its view is the sequence of the addresses' bit sequences.
pub struct AddressSpace {
    width: usize,
    locs: Vec<BitTable>,
}

impl View for AddressSpace {
    type V = Seq<Seq<bool>>;

    closed spec fn view(&self) -> Seq<Seq<bool>> {
        self.locs@.map(|i: int, bt: BitTable| bt@)
    }
}

impl AddressSpace {
    /// Every stored vector is well-formed and has the configured width, and
    /// the width is representable.
    pub closed spec fn wf(&self) -> bool {
        &&& self.width <= MAX_BITS
        &&& forall|i: int|
            0 <= i < self.locs@.len() ==> (#[trigger] self.locs@[i]).wf() && self.locs@[i]@.len()
                == self.width
    }

    /// The width, in bits, of every address of the space.
    pub closed spec fn spec_width(&self) -> int {
        self.width as int
    }

    /// Every address of a well-formed space has the space's width.
    pub proof fn lemma_wf_widths(&self)
        requires
            self.wf(),
        ensures
            0 <= self.spec_width() <= MAX_BITS,
            forall|i: int|
                0 <= i < self@.len() ==> (#[trigger] self@[i]).len() == self.spec_width(),
    {
        assert forall|i: int| 0 <= i < self@.len() implies (#[trigger] self@[i]).len()
            == self.spec_width() by {
            assert(self@[i] == self.locs@[i]@);
        }
    }

    /// Build `hardloc` independent uniformly random addresses of `width` bits
    /// each: every bit an independent fair coin.
    pub fn new(hardloc: usize, width: usize) -> (r: AddressSpace)
        requires
            width <= MAX_BITS,
        ensures
            r.wf(),
            r@.len() == hardloc,
            r.spec_width() == width,
            forall|i: int| 0 <= i < hardloc ==> (#[trigger] r@[i]).len() == width,
    {
        let mut locs: Vec<BitTable> = Vec::new();
        let mut k: usize = 0;
        while k < hardloc
            invariant
                k <= hardloc,
                width <= MAX_BITS,
                locs@.len() == k,
                forall|i: int|
                    0 <= i < k ==> (#[trigger] locs@[i]).wf() && locs@[i]@.len() == width,
            decreases hardloc - k,
        {
            locs.push(BitTable::new_rand(width));
            k = k + 1;
        }
        let r = AddressSpace { width, locs };
        proof {
            assert(r@.len() == hardloc);
        }
        r
    }

    /// The number of addresses held.
    pub fn len(&self) -> (r: usize)
        ensures
            r == self@.len(),
    {
        self.locs.len()
    }

    /// Borrow the address at index `i`; `IndexOutOfRange` when `i` is not
    /// below the number of addresses.
    pub fn get(&self, i: usize) -> (r: Result<&BitTable, SdmError>)
        requires
            self.wf(),
        ensures
            i < self@.len() ==> (r matches Ok(bt) && bt.wf() && bt@ == self@[i as int] && bt@.len()
                == self.spec_width()),
            i >= self@.len() ==> (r matches Err(e) && e == SdmError::IndexOutOfRange),
    {
        if i >= self.locs.len() {
            return Err(SdmError::IndexOutOfRange);
        }
        Ok(&self.locs[i])
    }

    /// Overwrite the address at index `i` with a copy of `bt`.
    /// `IndexOutOfRange` when `i` is out of bounds, `LengthMismatch` when
    /// `bt` does not have the space's width; the space is then unchanged.
    pub fn set(&mut self, i: usize, bt: &BitTable) -> (r: Result<(), SdmError>)
        requires
            old(self).wf(),
            bt.wf(),
        ensures
            final(self).wf(),
            final(self).spec_width() == old(self).spec_width(),
            i < old(self)@.len() && bt@.len() == old(self).spec_width() ==> r == Ok::<
                (),
                SdmError,
            >(()) && final(self)@ == old(self)@.update(i as int, bt@),
            i >= old(self)@.len() ==> r == Err::<(), SdmError>(SdmError::IndexOutOfRange)
                && final(self)@ == old(self)@,
            i < old(self)@.len() && bt@.len() != old(self).spec_width() ==> r == Err::<
                (),
                SdmError,
            >(SdmError::LengthMismatch) && final(self)@ == old(self)@,
    {
        if i >= self.locs.len() {
            return Err(SdmError::IndexOutOfRange);
        }
        if bt.len() != self.width {
            return Err(SdmError::LengthMismatch);
        }
        self.locs[i] = bt.clone();
        proof {
            assert(self@ =~= old(self)@.update(i as int, bt@));
        }
        Ok(())
    }

    /// The indices of all addresses within Hamming distance `radius` of the
    /// query, in strictly increasing order; `LengthMismatch` when the query
    /// does not have the space's width. This is the single selection
    /// primitive of the memory engine, and it uses true Hamming distance —
    /// the count of differing bit positions — uniformly.
    pub fn radius_fit(&self, bt: &BitTable, radius: usize) -> (r: Result<Vec<usize>, SdmError>)
        requires
            self.wf(),
            bt.wf(),
        ensures
            bt@.len() == self.spec_width() ==> (r matches Ok(v) && (forall|k1: int, k2: int|
                0 <= k1 < k2 < v@.len() ==> v@[k1] < v@[k2]) && (forall|i: usize|
                i < self@.len() ==> (v@.contains(i) <==> hamming(self@[i as int], bt@)
                    <= radius)) && (forall|k: int|
                0 <= k < v@.len() ==> #[trigger] v@[k] < self@.len()) && v@.len() == count_within(
                self@,
                bt@,
                radius as int,
            )),
            bt@.len() != self.spec_width() ==> (r matches Err(e) && e == SdmError::LengthMismatch),
    {
        if bt.len() != self.width {
            return Err(SdmError::LengthMismatch);
        }
        let n = self.locs.len();
        let mut selected: Vec<usize> = Vec::new();
        let mut i: usize = 0;
        while i < n
            invariant
                self.wf(),
                bt.wf(),
                bt@.len() == self.spec_width(),
                i <= n,
                n == self@.len(),
                forall|k1: int, k2: int|
                    0 <= k1 < k2 < selected@.len() ==> selected@[k1] < selected@[k2],
                forall|k: int| 0 <= k < selected@.len() ==> #[trigger] selected@[k] < i,
                forall|j: usize|
                    j < i ==> (selected@.contains(j) <==> hamming(self@[j as int], bt@) <= radius),
                selected@.len() == count_within(self@.take(i as int), bt@, radius as int),
            decreases n - i,
        {
            let ghost pre = selected@;
            proof {
                assert(self@[i as int] == self.locs@[i as int]@);
                lemma_hamming_le_len(self@[i as int], bt@);
            }
            let d = match self.locs[i].distance(bt) {
                Ok(d) => d,
                Err(_) => {
                    proof {
                        assert(false);
                    }
                    0
                },
            };
            if d <= radius {
                selected.push(i);
            }
            proof {
                lemma_push_contains(pre, i);
                lemma_count_within_take_step(self@, bt@, radius as int, i as int);
                assert forall|j: usize|
                    j < i + 1 implies (selected@.contains(j) <==> hamming(self@[j as int], bt@)
                    <= radius) by {
                    if hamming(self@[i as int], bt@) <= radius as int {
                        assert(selected@ == pre.push(i));
                        assert(selected@.contains(j) <==> (pre.contains(j) || j == i));
                    } else {
                        assert(selected@ == pre);
                        if j == i && selected@.contains(j) {
                            let k = choose|k: int|
                                0 <= k < selected@.len() && selected@[k] == j;
                            assert(selected@[k] < i);
                        }
                    }
                }
            }
            i = i + 1;
        }
        proof {
            assert(self@.take(n as int) =~= self@);
        }
        Ok(selected)
    }

    /// The number of addresses within Hamming distance `radius` of the query;
    /// pure and read-only. Same predicate as `radius_fit`, count only;
    /// `LengthMismatch` when the query does not have the space's width.
    pub fn radius_counter(&self, bt: &BitTable, radius: usize) -> (r: Result<usize, SdmError>)
        requires
            self.wf(),
            bt.wf(),
        ensures
            bt@.len() == self.spec_width() ==> r == Ok::<usize, SdmError>(
                count_within(self@, bt@, radius as int) as usize,
            ),
            bt@.len() != self.spec_width() ==> r == Err::<usize, SdmError>(
                SdmError::LengthMismatch,
            ),
    {
        if bt.len() != self.width {
            return Err(SdmError::LengthMismatch);
        }
        let n = self.locs.len();
        let mut counter: usize = 0;
        let mut i: usize = 0;
        while i < n
            invariant
                self.wf(),
                bt.wf(),
                bt@.len() == self.spec_width(),
                i <= n,
                n == self@.len(),
                counter <= i,
                counter == count_within(self@.take(i as int), bt@, radius as int),
            decreases n - i,
        {
            proof {
                assert(self@[i as int] == self.locs@[i as int]@);
                lemma_hamming_le_len(self@[i as int], bt@);
            }
            let d = match self.locs[i].distance(bt) {
                Ok(d) => d,
                Err(_) => {
                    proof {
                        assert(false);
                    }
                    0
                },
            };
            proof {
                lemma_count_within_take_step(self@, bt@, radius as int, i as int);
            }
            if d <= radius {
                counter = counter + 1;
            }
            i = i + 1;
        }
        proof {
            assert(self@.take(n as int) =~= self@);
        }
        Ok(counter)
    }

    /// Pointwise exclusive or of two equal-length boolean slices.
    pub fn xor_in_place(&self, left: &[bool], right: &[bool]) -> (r: Vec<bool>)
        requires
            left@.len() == right@.len(),
        ensures
            r@.len() == left@.len(),
            forall|m: int| 0 <= m < r@.len() ==> r@[m] == (left@[m] != right@[m]),
    {
        let n = left.len();
        let mut out: Vec<bool> = Vec::new();
        let mut i: usize = 0;
        while i < n
            invariant
                i <= n,
                n == left@.len() == right@.len(),
                out@.len() == i,
                forall|m: int| 0 <= m < i ==> out@[m] == (left@[m] != right@[m]),
            decreases n - i,
        {
            out.push(left[i] != right[i]);
            i = i + 1;
        }
        out
    }
}

} // verus!
