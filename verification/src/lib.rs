//! A sparse distributed memory: a content-addressable associative store over
//! high-dimensional binary vectors, where recall tolerates noise in the query.
//!
//! The pieces, leaves first:
//! - [`bittable::BitTable`], a resizable bit vector with an inline/heap hybrid
//!   representation;
//! - [`address_space::AddressSpace`], a fixed collection of randomly drawn
//!   addresses (the hard locations);
//! - [`counter::Counter`], a flat matrix of saturating counters, one row per
//!   hard location, one column per bit position;
//! - [`SDM`], the memory engine that owns one address space and one counter
//!   matrix and exposes `scan`, `write` and `read`.
//!
//! `write(v, radius)` reinforces the counters of every hard location within
//! Hamming distance `radius` of `v` with `v`'s own bits; `read(q, radius)`
//! reconstructs a vector by majority vote over the counter rows of every hard
//! location within `radius` of `q`. Recall accuracy depends on the radius,
//! the number of hard locations and the address width jointly.

use vstd::prelude::*;

pub mod address_space;
pub mod bittable;
pub mod counter;
pub mod errors;
mod rng;

use crate::address_space::{count_within, AddressSpace};
use crate::bittable::{hamming, BitTable, MAX_BITS};
use crate::counter::{sat_bump, Counter};
use crate::errors::SdmError;

verus! {

/// The sum, at bit position `p`, of the counters of every address of `book`
/// lying within Hamming distance `radius` of the query `q`; `ctrs` is the
/// flat counter matrix with rows of `w` columns. This is the quantity whose
/// sign a `read` thresholds.
pub open spec fn selected_sum(
    ctrs: Seq<i16>,
    book: Seq<Seq<bool>>,
    q: Seq<bool>,
    radius: int,
    w: int,
    p: int,
) -> int
    decreases book.len(),
{
    if book.len() == 0 {
        0
    } else {
        selected_sum(ctrs, book.drop_last(), q, radius, w, p) + (if hamming(book.last(), q)
            <= radius {
            ctrs[(book.len() - 1) * w + p] as int
        } else {
            0
        })
    }
}

/// Extending the summed prefix by one address adds that address's counter at
/// `p` exactly when the address lies within the radius.
pub proof fn lemma_selected_sum_take_step(
    ctrs: Seq<i16>,
    book: Seq<Seq<bool>>,
    q: Seq<bool>,
    radius: int,
    w: int,
    p: int,
    i: int,
)
    requires
        0 <= i < book.len(),
    ensures
        selected_sum(ctrs, book.take(i + 1), q, radius, w, p) == selected_sum(
            ctrs,
            book.take(i),
            q,
            radius,
            w,
            p,
        ) + (if hamming(book[i], q) <= radius {
            ctrs[i * w + p] as int
        } else {
            0
        }),
{
    assert(book.take(i + 1).drop_last() =~= book.take(i));
    assert(book.take(i + 1).last() == book[i]);
}

/// A selected sum over `n` addresses lies within `n` counter ranges.
pub proof fn lemma_selected_sum_bound(
    ctrs: Seq<i16>,
    book: Seq<Seq<bool>>,
    q: Seq<bool>,
    radius: int,
    w: int,
    p: int,
)
    ensures
        -0x8000 * book.len() <= selected_sum(ctrs, book, q, radius, w, p) <= 0x8000 * book.len(),
    decreases book.len(),
{
    if book.len() > 0 {
        lemma_selected_sum_bound(ctrs, book.drop_last(), q, radius, w, p);
    }
}

/// The counter at flat position `m` after a write of `q` with radius
/// `radius` has been applied to the first `upto` locations of the book, with
/// rows of `w` columns, starting from the counters `c0`.
pub open spec fn bumped_at(
    c0: Seq<i16>,
    book: Seq<Seq<bool>>,
    q: Seq<bool>,
    radius: int,
    w: int,
    upto: int,
    m: int,
) -> i16 {
    if m / w < upto && hamming(book[m / w], q) <= radius {
        sat_bump(c0[m], q[m % w])
    } else {
        c0[m]
    }
}

/// The effect of one `write` of the query `q` with radius `radius` on the
/// counter matrix: row by row, the counters `c0` became `c1` by one
/// saturating step toward `q`'s bits at every address of `book` within the
/// radius, and stayed untouched at every other address.
pub open spec fn write_effect(
    c0: Seq<i16>,
    c1: Seq<i16>,
    book: Seq<Seq<bool>>,
    q: Seq<bool>,
    radius: int,
    w: int,
) -> bool {
    &&& c1.len() == c0.len()
    &&& forall|m: int|
        0 <= m < c0.len() ==> #[trigger] c1[m] == bumped_at(c0, book, q, radius, w, book.len() as int, m)
}

/// The row reading of `write_effect` at one bit position `p`: the counter of
/// every location within the radius took one saturating step toward `q[p]`,
/// and every other location's counter at `p` is unchanged.
pub proof fn lemma_write_effect_row(
    c0: Seq<i16>,
    c1: Seq<i16>,
    book: Seq<Seq<bool>>,
    q: Seq<bool>,
    radius: int,
    w: int,
    p: int,
)
    requires
        0 <= p < w,
        c0.len() == book.len() * w,
        write_effect(c0, c1, book, q, radius, w),
    ensures
        forall|loc: int|
            #![trigger book[loc]]
            0 <= loc < book.len() ==> c1[loc * w + p] == (if hamming(book[loc], q) <= radius {
                sat_bump(c0[loc * w + p], q[p])
            } else {
                c0[loc * w + p]
            }),
{
    assert forall|loc: int|
        #![trigger book[loc]]
        0 <= loc < book.len() implies c1[loc * w + p] == (if hamming(book[loc], q) <= radius {
        sat_bump(c0[loc * w + p], q[p])
    } else {
        c0[loc * w + p]
    }) by {
        let m = loc * w + p;
        assert(0 <= m < book.len() * w) by (nonlinear_arith)
            requires
                0 <= loc < book.len(),
                0 <= p < w,
                m == loc * w + p,
        ;
        vstd::arithmetic::div_mod::lemma_fundamental_div_mod_converse(m, w, loc, p);
        assert(c1[m] == bumped_at(c0, book, q, radius, w, book.len() as int, m));
        assert(m / w == loc && m % w == p);
    }
}

/// If every selected counter at position `p` took one saturating step toward
/// `q[p]` and the rest stayed, the selected sum at `p` moved toward `q[p]`.
proof fn lemma_polarity_rows(
    c1: Seq<i16>,
    c2: Seq<i16>,
    book: Seq<Seq<bool>>,
    q: Seq<bool>,
    radius: int,
    w: int,
    p: int,
)
    requires
        forall|loc: int|
            0 <= loc < book.len() ==> c2[loc * w + p] == (if hamming(#[trigger] book[loc], q)
                <= radius {
                sat_bump(c1[loc * w + p], q[p])
            } else {
                c1[loc * w + p]
            }),
    ensures
        q[p] ==> selected_sum(c2, book, q, radius, w, p) >= selected_sum(c1, book, q, radius, w, p),
        !q[p] ==> selected_sum(c2, book, q, radius, w, p) <= selected_sum(
            c1,
            book,
            q,
            radius,
            w,
            p,
        ),
        q[p] && selected_sum(c1, book, q, radius, w, p) > 0 ==> selected_sum(
            c2,
            book,
            q,
            radius,
            w,
            p,
        ) > 0,
        !q[p] && selected_sum(c1, book, q, radius, w, p) < 0 ==> selected_sum(
            c2,
            book,
            q,
            radius,
            w,
            p,
        ) < 0,
    decreases book.len(),
{
    if book.len() > 0 {
        assert forall|loc: int|
            0 <= loc < book.drop_last().len() implies c2[loc * w + p] == (if hamming(
            #[trigger] book.drop_last()[loc],
            q,
        ) <= radius {
            sat_bump(c1[loc * w + p], q[p])
        } else {
            c1[loc * w + p]
        }) by {
            assert(book.drop_last()[loc] == book[loc]);
        }
        lemma_polarity_rows(c1, c2, book.drop_last(), q, radius, w, p);
        assert(book[book.len() - 1] == book.last());
    }
}

/// Writing `q` again moves every selected counter toward `q`'s bits, so a
/// bit position whose selected sum already agrees in sign with `q`'s bit
/// keeps that sign: repeating a write with the same query does not change
/// the thresholded sign of any bit position already polarized toward the
/// written vector. `c1` are the counters before that repeated write and `c2`
/// the counters after it.
pub proof fn lemma_write_keeps_polarity(
    c1: Seq<i16>,
    c2: Seq<i16>,
    book: Seq<Seq<bool>>,
    q: Seq<bool>,
    radius: int,
    w: int,
    p: int,
)
    requires
        0 <= p < w,
        c1.len() == book.len() * w,
        write_effect(c1, c2, book, q, radius, w),
    ensures
        q[p] ==> selected_sum(c2, book, q, radius, w, p) >= selected_sum(c1, book, q, radius, w, p),
        !q[p] ==> selected_sum(c2, book, q, radius, w, p) <= selected_sum(
            c1,
            book,
            q,
            radius,
            w,
            p,
        ),
        q[p] && selected_sum(c1, book, q, radius, w, p) > 0 ==> selected_sum(
            c2,
            book,
            q,
            radius,
            w,
            p,
        ) > 0,
        !q[p] && selected_sum(c1, book, q, radius, w, p) < 0 ==> selected_sum(
            c2,
            book,
            q,
            radius,
            w,
            p,
        ) < 0,
{
    lemma_write_effect_row(c1, c2, book, q, radius, w, p);
    lemma_polarity_rows(c1, c2, book, q, radius, w, p);
}

/// The memory engine: one address space of `hl` hard locations of `d` bits
/// each, and one matrix of `hl * d` saturating counters. The dimensions are
/// fixed at construction.
pub struct SDM {
    d: usize,
    hl: usize,
    a: AddressSpace,
    c: Counter,
}

impl SDM {
    /// The address space and the counter matrix agree with the engine's
    /// dimensions.
    pub closed spec fn wf(&self) -> bool {
        &&& self.a.wf()
        &&& self.c.wf()
        &&& self.a@.len() == self.hl
        &&& self.a.spec_width() == self.d
        &&& self.c.spec_hardloc() == self.hl
        &&& self.c.spec_width() == self.d
    }

    /// The address width, in bits.
    pub closed spec fn spec_dim(&self) -> int {
        self.d as int
    }

    /// The number of hard locations.
    pub closed spec fn spec_hardloc(&self) -> int {
        self.hl as int
    }

    /// The hard-location addresses, as bit sequences.
    pub closed spec fn addrs(&self) -> Seq<Seq<bool>> {
        self.a@
    }

    /// The counter matrix, flattened row after row.
    pub closed spec fn ctrs(&self) -> Seq<i16> {
        self.c@
    }

    /// The dimensions a well-formed engine guarantees of its state.
    pub proof fn lemma_dims(&self)
        requires
            self.wf(),
        ensures
            self.addrs().len() == self.spec_hardloc(),
            forall|i: int|
                0 <= i < self.addrs().len() ==> (#[trigger] self.addrs()[i]).len()
                    == self.spec_dim(),
            self.ctrs().len() == self.spec_hardloc() * self.spec_dim(),
    {
        self.a.lemma_wf_widths();
        self.c.lemma_wf_len();
    }

    /// Build an engine of address width `d` with `hl` hard locations, each an
    /// independent uniformly random address, and all counters at zero.
    pub fn new(d: usize, hl: usize) -> (r: SDM)
        requires
            d <= MAX_BITS,
            hl * d <= usize::MAX,
        ensures
            r.wf(),
            r.spec_dim() == d,
            r.spec_hardloc() == hl,
            r.addrs().len() == hl,
            forall|i: int| 0 <= i < hl ==> (#[trigger] r.addrs()[i]).len() == d,
            r.ctrs().len() == hl * d,
            forall|m: int| 0 <= m < r.ctrs().len() ==> r.ctrs()[m] == 0i16,
    {
        SDM { d, hl, a: AddressSpace::new(hl, d), c: Counter::new(hl, d) }
    }

    /// The address width the engine was built with.
    pub fn dim(&self) -> (r: usize)
        ensures
            r == self.spec_dim(),
    {
        self.d
    }

    /// The number of hard locations the engine was built with.
    pub fn hardloc(&self) -> (r: usize)
        ensures
            r == self.spec_hardloc(),
    {
        self.hl
    }

    /// Borrow the hard-location address at index `i`; `IndexOutOfRange` when
    /// `i` is not below the number of hard locations.
    pub fn get_address(&self, i: usize) -> (r: Result<&BitTable, SdmError>)
        requires
            self.wf(),
        ensures
            i < self.spec_hardloc() ==> (r matches Ok(bt) && bt.wf() && bt@ == self.addrs()[i as int]
                && bt@.len() == self.spec_dim()),
            i >= self.spec_hardloc() ==> (r matches Err(e) && e == SdmError::IndexOutOfRange),
    {
        self.a.get(i)
    }

    /// Overwrite the hard-location address at index `i` with a copy of `bt`,
    /// leaving the counters untouched. `IndexOutOfRange` when `i` is out of
    /// bounds, `LengthMismatch` when `bt` does not have the address width;
    /// the engine is then unchanged.
    pub fn set_address(&mut self, i: usize, bt: &BitTable) -> (r: Result<(), SdmError>)
        requires
            old(self).wf(),
            bt.wf(),
        ensures
            final(self).wf(),
            final(self).spec_dim() == old(self).spec_dim(),
            final(self).spec_hardloc() == old(self).spec_hardloc(),
            final(self).ctrs() == old(self).ctrs(),
            i < old(self).spec_hardloc() && bt@.len() == old(self).spec_dim() ==> r == Ok::<
                (),
                SdmError,
            >(()) && final(self).addrs() == old(self).addrs().update(i as int, bt@),
            i >= old(self).spec_hardloc() ==> r == Err::<(), SdmError>(SdmError::IndexOutOfRange)
                && final(self).addrs() == old(self).addrs(),
            i < old(self).spec_hardloc() && bt@.len() != old(self).spec_dim() ==> r == Err::<
                (),
                SdmError,
            >(SdmError::LengthMismatch) && final(self).addrs() == old(self).addrs(),
    {
        self.a.set(i, bt)
    }

    /// The indices of all hard locations within Hamming distance `radius` of
    /// the query, in strictly increasing order; `LengthMismatch` when the
    /// query does not have the address width. Pure: `&self`, no mutation of
    /// the address space or the counters. The result is fully determined by
    /// the engine's state and the arguments, so two consecutive scans with
    /// identical arguments return identical results (see
    /// `address_space::lemma_scan_deterministic`).
    pub fn scan(&self, b: &BitTable, radius: usize) -> (r: Result<Vec<usize>, SdmError>)
        requires
            self.wf(),
            b.wf(),
        ensures
            b@.len() == self.spec_dim() ==> (r matches Ok(v) && (forall|k1: int, k2: int|
                0 <= k1 < k2 < v@.len() ==> v@[k1] < v@[k2]) && (forall|i: usize|
                i < self.addrs().len() ==> (v@.contains(i) <==> hamming(
                    self.addrs()[i as int],
                    b@,
                ) <= radius)) && (forall|k: int|
                0 <= k < v@.len() ==> #[trigger] v@[k] < self.addrs().len()) && v@.len()
                == count_within(self.addrs(), b@, radius as int)),
            b@.len() != self.spec_dim() ==> (r matches Err(e) && e == SdmError::LengthMismatch),
    {
        self.a.radius_fit(b, radius)
    }

    /// Imprint the query: for every hard location within Hamming distance
    /// `radius` of `b`, move each counter of that location's row one
    /// saturating step toward the corresponding bit of `b`. Only the selected
    /// locations are updated, and they are updated with the vector being
    /// written. The addresses are never changed. `LengthMismatch` when the
    /// query does not have the address width, and the engine is then
    /// unchanged.
    pub fn write(&mut self, b: &BitTable, radius: usize) -> (r: Result<(), SdmError>)
        requires
            old(self).wf(),
            b.wf(),
        ensures
            final(self).wf(),
            final(self).spec_dim() == old(self).spec_dim(),
            final(self).spec_hardloc() == old(self).spec_hardloc(),
            final(self).addrs() == old(self).addrs(),
            final(self).ctrs().len() == old(self).ctrs().len(),
            b@.len() == old(self).spec_dim() ==> r == Ok::<(), SdmError>(()) && write_effect(
                old(self).ctrs(),
                final(self).ctrs(),
                old(self).addrs(),
                b@,
                radius as int,
                old(self).spec_dim(),
            ),
            b@.len() != old(self).spec_dim() ==> r == Err::<(), SdmError>(SdmError::LengthMismatch)
                && final(self).ctrs() == old(self).ctrs(),
    {
        if b.len() != self.d {
            return Err(SdmError::LengthMismatch);
        }
        proof {
            self.a.lemma_wf_widths();
            self.c.lemma_wf_len();
        }
        let ghost d = self.spec_dim();
        let ghost book = self.addrs();
        let ghost c0 = self.ctrs();
        let n = self.hl;
        let mut loc: usize = 0;
        while loc < n
            invariant
                self.wf(),
                b.wf(),
                b@.len() == d,
                loc <= n,
                n == self.spec_hardloc(),
                d == self.spec_dim(),
                self.spec_hardloc() == old(self).spec_hardloc(),
                self.spec_dim() == old(self).spec_dim(),
                book == self.addrs(),
                book == old(self).addrs(),
                book.len() == n,
                c0 == old(self).ctrs(),
                c0.len() == n * d,
                self.ctrs().len() == c0.len(),
                forall|i: int| 0 <= i < book.len() ==> (#[trigger] book[i]).len() == d,
                forall|m: int|
                    0 <= m < c0.len() ==> #[trigger] self.ctrs()[m] == bumped_at(
                        c0,
                        book,
                        b@,
                        radius as int,
                        d,
                        loc as int,
                        m,
                    ),
            decreases n - loc,
        {
            let dist = match self.a.get(loc) {
                Ok(bt) => match bt.distance(b) {
                    Ok(x) => x,
                    Err(_) => {
                        proof {
                            assert(false);
                        }
                        0
                    },
                },
                Err(_) => {
                    proof {
                        assert(false);
                    }
                    0
                },
            };
            proof {
                crate::bittable::lemma_hamming_le_len(book[loc as int], b@);
            }
            let ghost cpre = self.ctrs();
            if dist <= radius {
                let res = self.c.input(loc, b);
                proof {
                    assert(res == Ok::<(), SdmError>(()));
                }
            }
            proof {
                assert forall|m: int|
                    0 <= m < c0.len() implies #[trigger] self.ctrs()[m] == bumped_at(
                    c0,
                    book,
                    b@,
                    radius as int,
                    d,
                    loc as int + 1,
                    m,
                ) by {
                    assert(cpre[m] == bumped_at(c0, book, b@, radius as int, d, loc as int, m));
                    assert(d > 0 && 0 <= m / d < n && 0 <= m % d < d) by (nonlinear_arith)
                        requires
                            0 <= m < c0.len(),
                            c0.len() == n * d,
                            d >= 0,
                    ;
                    let lm = m / d;
                    let pm = m % d;
                    // Mentioning the query bit at `pm` lets the row clause of
                    // `input` apply to this position.
                    let qbit = b@[pm];
                    vstd::arithmetic::div_mod::lemma_fundamental_div_mod(m, d);
                    assert(m == lm * d + pm);
                    if hamming(book[loc as int], b@) <= radius as int {
                        if lm == loc {
                            assert(self.ctrs()[loc * d + pm] == sat_bump(
                                cpre[loc * d + pm],
                                b@[pm],
                            ));
                            assert(self.ctrs()[m] == sat_bump(cpre[m], b@[pm]));
                            assert(cpre[m] == c0[m]);
                        } else {
                            assert(!(loc * d <= m < loc * d + d)) by {
                                if loc * d <= m < loc * d + d {
                                    vstd::arithmetic::div_mod::lemma_fundamental_div_mod_converse(
                                        m,
                                        d,
                                        loc as int,
                                        m - loc * d,
                                    );
                                }
                            }
                            assert(self.ctrs()[m] == cpre[m]);
                        }
                    } else {
                        assert(self.ctrs()[m] == cpre[m]);
                    }
                }
            }
            loc = loc + 1;
        }
        proof {
            assert forall|m: int|
                0 <= m < c0.len() implies #[trigger] self.ctrs()[m] == bumped_at(
                c0,
                book,
                b@,
                radius as int,
                d,
                book.len() as int,
                m,
            ) by {
                assert(self.ctrs()[m] == bumped_at(c0, book, b@, radius as int, d, n as int, m));
            }
            assert(write_effect(c0, self.ctrs(), book, b@, radius as int, d));
        }
        Ok(())
    }

    /// Recall a vector from a possibly noisy query: sum, element-wise, the
    /// counter rows of exactly the hard locations within Hamming distance
    /// `radius` of `b`, and threshold each position's sum — positive gives a
    /// one, negative a zero, and an exact zero is resolved by an unbiased
    /// coin flip. Pure on the engine: `&self`. `LengthMismatch` when the
    /// query does not have the address width; `NoMatch` when no hard location
    /// lies within the radius, so that an empty selection is never silently
    /// turned into an all-zero vector.
    pub fn read(&self, b: &BitTable, radius: usize) -> (r: Result<BitTable, SdmError>)
        requires
            self.wf(),
            b.wf(),
        ensures
            b@.len() != self.spec_dim() ==> (r matches Err(e) && e == SdmError::LengthMismatch),
            b@.len() == self.spec_dim() && count_within(self.addrs(), b@, radius as int) == 0 ==> (
            r matches Err(e) && e == SdmError::NoMatch),
            b@.len() == self.spec_dim() && count_within(self.addrs(), b@, radius as int) > 0 ==> (
            r matches Ok(bt) && bt.wf() && bt@.len() == self.spec_dim() && (forall|p: int|
                0 <= p < self.spec_dim() ==> (selected_sum(
                    self.ctrs(),
                    self.addrs(),
                    b@,
                    radius as int,
                    self.spec_dim(),
                    p,
                ) > 0 ==> #[trigger] bt@[p]) && (selected_sum(
                    self.ctrs(),
                    self.addrs(),
                    b@,
                    radius as int,
                    self.spec_dim(),
                    p,
                ) < 0 ==> !bt@[p]))),
    {
        if b.len() != self.d {
            return Err(SdmError::LengthMismatch);
        }
        proof {
            self.a.lemma_wf_widths();
            self.c.lemma_wf_len();
        }
        let ghost d = self.spec_dim();
        let ghost book = self.addrs();
        let ghost c0 = self.ctrs();
        let n = self.hl;
        let mut sums: Vec<i128> = Vec::new();
        let mut k: usize = 0;
        while k < self.d
            invariant
                k <= self.d,
                sums@.len() == k,
                forall|m: int| 0 <= m < k ==> sums@[m] == 0i128,
            decreases self.d - k,
        {
            sums.push(0i128);
            k = k + 1;
        }
        let mut found = false;
        let mut loc: usize = 0;
        while loc < n
            invariant
                self.wf(),
                b.wf(),
                b@.len() == d,
                loc <= n,
                n == self.spec_hardloc(),
                d == self.spec_dim(),
                book == self.addrs(),
                c0 == self.ctrs(),
                c0.len() == n * d,
                d <= MAX_BITS,
                sums@.len() == d,
                forall|i: int| 0 <= i < book.len() ==> (#[trigger] book[i]).len() == d,
                found <==> count_within(book.take(loc as int), b@, radius as int) > 0,
                forall|p: int|
                    0 <= p < d ==> #[trigger] sums@[p] == selected_sum(
                        c0,
                        book.take(loc as int),
                        b@,
                        radius as int,
                        d,
                        p,
                    ),
            decreases n - loc,
        {
            let dist = match self.a.get(loc) {
                Ok(bt) => match bt.distance(b) {
                    Ok(x) => x,
                    Err(_) => {
                        proof {
                            assert(false);
                        }
                        0
                    },
                },
                Err(_) => {
                    proof {
                        assert(false);
                    }
                    0
                },
            };
            proof {
                crate::bittable::lemma_hamming_le_len(book[loc as int], b@);
                crate::address_space::lemma_count_within_take_step(
                    book,
                    b@,
                    radius as int,
                    loc as int,
                );
            }
            if dist <= radius {
                found = true;
                let row = match self.c.get_counters(loc) {
                    Ok(row) => row,
                    Err(_) => {
                        proof {
                            assert(false);
                        }
                        Vec::new()
                    },
                };
                let ghost pre = sums@;
                proof {
                    assert((loc + 1) * d <= n * d && loc as int * d + d == (loc + 1) * d)
                        by (nonlinear_arith)
                        requires
                            loc + 1 <= n,
                            d >= 0,
                    ;
                    assert forall|m: int|
                        0 <= m < d implies #[trigger] row@[m] == c0[loc as int * d + m] by {
                        assert(row@[m] == c0.subrange(
                            loc as int * d,
                            loc as int * d + d,
                        )[m]);
                    }
                    assert forall|m: int|
                        0 <= m < d implies -0x8000 * (loc as int) <= #[trigger] pre[m] <= 0x8000
                        * (loc as int) by {
                        lemma_selected_sum_bound(c0, book.take(loc as int), b@, radius as int, d, m);
                        assert(book.take(loc as int).len() == loc);
                    }
                }
                let mut p: usize = 0;
                while p < self.d
                    invariant
                        p <= self.d,
                        d == self.spec_dim(),
                        sums@.len() == d,
                        row@.len() == d,
                        loc < n,
                        n == self.spec_hardloc(),
                        c0 == self.ctrs(),
                        self.wf(),
                        pre.len() == d,
                        forall|m: int|
                            0 <= m < d ==> #[trigger] row@[m] == c0[loc as int * d + m],
                        forall|m: int| 0 <= m < n * d ==> -0x8000 <= #[trigger] c0[m] <= 0x7fff,
                        forall|m: int|
                            0 <= m < d ==> -0x8000 * (loc as int) <= #[trigger] pre[m] <= 0x8000 * (
                            loc as int),
                        forall|m: int|
                            0 <= m < p ==> #[trigger] sums@[m] == pre[m] + c0[loc as int * d + m],
                        forall|m: int| p <= m < d ==> #[trigger] sums@[m] == pre[m],
                    decreases self.d - p,
                {
                    let add = row[p];
                    proof {
                        assert(-0x8000 * (n as int) <= pre[p as int] <= 0x8000 * (n as int))
                            by (nonlinear_arith)
                            requires
                                -0x8000 * (loc as int) <= pre[p as int] <= 0x8000 * (loc as int),
                                0 <= loc <= n,
                        ;
                    }
                    let cur = sums[p];
                    sums[p] = cur + (add as i128);
                    p = p + 1;
                }
                proof {
                    assert forall|p2: int|
                        0 <= p2 < d implies #[trigger] sums@[p2] == selected_sum(
                        c0,
                        book.take(loc as int + 1),
                        b@,
                        radius as int,
                        d,
                        p2,
                    ) by {
                        lemma_selected_sum_take_step(
                            c0,
                            book,
                            b@,
                            radius as int,
                            d,
                            p2,
                            loc as int,
                        );
                    }
                }
            } else {
                proof {
                    assert forall|p2: int|
                        0 <= p2 < d implies #[trigger] sums@[p2] == selected_sum(
                        c0,
                        book.take(loc as int + 1),
                        b@,
                        radius as int,
                        d,
                        p2,
                    ) by {
                        lemma_selected_sum_take_step(
                            c0,
                            book,
                            b@,
                            radius as int,
                            d,
                            p2,
                            loc as int,
                        );
                    }
                }
            }
            loc = loc + 1;
        }
        proof {
            assert(book.take(n as int) =~= book);
        }
        if !found {
            return Err(SdmError::NoMatch);
        }
        let mut out = BitTable::with_capacity(self.d);
        let mut p: usize = 0;
        while p < self.d
            invariant
                p <= self.d,
                d == self.spec_dim(),
                d <= MAX_BITS,
                out.wf(),
                out@.len() == p,
                sums@.len() == d,
                book == self.addrs(),
                c0 == self.ctrs(),
                b@.len() == d,
                forall|m: int|
                    0 <= m < d ==> #[trigger] sums@[m] == selected_sum(
                        c0,
                        book,
                        b@,
                        radius as int,
                        d,
                        m,
                    ),
                forall|m: int|
                    0 <= m < p ==> (sums@[m] > 0 ==> #[trigger] out@[m]) && (sums@[m] < 0
                        ==> !out@[m]),
            decreases self.d - p,
        {
            let s = sums[p];
            let bit = if s > 0 {
                true
            } else if s < 0 {
                false
            } else {
                crate::rng::coin()
            };
            out.push(bit);
            p = p + 1;
        }
        Ok(out)
    }
}

} // verus!
