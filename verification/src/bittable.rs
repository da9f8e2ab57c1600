//! A resizable bit vector, optimized for size and inline storage.
//!
//! A short vector keeps all its bits in a single control word: bit `i` of the
//! vector lives at shift `63 - i`, a sentinel `1` at shift `63 - len` marks
//! the boundary between the data and the unused low end, and every bit below
//! the sentinel is zero. A vector that needs more than the inline capacity
//! moves, once and for all, to a heap buffer of words holding the length and
//! the bits packed low-bit-first per word.

use std::ops::Range;

use vstd::prelude::*;

use crate::errors::SdmError;

verus! {

/// The Hamming distance of two equal-length bit sequences: the number of
/// positions at which they differ.
pub open spec fn hamming(a: Seq<bool>, b: Seq<bool>) -> nat
    recommends
        a.len() == b.len(),
    decreases a.len(),
{
    if a.len() == 0 {
        0
    } else {
        hamming(a.drop_last(), b.drop_last()) + (if a.last() != b.last() {
            1nat
        } else {
            0nat
        })
    }
}

/// A vector is at distance zero from itself.
pub proof fn lemma_hamming_self(a: Seq<bool>)
    ensures
        hamming(a, a) == 0,
    decreases a.len(),
{
    if a.len() > 0 {
        lemma_hamming_self(a.drop_last());
    }
}

/// The Hamming distance is symmetric in its two arguments.
pub proof fn lemma_hamming_symmetric(a: Seq<bool>, b: Seq<bool>)
    requires
        a.len() == b.len(),
    ensures
        hamming(a, b) == hamming(b, a),
    decreases a.len(),
{
    if a.len() > 0 {
        lemma_hamming_symmetric(a.drop_last(), b.drop_last());
    }
}

/// The Hamming distance of two equal-length vectors never exceeds their
/// length; so a radius of the full width selects everything.
pub proof fn lemma_hamming_le_len(a: Seq<bool>, b: Seq<bool>)
    requires
        a.len() == b.len(),
    ensures
        hamming(a, b) <= a.len(),
    decreases a.len(),
{
    if a.len() > 0 {
        lemma_hamming_le_len(a.drop_last(), b.drop_last());
    }
}

/// Extending both prefixes by one position adds one exactly when the new
/// position differs.
pub proof fn lemma_hamming_take_step(a: Seq<bool>, b: Seq<bool>, i: int)
    requires
        a.len() == b.len(),
        0 <= i < a.len(),
    ensures
        hamming(a.take(i + 1), b.take(i + 1)) == hamming(a.take(i), b.take(i)) + (if a[i] != b[i] {
            1nat
        } else {
            0nat
        }),
{
    assert(a.take(i + 1).drop_last() =~= a.take(i));
    assert(b.take(i + 1).drop_last() =~= b.take(i));
    assert(a.take(i + 1).last() == a[i]);
    assert(b.take(i + 1).last() == b[i]);
}

/// The largest number of bits a vector may hold: the greatest multiple of
/// the storage-word width that a `usize` can count.
pub const MAX_BITS: usize = (usize::MAX / 64) * 64;

/// True when bit `k` of `w`, counted from the least-significant end, is set.
pub open spec fn word_bit(w: u64, k: u64) -> bool {
    (w >> k) & 1u64 == 1u64
}

proof fn lemma_bit_or(w: u64, k: u64, j: u64)
    by (bit_vector)
    requires
        k < 64,
        j < 64,
    ensures
        word_bit(w | (1u64 << k), j) == (j == k || word_bit(w, j)),
{
}

proof fn lemma_bit_and_not(w: u64, k: u64, j: u64)
    by (bit_vector)
    requires
        k < 64,
        j < 64,
    ensures
        word_bit(w & !(1u64 << k), j) == (j != k && word_bit(w, j)),
{
}

proof fn lemma_bit_single(k: u64, j: u64)
    by (bit_vector)
    requires
        k < 64,
        j < 64,
    ensures
        word_bit(1u64 << k, j) == (j == k),
{
}

proof fn lemma_bit_ones_from(k: u64, j: u64)
    by (bit_vector)
    requires
        k < 64,
        j < 64,
    ensures
        word_bit(!0u64 << k, j) == (j >= k),
{
}

proof fn lemma_bit_zero_word(j: u64)
    by (bit_vector)
    requires
        j < 64,
    ensures
        !word_bit(0u64, j),
{
}

proof fn lemma_bit_ones_word(j: u64)
    by (bit_vector)
    requires
        j < 64,
    ensures
        word_bit(!0u64, j),
{
}

proof fn lemma_shl_ge_one(k: u64)
    by (bit_vector)
    requires
        k < 64,
    ensures
        (1u64 << k) >= 1,
{
}

proof fn lemma_bit_clear_below(w: u64, k: u64, j: u64)
    by (bit_vector)
    requires
        k < 64,
        j < 64,
    ensures
        word_bit(w & !(((1u64 << k) - 1) as u64), j) == (j >= k && word_bit(w, j)),
{
}

/// Total number of bits in the control word of an inline vector.
pub fn inline_bits() -> (r: usize)
    ensures
        r == 64,
{
    64
}

/// The number of bits an inline vector can store: all bits of the control
/// word except the sentinel and the lowest, reserved bit.
pub fn inline_capacity() -> (r: usize)
    ensures
        r == 62,
{
    inline_bits() - 2
}

/// The number of bits in one storage word of a heap buffer.
pub fn bits_per_storage() -> (r: usize)
    ensures
        r == 64,
{
    64
}

/// The least number of storage words that hold at least `cap` bits.
fn words_for(cap: usize) -> (r: usize)
    requires
        cap <= MAX_BITS,
    ensures
        cap <= r * 64,
        r <= usize::MAX / 64,
{
    let q = cap / 64;
    let rem = cap % 64;
    if rem == 0 {
        proof {
            assert(cap <= (cap / 64) * 64 && cap / 64 <= usize::MAX / 64) by (nonlinear_arith)
                requires
                    cap % 64 == 0,
                    cap <= (usize::MAX / 64) * 64,
            ;
        }
        q
    } else {
        proof {
            assert(cap <= (cap / 64 + 1) * 64 && cap / 64 + 1 <= usize::MAX / 64)
                by (nonlinear_arith)
                requires
                    cap % 64 != 0,
                    cap <= (usize::MAX / 64) * 64,
            ;
        }
        q + 1
    }
}

enum Rep {
    /// All bits in one control word, sentinel encoding.
    Inline(u64),
    /// `len` bits packed low-bit-first into `buf`.
    Heap { len: usize, buf: Vec<u64> },
}

/// A resizable sequence of single-bit values; its view is the sequence of
/// bits, index 0 first.
pub struct BitTable {
    rep: Rep,
    bits: Ghost<Seq<bool>>,
}

impl View for BitTable {
    type V = Seq<bool>;

    closed spec fn view(&self) -> Seq<bool> {
        self.bits@
    }
}

spec fn inline_ok(w: u64, s: Seq<bool>) -> bool {
    &&& s.len() <= 62
    &&& forall|i: int| 0 <= i < s.len() ==> word_bit(w, (63 - i) as u64) == s[i]
    &&& word_bit(w, (63 - s.len()) as u64)
    &&& forall|j: u64| j < 63 - s.len() ==> !word_bit(w, j)
}

spec fn heap_ok(len: usize, buf: Seq<u64>, s: Seq<bool>) -> bool {
    &&& s.len() == len
    &&& buf.len() <= usize::MAX / 64
    &&& len <= buf.len() * 64
    &&& forall|i: int| 0 <= i < s.len() ==> word_bit(buf[i / 64], (i % 64) as u64) == s[i]
}

impl BitTable {
    /// Representation invariant: exactly one of the two modes holds of the
    /// stored bits. Constructors establish it and every method preserves it.
    pub closed spec fn wf(&self) -> bool {
        match self.rep {
            Rep::Inline(w) => inline_ok(w, self.bits@),
            Rep::Heap { len, buf } => heap_ok(len, buf@, self.bits@),
        }
    }

    /// The number of bits the vector can hold without reallocating.
    pub closed spec fn spec_capacity(&self) -> int {
        match self.rep {
            Rep::Inline(_) => 62,
            Rep::Heap { len: _, buf } => (buf@.len() * 64) as int,
        }
    }

    /// A well-formed vector never holds more bits than `MAX_BITS`, and never
    /// more than its capacity.
    pub proof fn lemma_len_le_capacity(&self)
        requires
            self.wf(),
        ensures
            self@.len() <= self.spec_capacity() <= MAX_BITS,
    {
        match self.rep {
            Rep::Inline(_) => {},
            Rep::Heap { len, buf } => {
                assert(buf@.len() * 64 <= (usize::MAX / 64) * 64) by (nonlinear_arith)
                    requires
                        buf@.len() <= usize::MAX / 64,
                ;
            },
        }
    }

    /// Create an empty vector, stored inline.
    pub fn new() -> (r: BitTable)
        ensures
            r.wf(),
            r@ == Seq::<bool>::empty(),
            r.spec_capacity() == 62,
    {
        let w: u64 = 1u64 << 63u64;
        proof {
            assert forall|j: u64| j < 63 implies !word_bit(w, j) by {
                lemma_bit_single(63, j);
            }
            lemma_bit_single(63, 63);
        }
        BitTable { rep: Rep::Inline(w), bits: Ghost(Seq::empty()) }
    }

    /// Create a vector containing `len` bits, each set to `val`.
    pub fn from_elem(len: usize, val: bool) -> (r: BitTable)
        requires
            len <= MAX_BITS,
        ensures
            r.wf(),
            r@ == Seq::new(len as nat, |i: int| val),
            r.spec_capacity() >= len,
    {
        let ghost s = Seq::new(len as nat, |i: int| val);
        if len <= 62 {
            let lu: u64 = len as u64;
            let w: u64 = if val {
                !0u64 << (63 - lu)
            } else {
                1u64 << (63 - lu)
            };
            proof {
                let k: u64 = (63 - len) as u64;
                assert forall|i: int| 0 <= i < s.len() implies word_bit(w, (63 - i) as u64)
                    == s[i] by {
                    if val {
                        lemma_bit_ones_from(k, (63 - i) as u64);
                    } else {
                        lemma_bit_single(k, (63 - i) as u64);
                    }
                }
                if val {
                    lemma_bit_ones_from(k, k);
                } else {
                    lemma_bit_single(k, k);
                }
                assert forall|j: u64| j < 63 - s.len() implies !word_bit(w, j) by {
                    if val {
                        lemma_bit_ones_from(k, j);
                    } else {
                        lemma_bit_single(k, j);
                    }
                }
                assert(inline_ok(w, s));
            }
            BitTable { rep: Rep::Inline(w), bits: Ghost(s) }
        } else {
            let words = words_for(len);
            let init: u64 = if val {
                !0u64
            } else {
                0u64
            };
            let mut buf: Vec<u64> = Vec::new();
            while buf.len() < words
                invariant
                    buf@.len() <= words,
                    forall|k: int| 0 <= k < buf@.len() ==> buf@[k] == init,
                decreases words - buf@.len(),
            {
                buf.push(init);
            }
            proof {
                assert forall|m: int| 0 <= m < s.len() implies word_bit(
                    buf@[m / 64],
                    (m % 64) as u64,
                ) == s[m] by {
                    vstd::arithmetic::div_mod::lemma_mod_bound(m, 64);
                    assert(m / 64 < words) by (nonlinear_arith)
                        requires
                            0 <= m < words * 64,
                    ;
                    if val {
                        lemma_bit_ones_word((m % 64) as u64);
                    } else {
                        lemma_bit_zero_word((m % 64) as u64);
                    }
                }
                assert(heap_ok(len, buf@, s));
            }
            BitTable { rep: Rep::Heap { len, buf }, bits: Ghost(s) }
        }
    }

    /// Create an empty vector with enough storage pre-allocated to hold at
    /// least `cap` bits without resizing.
    pub fn with_capacity(cap: usize) -> (r: BitTable)
        requires
            cap <= MAX_BITS,
        ensures
            r.wf(),
            r@ == Seq::<bool>::empty(),
            r.spec_capacity() >= cap,
    {
        if cap <= 62 {
            BitTable::new()
        } else {
            let words = words_for(cap);
            let mut buf: Vec<u64> = Vec::new();
            while buf.len() < words
                invariant
                    buf@.len() <= words,
                decreases words - buf@.len(),
            {
                buf.push(0u64);
            }
            BitTable { rep: Rep::Heap { len: 0, buf }, bits: Ghost(Seq::empty()) }
        }
    }

    /// The number of bits stored in this vector.
    pub fn len(&self) -> (r: usize)
        requires
            self.wf(),
        ensures
            r == self@.len(),
    {
        proof {
            self.lemma_len_le_capacity();
        }
        match &self.rep {
            Rep::Inline(w) => {
                let ww: u64 = *w;
                let ghost l = self@.len() as int;
                let mut j: u64 = 0;
                while (ww >> j) & 1u64 != 1u64
                    invariant
                        0 <= l <= 62,
                        j <= 63 - l,
                        word_bit(ww, (63 - l) as u64),
                        forall|j2: u64| j2 < 63 - l ==> !word_bit(ww, j2),
                    decreases 64 - j,
                {
                    assert(!word_bit(ww, j));
                    assert(j != 63 - l);
                    j = j + 1;
                }
                assert(word_bit(ww, j));
                assert(j == 63 - l);
                (63 - j) as usize
            },
            Rep::Heap { len, buf: _ } => *len,
        }
    }

    /// Returns true if this vector contains no bits.
    pub fn is_empty(&self) -> (r: bool)
        requires
            self.wf(),
        ensures
            r == (self@.len() == 0),
    {
        self.len() == 0
    }

    /// The number of bits that can be stored without reallocating.
    pub fn capacity(&self) -> (r: usize)
        requires
            self.wf(),
        ensures
            r == self.spec_capacity(),
            self@.len() <= r <= MAX_BITS,
    {
        proof {
            self.lemma_len_le_capacity();
        }
        match &self.rep {
            Rep::Inline(_) => 62,
            Rep::Heap { len: _, buf } => buf.len() * 64,
        }
    }

    /// Read bit `n`; caller guarantees the bound.
    fn get_at(&self, n: usize) -> (r: bool)
        requires
            self.wf(),
            n < self@.len(),
        ensures
            r == self@[n as int],
    {
        match &self.rep {
            Rep::Inline(w) => {
                let sh: u64 = 63 - (n as u64);
                ((*w >> sh) & 1u64) == 1u64
            },
            Rep::Heap { len: _, buf } => {
                let i: usize = n / 64;
                let off: u64 = (n % 64) as u64;
                proof {
                    assert(n / 64 < buf@.len()) by (nonlinear_arith)
                        requires
                            n < buf@.len() * 64,
                    ;
                }
                ((buf[i] >> off) & 1u64) == 1u64
            },
        }
    }

    /// Move to, or enlarge, the heap buffer so that at least `cap` bits fit.
    /// The switch from inline to heap storage is one-way: it happens here,
    /// and only when the required capacity exceeds the inline capacity.
    fn grow_to(&mut self, cap: usize)
        requires
            old(self).wf(),
            old(self).spec_capacity() < cap,
            cap <= MAX_BITS,
        ensures
            final(self).wf(),
            final(self)@ == old(self)@,
            cap <= final(self).spec_capacity(),
    {
        proof {
            self.lemma_len_le_capacity();
        }
        let l = self.len();
        let words = words_for(cap);
        let is_inline = match &self.rep {
            Rep::Inline(_) => true,
            Rep::Heap { .. } => false,
        };
        if is_inline {
            let mut buf: Vec<u64> = Vec::new();
            while buf.len() < words
                invariant
                    buf@.len() <= words,
                    forall|k: int| 0 <= k < buf@.len() ==> buf@[k] == 0u64,
                decreases words - buf@.len(),
            {
                buf.push(0u64);
            }
            proof {
                assert forall|k: int, j: u64| 0 <= k < words && j < 64 implies !(#[trigger]
                word_bit(buf@[k], j)) by {
                    lemma_bit_zero_word(j);
                }
            }
            let mut i: usize = 0;
            while i < l
                invariant
                    i <= l,
                    self.wf(),
                    l == self@.len(),
                    l <= 62 < cap <= words * 64,
                    buf@.len() == words,
                    forall|m: int| 0 <= m < i ==> word_bit(buf@[m / 64], (m % 64) as u64)
                        == #[trigger] self@[m],
                    forall|k: int, j: u64|
                        0 <= k < words && j < 64 && k * 64 + j >= i ==> !(#[trigger] word_bit(
                            buf@[k],
                            j,
                        )),
                decreases l - i,
            {
                let b = self.get_at(i);
                let wi: usize = i / 64;
                let off: u64 = (i % 64) as u64;
                proof {
                    vstd::arithmetic::div_mod::lemma_fundamental_div_mod(i as int, 64);
                    vstd::arithmetic::div_mod::lemma_mod_bound(i as int, 64);
                    assert(i / 64 < words) by (nonlinear_arith)
                        requires
                            i < words * 64,
                    ;
                }
                if b {
                    let ghost buf0 = buf@;
                    let ghost w0: u64 = buf@[wi as int];
                    buf[wi] = buf[wi] | (1u64 << off);
                    proof {
                        assert forall|k: int, j: u64| 0 <= k < words && j < 64 implies #[trigger]
                        word_bit(buf@[k], j) == ((k == wi && j == off) || word_bit(buf0[k], j)) by {
                            if k == wi {
                                lemma_bit_or(w0, off, j);
                            } else {
                                assert(buf@[k] == buf0[k]);
                            }
                        }
                        assert forall|m: int| 0 <= m < i + 1 implies word_bit(
                            buf@[m / 64],
                            (m % 64) as u64,
                        ) == #[trigger] self@[m] by {
                            vstd::arithmetic::div_mod::lemma_fundamental_div_mod(m, 64);
                            vstd::arithmetic::div_mod::lemma_mod_bound(m, 64);
                            assert(m / 64 < words) by (nonlinear_arith)
                                requires
                                    0 <= m < words * 64,
                            ;
                        }
                    }
                } else {
                    proof {
                        assert(!word_bit(buf@[i as int / 64], (i as int % 64) as u64));
                        assert forall|m: int| 0 <= m < i + 1 implies word_bit(
                            buf@[m / 64],
                            (m % 64) as u64,
                        ) == #[trigger] self@[m] by {
                            vstd::arithmetic::div_mod::lemma_fundamental_div_mod(m, 64);
                            vstd::arithmetic::div_mod::lemma_mod_bound(m, 64);
                            assert(m / 64 < words) by (nonlinear_arith)
                                requires
                                    0 <= m < words * 64,
                            ;
                        }
                    }
                }
                i = i + 1;
            }
            proof {
                assert forall|m: int| 0 <= m < l implies word_bit(buf@[m / 64], (m % 64) as u64)
                    == #[trigger] self.bits@[m] by {}
            }
            self.rep = Rep::Heap { len: l, buf };
        } else {
            match &mut self.rep {
                Rep::Inline(_) => {
                    proof {
                        assert(false);
                    }
                },
                Rep::Heap { len, buf } => {
                    let ghost buf0 = buf@;
                    while buf.len() < words
                        invariant
                            buf@.len() <= words,
                            buf0.len() <= buf@.len(),
                            forall|k: int| 0 <= k < buf0.len() ==> buf@[k] == buf0[k],
                        decreases words - buf@.len(),
                    {
                        buf.push(0u64);
                    }
                    proof {
                        assert forall|m: int| 0 <= m < self.bits@.len() implies word_bit(
                            buf@[m / 64],
                            (m % 64) as u64,
                        ) == self.bits@[m] by {
                            assert(m / 64 < buf0.len()) by (nonlinear_arith)
                                requires
                                    0 <= m < buf0.len() * 64,
                            ;
                            assert(buf@[m / 64] == buf0[m / 64]);
                        }
                    }
                },
            }
        }
    }

    /// Reserve capacity for at least `additional` more bits; doubling growth,
    /// so repeated pushes reallocate only rarely. Reallocates only if the
    /// current capacity is insufficient. `CapacityOverflow` when the new
    /// required capacity would exceed the largest representable bit count,
    /// and the vector is then left unchanged.
    pub fn reserve(&mut self, additional: usize) -> (r: Result<(), SdmError>)
        requires
            old(self).wf(),
        ensures
            final(self).wf(),
            final(self)@ == old(self)@,
            final(self).spec_capacity() >= old(self).spec_capacity(),
            old(self)@.len() + additional <= MAX_BITS ==> r == Ok::<(), SdmError>(())
                && final(self).spec_capacity() >= old(self)@.len() + additional,
            old(self)@.len() + additional <= old(self).spec_capacity()
                ==> final(self).spec_capacity() == old(self).spec_capacity(),
            old(self)@.len() + additional > MAX_BITS ==> r == Err::<(), SdmError>(
                SdmError::CapacityOverflow,
            ) && final(self).spec_capacity() == old(self).spec_capacity(),
    {
        proof {
            self.lemma_len_le_capacity();
        }
        let l = self.len();
        let cap = self.capacity();
        let new_cap = match l.checked_add(additional) {
            None => {
                return Err(SdmError::CapacityOverflow);
            },
            Some(nc) => nc,
        };
        if new_cap > MAX_BITS {
            return Err(SdmError::CapacityOverflow);
        }
        if new_cap <= cap {
            return Ok(());
        }
        let double = if cap > MAX_BITS / 2 {
            MAX_BITS
        } else {
            cap * 2
        };
        let target = if new_cap > double {
            new_cap
        } else {
            double
        };
        self.grow_to(target);
        Ok(())
    }

    /// Append a bit to the end of the vector.
    pub fn push(&mut self, val: bool)
        requires
            old(self).wf(),
            old(self)@.len() < MAX_BITS,
        ensures
            final(self).wf(),
            final(self)@ == old(self)@.push(val),
            final(self).spec_capacity() >= old(self).spec_capacity(),
    {
        let l = self.len();
        let cap = self.capacity();
        if l == cap {
            let r = self.reserve(1);
            proof {
                assert(r == Ok::<(), SdmError>(()));
            }
        }
        let ghost s0 = self.bits@;
        let ghost news = s0.push(val);
        match &mut self.rep {
            Rep::Inline(w) => {
                let lu: u64 = l as u64;
                let ghost w0: u64 = *w;
                *w = *w | (1u64 << (62 - lu));
                let ghost w1: u64 = *w;
                if !val {
                    *w = *w & !(1u64 << (63 - lu));
                }
                proof {
                    let nw: u64 = *w;
                    assert forall|j: u64| j < 64 implies word_bit(w1, j) == (j == 62 - lu
                        || word_bit(w0, j)) by {
                        lemma_bit_or(w0, (62 - lu) as u64, j);
                    }
                    if !val {
                        assert forall|j: u64| j < 64 implies word_bit(nw, j) == (j != 63 - lu
                            && word_bit(w1, j)) by {
                            lemma_bit_and_not(w1, (63 - lu) as u64, j);
                        }
                    }
                    assert(word_bit(w0, (63 - lu) as u64));
                    assert(inline_ok(nw, news));
                }
            },
            Rep::Heap { len, buf } => {
                let i: usize = l / 64;
                let off: u64 = (l % 64) as u64;
                proof {
                    assert(l / 64 < buf@.len()) by (nonlinear_arith)
                        requires
                            l < buf@.len() * 64,
                    ;
                }
                let ghost buf0 = buf@;
                let ghost w0: u64 = buf@[i as int];
                if val {
                    buf[i] = buf[i] | (1u64 << off);
                } else {
                    buf[i] = buf[i] & !(1u64 << off);
                }
                *len = l + 1;
                proof {
                    assert forall|m: int| 0 <= m < news.len() implies word_bit(
                        buf@[m / 64],
                        (m % 64) as u64,
                    ) == news[m] by {
                        vstd::arithmetic::div_mod::lemma_fundamental_div_mod(m, 64);
                        vstd::arithmetic::div_mod::lemma_fundamental_div_mod(l as int, 64);
                        vstd::arithmetic::div_mod::lemma_mod_bound(m, 64);
                        if m / 64 == i {
                            if val {
                                lemma_bit_or(w0, off, (m % 64) as u64);
                            } else {
                                lemma_bit_and_not(w0, off, (m % 64) as u64);
                            }
                        } else {
                            assert(buf@[m / 64] == buf0[m / 64]);
                        }
                    }
                    assert(heap_ok(*len, buf@, news));
                }
            },
        }
        self.bits = Ghost(news);
    }

    /// Remove the last bit from the vector and return it; `None`, with the
    /// vector unchanged, when it is empty.
    pub fn pop(&mut self) -> (r: Option<bool>)
        requires
            old(self).wf(),
        ensures
            final(self).wf(),
            final(self).spec_capacity() == old(self).spec_capacity(),
            old(self)@.len() > 0 ==> r == Some(old(self)@.last()) && final(self)@ == old(
                self,
            )@.drop_last(),
            old(self)@.len() == 0 ==> r == None::<bool> && final(self)@ == old(self)@,
    {
        let l = self.len();
        if l == 0 {
            return None;
        }
        let val = self.get_at(l - 1);
        let ghost s0 = self.bits@;
        let ghost news = s0.drop_last();
        match &mut self.rep {
            Rep::Inline(w) => {
                let lu: u64 = l as u64;
                let ghost w0: u64 = *w;
                *w = *w | (1u64 << (64 - lu));
                let ghost w1: u64 = *w;
                proof {
                    lemma_shl_ge_one((64 - lu) as u64);
                }
                *w = *w & !((1u64 << (64 - lu)) - 1);
                proof {
                    let nw: u64 = *w;
                    assert forall|j: u64| j < 64 implies word_bit(w1, j) == (j == 64 - lu
                        || word_bit(w0, j)) by {
                        lemma_bit_or(w0, (64 - lu) as u64, j);
                    }
                    assert forall|j: u64| j < 64 implies word_bit(nw, j) == (j >= 64 - lu
                        && word_bit(w1, j)) by {
                        lemma_bit_clear_below(w1, (64 - lu) as u64, j);
                    }
                    assert(inline_ok(nw, news));
                }
            },
            Rep::Heap { len, buf } => {
                *len = l - 1;
            },
        }
        self.bits = Ghost(news);
        Some(val)
    }

    /// Remove and return the bit at index `idx`, shifting all later bits one
    /// position toward index 0; `IndexOutOfRange` when `idx` is not below the
    /// length, and the vector is then left unchanged.
    pub fn remove(&mut self, idx: usize) -> (r: Result<bool, SdmError>)
        requires
            old(self).wf(),
        ensures
            final(self).wf(),
            final(self).spec_capacity() == old(self).spec_capacity(),
            idx < old(self)@.len() ==> r == Ok::<bool, SdmError>(old(self)@[idx as int])
                && final(self)@ == old(self)@.remove(idx as int),
            idx >= old(self)@.len() ==> r == Err::<bool, SdmError>(SdmError::IndexOutOfRange)
                && final(self)@ == old(self)@,
    {
        let l = self.len();
        if idx >= l {
            return Err(SdmError::IndexOutOfRange);
        }
        let val = self.get_at(idx);
        let mut i: usize = idx;
        while i + 1 < l
            invariant
                self.wf(),
                self@.len() == l,
                idx <= i < l,
                self.spec_capacity() == old(self).spec_capacity(),
                forall|m: int| 0 <= m < idx ==> self@[m] == old(self)@[m],
                forall|m: int| idx <= m < i ==> self@[m] == old(self)@[m + 1],
                forall|m: int| i <= m < l ==> self@[m] == old(self)@[m],
            decreases l - i,
        {
            let b = self.get_at(i + 1);
            self.set_at(i, b);
            i = i + 1;
        }
        let _ = self.pop();
        proof {
            assert(self@ =~= old(self)@.remove(idx as int));
        }
        Ok(val)
    }

    /// Remove all bits from the vector, without releasing its buffer.
    pub fn clear(&mut self)
        requires
            old(self).wf(),
        ensures
            final(self).wf(),
            final(self)@ == Seq::<bool>::empty(),
            final(self).spec_capacity() == old(self).spec_capacity(),
    {
        match &mut self.rep {
            Rep::Inline(w) => {
                *w = 1u64 << 63u64;
                proof {
                    let nw: u64 = *w;
                    assert forall|j: u64| j < 63 implies !word_bit(nw, j) by {
                        lemma_bit_single(63, j);
                    }
                    lemma_bit_single(63, 63);
                }
            },
            Rep::Heap { len, buf: _ } => {
                *len = 0;
            },
        }
        self.bits = Ghost(Seq::empty());
    }

    /// Write bit `n`; caller guarantees the bound.
    fn set_at(&mut self, n: usize, val: bool)
        requires
            old(self).wf(),
            n < old(self)@.len(),
        ensures
            final(self).wf(),
            final(self)@ == old(self)@.update(n as int, val),
            final(self).spec_capacity() == old(self).spec_capacity(),
    {
        let ghost s0 = self.bits@;
        let ghost news = s0.update(n as int, val);
        match &mut self.rep {
            Rep::Inline(w) => {
                let sh: u64 = 63 - (n as u64);
                let ghost w0: u64 = *w;
                if val {
                    *w = *w | (1u64 << sh);
                } else {
                    *w = *w & !(1u64 << sh);
                }
                proof {
                    let nw: u64 = *w;
                    assert forall|i: int| 0 <= i < news.len() implies word_bit(
                        nw,
                        (63 - i) as u64,
                    ) == news[i] by {
                        if val {
                            lemma_bit_or(w0, sh, (63 - i) as u64);
                        } else {
                            lemma_bit_and_not(w0, sh, (63 - i) as u64);
                        }
                    }
                    if val {
                        lemma_bit_or(w0, sh, (63 - news.len()) as u64);
                    } else {
                        lemma_bit_and_not(w0, sh, (63 - news.len()) as u64);
                    }
                    assert forall|j: u64| j < 63 - news.len() implies !word_bit(nw, j) by {
                        if val {
                            lemma_bit_or(w0, sh, j);
                        } else {
                            lemma_bit_and_not(w0, sh, j);
                        }
                    }
                    assert(inline_ok(nw, news));
                }
            },
            Rep::Heap { len, buf } => {
                let i: usize = n / 64;
                let off: u64 = (n % 64) as u64;
                proof {
                    assert(n / 64 < buf@.len()) by (nonlinear_arith)
                        requires
                            n < buf@.len() * 64,
                    ;
                }
                let ghost buf0 = buf@;
                let ghost w0: u64 = buf@[i as int];
                if val {
                    buf[i] = buf[i] | (1u64 << off);
                } else {
                    buf[i] = buf[i] & !(1u64 << off);
                }
                proof {
                    assert forall|m: int| 0 <= m < news.len() implies word_bit(
                        buf@[m / 64],
                        (m % 64) as u64,
                    ) == news[m] by {
                        vstd::arithmetic::div_mod::lemma_fundamental_div_mod(m, 64);
                        vstd::arithmetic::div_mod::lemma_fundamental_div_mod(n as int, 64);
                        if m / 64 == i {
                            if val {
                                lemma_bit_or(w0, off, (m % 64) as u64);
                            } else {
                                lemma_bit_and_not(w0, off, (m % 64) as u64);
                            }
                        } else {
                            assert(buf@[m / 64] == buf0[m / 64]);
                        }
                    }
                    assert(heap_ok(*len, buf@, news));
                }
            },
        }
        self.bits = Ghost(news);
    }

    /// Set the `n`th bit of this vector to `val`; `IndexOutOfRange` when `n`
    /// is not below the length, and the vector is then left unchanged.
    pub fn set(&mut self, n: usize, val: bool) -> (r: Result<(), SdmError>)
        requires
            old(self).wf(),
        ensures
            final(self).wf(),
            final(self).spec_capacity() == old(self).spec_capacity(),
            n < old(self)@.len() ==> r == Ok::<(), SdmError>(()) && final(self)@ == old(
                self,
            )@.update(n as int, val),
            n >= old(self)@.len() ==> r == Err::<(), SdmError>(SdmError::IndexOutOfRange)
                && final(self)@ == old(self)@,
    {
        let l = self.len();
        if n >= l {
            return Err(SdmError::IndexOutOfRange);
        }
        self.set_at(n, val);
        Ok(())
    }

    /// Returns true if every bit of the vector is zero. Scans whole storage
    /// words first and descends to single bits only when a word is nonzero,
    /// so a vector of zeros is scanned one word at a time.
    pub fn all_false(&self) -> (r: bool)
        requires
            self.wf(),
        ensures
            r == (forall|i: int| 0 <= i < self@.len() ==> !self@[i]),
    {
        let l = self.len();
        match &self.rep {
            Rep::Inline(_) => {
                let mut i: usize = 0;
                while i < l
                    invariant
                        self.wf(),
                        i <= l,
                        l == self@.len(),
                        forall|m: int| 0 <= m < i ==> !self@[m],
                    decreases l - i,
                {
                    if self.get_at(i) {
                        return false;
                    }
                    i = i + 1;
                }
                true
            },
            Rep::Heap { len: _, buf } => {
                let full: usize = l / 64;
                proof {
                    assert(l / 64 * 64 <= l && (l % 64 != 0 ==> l / 64 < buf@.len()) && l / 64
                        <= buf@.len()) by (nonlinear_arith)
                        requires
                            l <= buf@.len() * 64,
                    ;
                }
                let mut wi: usize = 0;
                while wi < full
                    invariant
                        self.wf(),
                        wi <= full,
                        full == l as int / 64,
                        full * 64 <= l == self@.len() <= buf@.len() * 64,
                        self.rep == (Rep::Heap { len: l, buf: *buf }),
                        forall|m: int| 0 <= m < wi * 64 ==> !self@[m],
                    decreases full - wi,
                {
                    let word = buf[wi];
                    if word == 0u64 {
                        proof {
                            assert forall|m: int| wi * 64 <= m < wi * 64 + 64 implies !self@[m] by {
                                vstd::arithmetic::div_mod::lemma_fundamental_div_mod(m, 64);
                                vstd::arithmetic::div_mod::lemma_mod_bound(m, 64);
                                assert(m / 64 == wi) by (nonlinear_arith)
                                    requires
                                        wi * 64 <= m < wi * 64 + 64,
                                ;
                                assert(m < l) by (nonlinear_arith)
                                    requires
                                        m < wi * 64 + 64,
                                        wi + 1 <= full,
                                        full * 64 <= l,
                                ;
                                lemma_bit_zero_word((m % 64) as u64);
                            }
                        }
                    } else {
                        let base = wi * 64;
                        proof {
                            assert(wi * 64 + 64 <= l) by (nonlinear_arith)
                                requires
                                    wi + 1 <= full,
                                    full * 64 <= l,
                            ;
                        }
                        let mut j: usize = 0;
                        while j < 64
                            invariant
                                self.wf(),
                                j <= 64,
                                base == wi * 64,
                                base + 64 <= l == self@.len(),
                                forall|m: int| base <= m < base + j ==> !self@[m],
                            decreases 64 - j,
                        {
                            if self.get_at(base + j) {
                                return false;
                            }
                            j = j + 1;
                        }
                        proof {
                            assert forall|m: int| wi * 64 <= m < wi * 64 + 64 implies !self@[m] by {}
                        }
                    }
                    wi = wi + 1;
                }
                let mut p: usize = full * 64;
                while p < l
                    invariant
                        self.wf(),
                        full * 64 <= p <= l,
                        l == self@.len(),
                        forall|m: int| 0 <= m < p ==> !self@[m],
                    decreases l - p,
                {
                    if self.get_at(p) {
                        return false;
                    }
                    p = p + 1;
                }
                true
            },
        }
    }

    /// Returns true if every bit of the vector is one; word-level scan as in
    /// `all_false`.
    pub fn all_true(&self) -> (r: bool)
        requires
            self.wf(),
        ensures
            r == (forall|i: int| 0 <= i < self@.len() ==> self@[i]),
    {
        let l = self.len();
        match &self.rep {
            Rep::Inline(_) => {
                let mut i: usize = 0;
                while i < l
                    invariant
                        self.wf(),
                        i <= l,
                        l == self@.len(),
                        forall|m: int| 0 <= m < i ==> self@[m],
                    decreases l - i,
                {
                    if !self.get_at(i) {
                        return false;
                    }
                    i = i + 1;
                }
                true
            },
            Rep::Heap { len: _, buf } => {
                let full: usize = l / 64;
                proof {
                    assert(l / 64 * 64 <= l && l / 64 <= buf@.len()) by (nonlinear_arith)
                        requires
                            l <= buf@.len() * 64,
                    ;
                }
                let mut wi: usize = 0;
                while wi < full
                    invariant
                        self.wf(),
                        wi <= full,
                        full == l as int / 64,
                        full * 64 <= l == self@.len() <= buf@.len() * 64,
                        self.rep == (Rep::Heap { len: l, buf: *buf }),
                        forall|m: int| 0 <= m < wi * 64 ==> self@[m],
                    decreases full - wi,
                {
                    let word = buf[wi];
                    if word == !0u64 {
                        proof {
                            assert forall|m: int| wi * 64 <= m < wi * 64 + 64 implies self@[m] by {
                                vstd::arithmetic::div_mod::lemma_fundamental_div_mod(m, 64);
                                vstd::arithmetic::div_mod::lemma_mod_bound(m, 64);
                                assert(m / 64 == wi) by (nonlinear_arith)
                                    requires
                                        wi * 64 <= m < wi * 64 + 64,
                                ;
                                assert(m < l) by (nonlinear_arith)
                                    requires
                                        m < wi * 64 + 64,
                                        wi + 1 <= full,
                                        full * 64 <= l,
                                ;
                                lemma_bit_ones_word((m % 64) as u64);
                            }
                        }
                    } else {
                        let base = wi * 64;
                        proof {
                            assert(wi * 64 + 64 <= l) by (nonlinear_arith)
                                requires
                                    wi + 1 <= full,
                                    full * 64 <= l,
                            ;
                        }
                        let mut j: usize = 0;
                        while j < 64
                            invariant
                                self.wf(),
                                j <= 64,
                                base == wi * 64,
                                base + 64 <= l == self@.len(),
                                forall|m: int| base <= m < base + j ==> self@[m],
                            decreases 64 - j,
                        {
                            if !self.get_at(base + j) {
                                return false;
                            }
                            j = j + 1;
                        }
                    }
                    wi = wi + 1;
                }
                let mut p: usize = full * 64;
                while p < l
                    invariant
                        self.wf(),
                        full * 64 <= p <= l,
                        l == self@.len(),
                        forall|m: int| 0 <= m < p ==> self@[m],
                    decreases l - p,
                {
                    if !self.get_at(p) {
                        return false;
                    }
                    p = p + 1;
                }
                true
            },
        }
    }

    /// Deep equality: same length and the same bit at every position,
    /// whatever the representations of the two vectors.
    pub fn equals(&self, other: &BitTable) -> (r: bool)
        requires
            self.wf(),
            other.wf(),
        ensures
            r == (self@ == other@),
    {
        let l = self.len();
        if l != other.len() {
            proof {
                assert(self@ != other@);
            }
            return false;
        }
        let mut i: usize = 0;
        while i < l
            invariant
                self.wf(),
                other.wf(),
                i <= l,
                l == self@.len() == other@.len(),
                forall|m: int| 0 <= m < i ==> self@[m] == other@[m],
            decreases l - i,
        {
            if self.get_at(i) != other.get_at(i) {
                return false;
            }
            i = i + 1;
        }
        proof {
            assert(self@ =~= other@);
        }
        true
    }

    /// Get the `n`th bit of this vector; `IndexOutOfRange` when `n` is not
    /// below the length.
    pub fn get(&self, n: usize) -> (r: Result<bool, SdmError>)
        requires
            self.wf(),
        ensures
            n < self@.len() ==> r == Ok::<bool, SdmError>(self@[n as int]),
            n >= self@.len() ==> r == Err::<bool, SdmError>(SdmError::IndexOutOfRange),
    {
        let l = self.len();
        if n >= l {
            return Err(SdmError::IndexOutOfRange);
        }
        Ok(self.get_at(n))
    }

    /// The Hamming distance to `other`: the number of bit positions at which
    /// the two vectors differ. `LengthMismatch` when the lengths differ.
    pub fn distance(&self, other: &BitTable) -> (r: Result<usize, SdmError>)
        requires
            self.wf(),
            other.wf(),
        ensures
            self@.len() == other@.len() ==> r == Ok::<usize, SdmError>(
                hamming(self@, other@) as usize,
            ),
            self@.len() != other@.len() ==> r == Err::<usize, SdmError>(SdmError::LengthMismatch),
    {
        let l = self.len();
        if l != other.len() {
            return Err(SdmError::LengthMismatch);
        }
        let mut d: usize = 0;
        let mut i: usize = 0;
        while i < l
            invariant
                self.wf(),
                other.wf(),
                i <= l,
                l == self@.len() == other@.len(),
                d <= i,
                d == hamming(self@.take(i as int), other@.take(i as int)),
            decreases l - i,
        {
            proof {
                lemma_hamming_take_step(self@, other@, i as int);
            }
            if self.get_at(i) != other.get_at(i) {
                d = d + 1;
            }
            i = i + 1;
        }
        proof {
            assert(self@.take(l as int) =~= self@);
            assert(other@.take(l as int) =~= other@);
        }
        Ok(d)
    }

    /// Bitwise exclusive or with `other`: a new vector of the same length.
    /// `LengthMismatch` when the lengths differ.
    pub fn xor(&self, other: &BitTable) -> (r: Result<BitTable, SdmError>)
        requires
            self.wf(),
            other.wf(),
        ensures
            self@.len() == other@.len() ==> (r matches Ok(bt) && bt.wf() && bt@.len() == self@.len()
                && forall|i: int| 0 <= i < bt@.len() ==> bt@[i] == (self@[i] != other@[i])),
            self@.len() != other@.len() ==> r == Err::<BitTable, SdmError>(
                SdmError::LengthMismatch,
            ),
    {
        let l = self.len();
        if l != other.len() {
            return Err(SdmError::LengthMismatch);
        }
        proof {
            self.lemma_len_le_capacity();
        }
        let mut out = BitTable::with_capacity(l);
        let mut i: usize = 0;
        while i < l
            invariant
                self.wf(),
                other.wf(),
                out.wf(),
                i <= l,
                l == self@.len() == other@.len(),
                l <= MAX_BITS,
                out@.len() == i,
                forall|m: int| 0 <= m < i ==> out@[m] == (self@[m] != other@[m]),
            decreases l - i,
        {
            out.push(self.get_at(i) != other.get_at(i));
            i = i + 1;
        }
        Ok(out)
    }

    /// Bitwise and with `other`: a new vector of the same length.
    /// `LengthMismatch` when the lengths differ.
    pub fn and(&self, other: &BitTable) -> (r: Result<BitTable, SdmError>)
        requires
            self.wf(),
            other.wf(),
        ensures
            self@.len() == other@.len() ==> (r matches Ok(bt) && bt.wf() && bt@.len() == self@.len()
                && forall|i: int| 0 <= i < bt@.len() ==> bt@[i] == (self@[i] && other@[i])),
            self@.len() != other@.len() ==> r == Err::<BitTable, SdmError>(
                SdmError::LengthMismatch,
            ),
    {
        let l = self.len();
        if l != other.len() {
            return Err(SdmError::LengthMismatch);
        }
        proof {
            self.lemma_len_le_capacity();
        }
        let mut out = BitTable::with_capacity(l);
        let mut i: usize = 0;
        while i < l
            invariant
                self.wf(),
                other.wf(),
                out.wf(),
                i <= l,
                l == self@.len() == other@.len(),
                l <= MAX_BITS,
                out@.len() == i,
                forall|m: int| 0 <= m < i ==> out@[m] == (self@[m] && other@[m]),
            decreases l - i,
        {
            out.push(self.get_at(i) && other.get_at(i));
            i = i + 1;
        }
        Ok(out)
    }

    /// Bitwise inclusive or with `other`: a new vector of the same length.
    /// `LengthMismatch` when the lengths differ.
    pub fn or(&self, other: &BitTable) -> (r: Result<BitTable, SdmError>)
        requires
            self.wf(),
            other.wf(),
        ensures
            self@.len() == other@.len() ==> (r matches Ok(bt) && bt.wf() && bt@.len() == self@.len()
                && forall|i: int| 0 <= i < bt@.len() ==> bt@[i] == (self@[i] || other@[i])),
            self@.len() != other@.len() ==> r == Err::<BitTable, SdmError>(
                SdmError::LengthMismatch,
            ),
    {
        let l = self.len();
        if l != other.len() {
            return Err(SdmError::LengthMismatch);
        }
        proof {
            self.lemma_len_le_capacity();
        }
        let mut out = BitTable::with_capacity(l);
        let mut i: usize = 0;
        while i < l
            invariant
                self.wf(),
                other.wf(),
                out.wf(),
                i <= l,
                l == self@.len() == other@.len(),
                l <= MAX_BITS,
                out@.len() == i,
                forall|m: int| 0 <= m < i ==> out@[m] == (self@[m] || other@[m]),
            decreases l - i,
        {
            out.push(self.get_at(i) || other.get_at(i));
            i = i + 1;
        }
        Ok(out)
    }

    /// Produce a vector of `width` bits, each drawn independently from a fair
    /// coin; used to build the hard locations of an address space.
    pub fn new_rand(width: usize) -> (r: BitTable)
        requires
            width <= MAX_BITS,
        ensures
            r.wf(),
            r@.len() == width,
    {
        let mut out = BitTable::with_capacity(width);
        let mut i: usize = 0;
        while i < width
            invariant
                out.wf(),
                out@.len() == i,
                i <= width <= MAX_BITS,
            decreases width - i,
        {
            out.push(crate::rng::coin());
            i = i + 1;
        }
        out
    }

    /// An iterator over all bits of the vector, in order.
    pub fn iter<'a>(&'a self) -> (it: Iter<'a>)
        requires
            self.wf(),
        ensures
            it.wf(),
            it.elems() == self@,
            it.cur() == 0,
            it.end() == self@.len(),
    {
        let l = self.len();
        Iter { vec: self, at: 0, stop: l }
    }

    /// An immutable view of the bits at positions `r.start..r.end`;
    /// `IndexOutOfRange` when the range does not sit inside the vector.
    pub fn range<'a>(&'a self, r: Range<usize>) -> (res: Result<VecRange<'a>, SdmError>)
        requires
            self.wf(),
        ensures
            r.start <= r.end <= self@.len() ==> (res matches Ok(v) && v.wf() && v.elems()
                == self@.subrange(r.start as int, r.end as int)),
            !(r.start <= r.end <= self@.len()) ==> (res matches Err(e) && e
                == SdmError::IndexOutOfRange),
    {
        let l = self.len();
        if r.start > r.end || r.end > l {
            return Err(SdmError::IndexOutOfRange);
        }
        Ok(VecRange { vec: self, start: r.start, stop: r.end })
    }
}

impl Clone for BitTable {
    /// Deep copy: a heap vector clones its whole buffer, so the copy owns its
    /// storage exclusively and is bit-for-bit equal to the original.
    fn clone(&self) -> (r: Self)
        ensures
            r@ == self@,
            self.wf() ==> r.wf() && r.spec_capacity() == self.spec_capacity(),
    {
        match &self.rep {
            Rep::Inline(w) => BitTable { rep: Rep::Inline(*w), bits: Ghost(self.bits@) },
            Rep::Heap { len, buf } => {
                let nb = buf.clone();
                proof {
                    assert forall|k: int| 0 <= k < buf@.len() implies nb@[k] == buf@[k] by {}
                    assert(nb@ =~= buf@);
                }
                BitTable { rep: Rep::Heap { len: *len, buf: nb }, bits: Ghost(self.bits@) }
            },
        }
    }
}

/// An iterator that borrows a `BitTable` and yields its bits as `bool`
/// values, forward or backward.
pub struct Iter<'a> {
    vec: &'a BitTable,
    at: usize,
    stop: usize,
}

impl<'a> Iter<'a> {
    /// The borrowed vector is well-formed and the cursor bounds sit inside it.
    pub closed spec fn wf(&self) -> bool {
        self.vec.wf() && self.at <= self.stop <= self.vec@.len()
    }

    /// All bits of the borrowed vector.
    pub closed spec fn elems(&self) -> Seq<bool> {
        self.vec@
    }

    /// The next position the iterator yields, counted in `elems()`.
    pub closed spec fn cur(&self) -> int {
        self.at as int
    }

    /// The position the iteration stops at, counted in `elems()`.
    pub closed spec fn end(&self) -> int {
        self.stop as int
    }

    /// Yield the bit at the current position and advance; `None` once the
    /// cursor reaches the stop position.
    pub fn next(&mut self) -> (r: Option<bool>)
        requires
            old(self).wf(),
        ensures
            final(self).wf(),
            final(self).elems() == old(self).elems(),
            final(self).end() == old(self).end(),
            old(self).cur() < old(self).end() ==> r == Some(old(self).elems()[old(self).cur()])
                && final(self).cur() == old(self).cur() + 1,
            old(self).cur() >= old(self).end() ==> r == None::<bool> && final(self).cur() == old(
                self,
            ).cur(),
    {
        if self.at < self.stop {
            let b = self.vec.get_at(self.at);
            self.at = self.at + 1;
            Some(b)
        } else {
            None
        }
    }

    /// Yield the bit just before the stop position and retreat the stop;
    /// `None` once the stop meets the cursor (backward iteration).
    pub fn next_back(&mut self) -> (r: Option<bool>)
        requires
            old(self).wf(),
        ensures
            final(self).wf(),
            final(self).elems() == old(self).elems(),
            final(self).cur() == old(self).cur(),
            old(self).cur() < old(self).end() ==> r == Some(
                old(self).elems()[old(self).end() - 1],
            ) && final(self).end() == old(self).end() - 1,
            old(self).cur() >= old(self).end() ==> r == None::<bool> && final(self).end() == old(
                self,
            ).end(),
    {
        if self.at < self.stop {
            let b = self.vec.get_at(self.stop - 1);
            self.stop = self.stop - 1;
            Some(b)
        } else {
            None
        }
    }
}

/// An immutable view of a contiguous range of bits of a borrowed `BitTable`.
pub struct VecRange<'a> {
    vec: &'a BitTable,
    start: usize,
    stop: usize,
}

impl<'a> VecRange<'a> {
    /// The borrowed vector is well-formed and the range sits inside it.
    pub closed spec fn wf(&self) -> bool {
        self.vec.wf() && self.start <= self.stop <= self.vec@.len()
    }

    /// The bits of the range, in order.
    pub closed spec fn elems(&self) -> Seq<bool> {
        self.vec@.subrange(self.start as int, self.stop as int)
    }

    /// An iterator over exactly the bits of the range.
    pub fn iter(&self) -> (it: Iter<'a>)
        requires
            self.wf(),
        ensures
            it.wf(),
            it.end() - it.cur() == self.elems().len(),
            it.elems().subrange(it.cur(), it.end()) == self.elems(),
    {
        Iter { vec: self.vec, at: self.start, stop: self.stop }
    }

    /// The `i`th bit of the range; `IndexOutOfRange` when `i` is not below
    /// the range's length.
    pub fn get(&self, i: usize) -> (r: Result<bool, SdmError>)
        requires
            self.wf(),
        ensures
            i < self.elems().len() ==> r == Ok::<bool, SdmError>(self.elems()[i as int]),
            i >= self.elems().len() ==> r == Err::<bool, SdmError>(SdmError::IndexOutOfRange),
    {
        if i >= self.stop - self.start {
            return Err(SdmError::IndexOutOfRange);
        }
        Ok(self.vec.get_at(self.start + i))
    }
}

} // verus!
