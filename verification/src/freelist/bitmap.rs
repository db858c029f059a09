//! A packed bitmap: one bit per block, stored in 64-bit words. The view of
//! a bitmap is the sequence of its bits.

use vstd::prelude::*;
use vstd::arithmetic::div_mod::lemma_fundamental_div_mod;

verus! {

/// Bits per backing word.
pub const WORDLEN_BITS: usize = 64;

/// The backing word that holds bit `bit`.
pub fn word(bit: usize) -> (r: usize)
    ensures
        r == bit / 64,
{
    bit / WORDLEN_BITS
}

/// The position of bit `bit` within its backing word.
pub fn index(bit: usize) -> (r: usize)
    ensures
        r == bit % 64,
{
    proof {
        assert(bit & 63 == bit % 64) by (bit_vector);
    }
    bit & (WORDLEN_BITS - 1)
}

/// Bit `j` of word `w`.
pub open spec fn bit64(w: u64, j: u64) -> bool {
    (w >> j) & 1 == 1
}

proof fn lemma_bit64_zero(j: u64)
    requires
        j < 64,
    ensures
        !bit64(0, j),
{
    assert((0u64 >> j) & 1 == 0) by (bit_vector);
}

proof fn lemma_bit64_max(j: u64)
    requires
        j < 64,
    ensures
        bit64(u64::MAX, j),
{
    assert((0xffff_ffff_ffff_ffffu64 >> j) & 1 == 1) by (bit_vector)
        requires
            j < 64,
    ;
}

proof fn lemma_bit64_or(w: u64, k: u64, j: u64)
    requires
        k < 64,
        j < 64,
    ensures
        bit64(w | (1u64 << k), j) == (j == k || bit64(w, j)),
{
    assert((((w | (1u64 << k)) >> j) & 1 == 1) == (j == k || (w >> j) & 1 == 1)) by (bit_vector)
        requires
            k < 64,
            j < 64,
    ;
}

proof fn lemma_bit64_and_not(w: u64, k: u64, j: u64)
    requires
        k < 64,
        j < 64,
    ensures
        bit64(w & !(1u64 << k), j) == (j != k && bit64(w, j)),
{
    assert((((w & !(1u64 << k)) >> j) & 1 == 1) == (j != k && (w >> j) & 1 == 1)) by (bit_vector)
        requires
            k < 64,
            j < 64,
    ;
}

proof fn lemma_bit64_xor(w: u64, k: u64, j: u64)
    requires
        k < 64,
        j < 64,
    ensures
        bit64(w ^ (1u64 << k), j) == (if j == k {
            !bit64(w, j)
        } else {
            bit64(w, j)
        }),
{
    assert((((w ^ (1u64 << k)) >> j) & 1 == 1) == (if j == k {
        !((w >> j) & 1 == 1)
    } else {
        (w >> j) & 1 == 1
    })) by (bit_vector)
        requires
            k < 64,
            j < 64,
    ;
}

proof fn lemma_bit64_not(w: u64, j: u64)
    requires
        j < 64,
    ensures
        bit64(!w, j) == !bit64(w, j),
{
    assert((((!w) >> j) & 1 == 1) == !((w >> j) & 1 == 1)) by (bit_vector)
        requires
            j < 64,
    ;
}

proof fn lemma_bit64_test(w: u64, k: u64)
    requires
        k < 64,
    ensures
        (w & (1u64 << k) != 0) == bit64(w, k),
{
    assert((w & (1u64 << k) != 0) == ((w >> k) & 1 == 1)) by (bit_vector)
        requires
            k < 64,
    ;
}

/// Single-bit operations over an indexable store of bits.
pub trait BitOps {
    /// The structural invariant of the store.
    spec fn bit_inv(&self) -> bool;

    /// How many bits the store holds.
    spec fn bit_len(&self) -> int;

    /// The value of bit `i`.
    spec fn bit_at(&self, i: int) -> bool;

    fn get(&self, i: usize) -> (r: bool)
        requires
            self.bit_inv(),
            i < self.bit_len(),
        ensures
            r == self.bit_at(i as int),
    ;

    fn set(&mut self, i: usize)
        requires
            old(self).bit_inv(),
            i < old(self).bit_len(),
        ensures
            final(self).bit_inv(),
            final(self).bit_len() == old(self).bit_len(),
            forall|j: int|
                0 <= j < old(self).bit_len() ==> final(self).bit_at(j) == (j == i || old(
                    self,
                ).bit_at(j)),
    ;

    fn clear(&mut self, i: usize)
        requires
            old(self).bit_inv(),
            i < old(self).bit_len(),
        ensures
            final(self).bit_inv(),
            final(self).bit_len() == old(self).bit_len(),
            forall|j: int|
                0 <= j < old(self).bit_len() ==> final(self).bit_at(j) == (j != i && old(
                    self,
                ).bit_at(j)),
    ;

    fn invert(&mut self)
        requires
            old(self).bit_inv(),
        ensures
            final(self).bit_inv(),
            final(self).bit_len() == old(self).bit_len(),
            forall|j: int|
                0 <= j < old(self).bit_len() ==> final(self).bit_at(j) == !old(self).bit_at(j),
    ;

    fn toggle(&mut self, i: usize)
        requires
            old(self).bit_inv(),
            i < old(self).bit_len(),
        ensures
            final(self).bit_inv(),
            final(self).bit_len() == old(self).bit_len(),
            forall|j: int|
                0 <= j < old(self).bit_len() ==> final(self).bit_at(j) == (if j == i {
                    !old(self).bit_at(j)
                } else {
                    old(self).bit_at(j)
                }),
    ;

    fn set_value(&mut self, i: usize, val: bool)
        requires
            old(self).bit_inv(),
            i < old(self).bit_len(),
        ensures
            final(self).bit_inv(),
            final(self).bit_len() == old(self).bit_len(),
            forall|j: int|
                0 <= j < old(self).bit_len() ==> final(self).bit_at(j) == (if j == i {
                    val
                } else {
                    old(self).bit_at(j)
                }),
    ;
}

impl BitOps for u64 {
    open spec fn bit_inv(&self) -> bool {
        true
    }

    open spec fn bit_len(&self) -> int {
        64
    }

    open spec fn bit_at(&self, i: int) -> bool {
        bit64(*self, i as u64)
    }

    #[inline]
    fn get(&self, i: usize) -> (r: bool) {
        let k = i as u64;
        proof {
            lemma_bit64_test(*self, k);
        }
        *self & (1u64 << k) != 0
    }

    #[inline]
    fn set(&mut self, i: usize) {
        let k = i as u64;
        *self = *self | (1u64 << k);
        proof {
            assert forall|j: int| 0 <= j < 64 implies self.bit_at(j) == (j == i || old(
                self,
            ).bit_at(j)) by {
                lemma_bit64_or(*old(self), k, j as u64);
            }
        }
    }

    #[inline]
    fn clear(&mut self, i: usize) {
        let k = i as u64;
        *self = *self & !(1u64 << k);
        proof {
            assert forall|j: int| 0 <= j < 64 implies self.bit_at(j) == (j != i && old(
                self,
            ).bit_at(j)) by {
                lemma_bit64_and_not(*old(self), k, j as u64);
            }
        }
    }

    #[inline]
    fn invert(&mut self) {
        proof {
            assert forall|j: int| 0 <= j < 64 implies (!*old(self)).bit_at(j) == !old(self).bit_at(
                j,
            ) by {
                lemma_bit64_not(*old(self), j as u64);
            }
        }
        *self = !*self;
    }

    #[inline]
    fn toggle(&mut self, i: usize) {
        let k = i as u64;
        proof {
            assert forall|j: int| 0 <= j < 64 implies (*old(self) ^ (1u64 << k)).bit_at(j) == (if j
                == i {
                !old(self).bit_at(j)
            } else {
                old(self).bit_at(j)
            }) by {
                lemma_bit64_xor(*old(self), k, j as u64);
            }
        }
        *self = *self ^ (1u64 << k);
    }

    #[inline]
    fn set_value(&mut self, i: usize, val: bool) {
        if val {
            self.set(i);
        } else {
            self.clear(i);
        }
    }
}

/// A bitmap of `size` bits packed into 64-bit words.
#[derive(Debug)]
pub struct Bitmap {
    words: Vec<u64>,
    size: usize,
}

impl View for Bitmap {
    type V = Seq<bool>;

    /// The sequence of the bitmap's bits.
    closed spec fn view(&self) -> Seq<bool> {
        Seq::new(self.size as nat, |i: int| self.words@[i / 64].bit_at(i % 64))
    }
}

impl Bitmap {
    /// The words hold exactly the bits: one word per 64 bits, rounded up.
    pub closed spec fn inv(&self) -> bool {
        self.words@.len() == (self.size + 63) / 64
    }

    /// The word that bit `i` lives in is in bounds, and the view reads that
    /// word.
    proof fn lemma_word_in_bounds(&self, i: int)
        requires
            self.inv(),
            0 <= i < self@.len(),
        ensures
            0 <= i / 64 < self.words@.len(),
            0 <= i % 64 < 64,
            self@[i] == self.words@[i / 64].bit_at(i % 64),
    {
        assert(i / 64 < ((self.size as int) + 63) / 64);
    }

    /// After rewriting the word holding bit `i` so that only position
    /// `i % 64` changed (to `val`), the view changed at `i` alone.
    proof fn lemma_update_word(&self, prev: Bitmap, i: int, val: bool)
        requires
            prev.inv(),
            0 <= i < prev@.len(),
            self.size == prev.size,
            self.words@.len() == prev.words@.len(),
            forall|k: int|
                0 <= k < prev.words@.len() && k != i / 64 ==> self.words@[k] == prev.words@[k],
            forall|j: int|
                0 <= j < 64 ==> #[trigger] self.words@[i / 64].bit_at(j) == (if j == i % 64 {
                    val
                } else {
                    prev.words@[i / 64].bit_at(j)
                }),
        ensures
            self.inv(),
            self@.len() == prev@.len(),
            self@[i] == val,
            forall|j: int| 0 <= j < prev@.len() && j != i ==> self@[j] == prev@[j],
    {
        prev.lemma_word_in_bounds(i);
        self.lemma_word_in_bounds(i);
        assert forall|j: int| 0 <= j < prev@.len() && j != i implies self@[j] == prev@[j] by {
            prev.lemma_word_in_bounds(j);
            self.lemma_word_in_bounds(j);
            if j / 64 == i / 64 {
                lemma_fundamental_div_mod(j, 64);
                lemma_fundamental_div_mod(i, 64);
                assert(j % 64 != i % 64);
            }
        }
    }

    /// A fresh bitmap of `size` bits, all zero.
    pub fn new(size: usize) -> (b: Bitmap)
        ensures
            b.inv(),
            b@.len() == size,
            forall|i: int| 0 <= i < size ==> !b@[i],
    {
        let mut nwords: usize = size / WORDLEN_BITS;
        proof {
            assert(size & 63 == size % 64) by (bit_vector);
            assert(size % 64 != 0 ==> size / 64 + 1 == ((size as int) + 63) / 64);
            assert(size % 64 == 0 ==> size / 64 == ((size as int) + 63) / 64);
            assert(size / 64 < usize::MAX);
        }
        if size & (WORDLEN_BITS - 1) != 0 {
            nwords = nwords + 1;
        }
        let words: Vec<u64> = vec![0u64; nwords];
        let b = Bitmap { words, size };
        proof {
            assert forall|i: int| 0 <= i < size implies !b@[i] by {
                b.lemma_word_in_bounds(i);
                lemma_bit64_zero((i % 64) as u64);
            }
        }
        b
    }

    /// How many bits the bitmap holds.
    pub fn capacity(&self) -> (r: usize)
        ensures
            r == self@.len(),
    {
        self.size
    }

    /// How many backing words the bitmap uses.
    pub fn word_count(&self) -> (r: usize)
        requires
            self.inv(),
        ensures
            r == (self@.len() + 63) / 64,
    {
        self.words.len()
    }

    /// The backing word at position `w`, for inspection.
    pub fn get_word(&self, w: usize) -> (r: u64)
        requires
            self.inv(),
            w < (self@.len() + 63) / 64,
        ensures
            forall|i: int| 0 <= i < self@.len() && i / 64 == w ==> self@[i] == r.bit_at(i % 64),
    {
        proof {
            assert forall|i: int|
                0 <= i < self@.len() && i / 64 == w implies self@[i] == self.words@[w as int].bit_at(
                i % 64,
            ) by {
                self.lemma_word_in_bounds(i);
            }
        }
        self.words[w]
    }

    /// Sets every bit.
    pub fn set_all(&mut self)
        requires
            old(self).inv(),
        ensures
            final(self).inv(),
            final(self)@.len() == old(self)@.len(),
            forall|i: int| 0 <= i < final(self)@.len() ==> final(self)@[i],
    {
        let n = self.words.len();
        let mut w: usize = 0;
        while w < n
            invariant
                self.words@.len() == n,
                self.size == old(self).size,
                w <= n,
                forall|k: int| 0 <= k < w ==> self.words@[k] == u64::MAX,
            decreases n - w,
        {
            self.words[w] = u64::MAX;
            w = w + 1;
        }
        proof {
            assert forall|i: int| 0 <= i < self@.len() implies self@[i] by {
                self.lemma_word_in_bounds(i);
                lemma_bit64_max((i % 64) as u64);
            }
        }
    }

    /// An iterator over the positions of all zero bits.
    pub fn zeros(&self) -> (it: BitmapIterVal<'_>)
        ensures
            it.src() == *self,
            it.pos() == 0,
            it.val() == false,
    {
        BitmapIterVal::new(self, false)
    }

    /// An iterator over the positions of all one bits.
    pub fn ones(&self) -> (it: BitmapIterVal<'_>)
        ensures
            it.src() == *self,
            it.pos() == 0,
            it.val() == true,
    {
        BitmapIterVal::new(self, true)
    }

    /// As `zeros`, for callers that hold the bitmap mutably.
    pub fn zeros_mut(&mut self) -> (it: BitmapIterVal<'_>)
        ensures
            *final(self) == *old(self),
            it.src() == *old(self),
            it.pos() == 0,
            it.val() == false,
    {
        BitmapIterVal::new(self, false)
    }

    /// As `ones`, for callers that hold the bitmap mutably.
    pub fn ones_mut(&mut self) -> (it: BitmapIterVal<'_>)
        ensures
            *final(self) == *old(self),
            it.src() == *old(self),
            it.pos() == 0,
            it.val() == true,
    {
        BitmapIterVal::new(self, true)
    }

    /// An iterator over all the bits in order.
    pub fn iter(&self) -> (it: BitmapIter<'_>)
        ensures
            it.bits_src() == *self,
            it.bits_pos() == 0,
    {
        BitmapIter::new(self)
    }
}

impl BitOps for Bitmap {
    open spec fn bit_inv(&self) -> bool {
        self.inv()
    }

    open spec fn bit_len(&self) -> int {
        self@.len() as int
    }

    open spec fn bit_at(&self, i: int) -> bool {
        self@[i]
    }

    #[inline]
    fn get(&self, i: usize) -> (r: bool) {
        proof {
            self.lemma_word_in_bounds(i as int);
        }
        let w = word(i);
        let k = index(i);
        let wv = self.words[w];
        wv.get(k)
    }

    #[inline]
    fn set(&mut self, i: usize) {
        proof {
            old(self).lemma_word_in_bounds(i as int);
        }
        let w = word(i);
        let k = index(i);
        let mut wv = self.words[w];
        wv.set(k);
        self.words[w] = wv;
        proof {
            self.lemma_update_word(*old(self), i as int, true);
        }
    }

    #[inline]
    fn clear(&mut self, i: usize) {
        proof {
            old(self).lemma_word_in_bounds(i as int);
        }
        let w = word(i);
        let k = index(i);
        let mut wv = self.words[w];
        wv.clear(k);
        self.words[w] = wv;
        proof {
            self.lemma_update_word(*old(self), i as int, false);
        }
    }

    #[inline]
    fn invert(&mut self) {
        let n = self.words.len();
        let mut w: usize = 0;
        while w < n
            invariant
                self.words@.len() == n,
                self.size == old(self).size,
                w <= n,
                forall|k: int| 0 <= k < w ==> self.words@[k] == !old(self).words@[k],
                forall|k: int| w <= k < n ==> self.words@[k] == old(self).words@[k],
            decreases n - w,
        {
            self.words[w] = !self.words[w];
            w = w + 1;
        }
        proof {
            assert forall|i: int| 0 <= i < old(self)@.len() implies self@[i] == !old(self)@[i] by {
                old(self).lemma_word_in_bounds(i);
                self.lemma_word_in_bounds(i);
                lemma_bit64_not(old(self).words@[i / 64], (i % 64) as u64);
            }
        }
    }

    #[inline]
    fn toggle(&mut self, i: usize) {
        proof {
            old(self).lemma_word_in_bounds(i as int);
        }
        let w = word(i);
        let k = index(i);
        let mut wv = self.words[w];
        wv.toggle(k);
        self.words[w] = wv;
        proof {
            self.lemma_update_word(*old(self), i as int, !old(self)@[i as int]);
        }
    }

    #[inline]
    fn set_value(&mut self, i: usize, val: bool) {
        if val {
            self.set(i);
        } else {
            self.clear(i);
        }
    }
}

/// An iterator over every bit of a bitmap, in order.
pub struct BitmapIter<'a> {
    bitmap: &'a Bitmap,
    index: usize,
}

impl<'a> BitmapIter<'a> {
    /// The bitmap being walked.
    pub closed spec fn bits_src(&self) -> Bitmap {
        *self.bitmap
    }

    /// The position of the next bit to yield.
    pub closed spec fn bits_pos(&self) -> int {
        self.index as int
    }

    pub fn new(bitmap: &'a Bitmap) -> (it: Self)
        ensures
            it.bits_src() == *bitmap,
            it.bits_pos() == 0,
    {
        BitmapIter { bitmap, index: 0 }
    }

    /// Yields the next bit, or `None` past the end.
    pub fn next(&mut self) -> (r: Option<bool>)
        requires
            old(self).bits_src().inv(),
        ensures
            final(self).bits_src() == old(self).bits_src(),
            old(self).bits_pos() < old(self).bits_src()@.len() ==> {
                &&& r == Some(old(self).bits_src()@[old(self).bits_pos()])
                &&& final(self).bits_pos() == old(self).bits_pos() + 1
            },
            old(self).bits_pos() >= old(self).bits_src()@.len() ==> {
                &&& r is None
                &&& final(self).bits_pos() == old(self).bits_pos()
            },
    {
        if self.index >= self.bitmap.capacity() {
            None
        } else {
            let idx = self.index;
            self.index = self.index + 1;
            Some(self.bitmap.get(idx))
        }
    }
}

/// An iterator over the positions of all the zero bits, or all the one
/// bits, of a bitmap.
pub struct BitmapIterVal<'a> {
    bitmap: &'a Bitmap,
    index: usize,
    value: bool,
}

impl<'a> BitmapIterVal<'a> {
    /// The bitmap being walked.
    pub closed spec fn src(&self) -> Bitmap {
        *self.bitmap
    }

    /// The position the scan resumes from.
    pub closed spec fn pos(&self) -> int {
        self.index as int
    }

    /// The bit value whose positions are yielded.
    pub closed spec fn val(&self) -> bool {
        self.value
    }

    pub fn new(bitmap: &'a Bitmap, val: bool) -> (it: Self)
        ensures
            it.src() == *bitmap,
            it.pos() == 0,
            it.val() == val,
    {
        Self { bitmap, index: 0, value: val }
    }

    /// Yields the position of the next bit equal to the sought value, or
    /// `None` when no such bit remains.
    pub fn next(&mut self) -> (r: Option<usize>)
        requires
            old(self).src().inv(),
        ensures
            final(self).src() == old(self).src(),
            final(self).val() == old(self).val(),
            r matches Some(idx) ==> {
                &&& old(self).pos() <= idx < old(self).src()@.len()
                &&& old(self).src()@[idx as int] == old(self).val()
                &&& forall|j: int|
                    old(self).pos() <= j < idx ==> old(self).src()@[j] != old(self).val()
                &&& final(self).pos() == idx + 1
            },
            r is None ==> {
                &&& forall|j: int|
                    old(self).pos() <= j < old(self).src()@.len() ==> old(self).src()@[j] != old(
                        self,
                    ).val()
                &&& final(self).pos() == old(self).src()@.len()
            },
    {
        let size = self.bitmap.capacity();
        while self.index < size
            invariant
                self.bitmap == old(self).bitmap,
                self.value == old(self).value,
                self.bitmap.inv(),
                size == self.bitmap@.len(),
                old(self).pos() <= self.index,
                forall|j: int| old(self).pos() <= j < self.index ==> self.bitmap@[j] != self.value,
            decreases size - self.index,
        {
            let bit = self.bitmap.get(self.index);
            let idx = self.index;
            self.index = self.index + 1;
            if bit == self.value {
                return Some(idx);
            }
        }
        if self.index > size {
            self.index = size;
        }
        None
    }
}

} // verus!
