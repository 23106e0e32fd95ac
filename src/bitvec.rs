//! A packed sequence of bits stored in 64-bit words.
use vstd::prelude::*;
use crate::util::{word_bit, popcount_upto, popcount, count_ones, rank_of, word_holds, bits_of, fits, ceil_div_spec, lemma_popcount_upto_le, lemma_rank_step, lemma_rank_le, lemma_rank_mono, lemma_shr_one, lemma_bit_or, lemma_bit_and, lemma_bit_not, lemma_bit_shl, lemma_bit_shr, lemma_bit_mask, lemma_bit_small, lemma_popcount_masked, lemma_popcount_fits, lemma_low_bit};
use crate::rank_select::{BitModel, Access, Rank, Select, BitBuilder, rank_by, is_select_by, word_end};
use crate::profiling::HeapSize;
use crate::Build;

verus! {

/// Relies on u64::count_ones: the number of one bits of the word.
#[verifier::external_body]
pub(crate) fn word_count_ones(w: u64) -> (r: u32)
    ensures
        r == popcount(w),
{
    w.count_ones()
}

/// Relies on Vec::capacity: never less than the length.
#[verifier::external_body]
fn vec_capacity(v: &Vec<u64>) -> (r: usize)
    ensures
        r >= v@.len(),
{
    v.capacity()
}

/// A word whose bits `[off, off + len)` are the low bits of `val`, the others those of `w`.
fn set_word_bits(w: u64, len: u64, off: u64, val: u64) -> (r: u64)
    requires
        1 <= len,
        off + len <= 64,
    ensures
        forall|t: int|
            0 <= t < 64 ==> #[trigger] word_bit(r, t) == if off <= t < off + len {
                word_bit(val, t - off)
            } else {
                word_bit(w, t)
            },
{
    let m = u64::MAX >> (64 - len);
    let mask = m << off;
    proof {
        lemma_bit_mask(len);
        lemma_bit_shl(m, off);
        lemma_bit_not(mask);
        lemma_bit_and(w, !mask);
        lemma_bit_shl(val, off);
        lemma_bit_and(val << off, mask);
        lemma_bit_or(w & !mask, (val << off) & mask);
    }
    (w & !mask) | ((val << off) & mask)
}

/// The `len` lowest bits of `v`, the others cleared.
fn low_bits(v: u64, len: u64) -> (r: u64)
    requires
        len <= 64,
    ensures
        forall|t: int| #[trigger] word_bit(r, t) == (t < len && word_bit(v, t)),
        fits(r, len as nat),
{
    proof {
        lemma_bit_small();
    }
    if len == 0 {
        0
    } else {
        let m = u64::MAX >> (64 - len);
        proof {
            lemma_bit_mask(len);
            lemma_bit_and(v, m);
        }
        v & m
    }
}

/// A sequence of bits packed into words, least significant bit first.
#[derive(Clone, Debug, PartialEq, Eq)]
pub struct BitVec {
    raw_data: Vec<u64>,
    len: usize,
}

/// The bits of a word array, `len` of them.
pub open spec fn bits_of_words(words: Seq<u64>, len: nat) -> Seq<bool> {
    Seq::new(len, |i: int| word_bit(words[i / 64], i % 64))
}

/// Sum of the popcounts of the first `q` words.
pub open spec fn words_pop(words: Seq<u64>, q: nat) -> nat
    decreases q,
{
    if q == 0 {
        0
    } else {
        words_pop(words, (q - 1) as nat) + popcount(words[q - 1])
    }
}

pub proof fn lemma_words_pop_le(words: Seq<u64>, q: nat)
    ensures
        words_pop(words, q) <= 64 * q,
    decreases q,
{
    if q > 0 {
        lemma_words_pop_le(words, (q - 1) as nat);
        lemma_popcount_upto_le(words[q - 1], 64);
    }
}

/// The rank of a position in a word array: full words, then part of one.
pub proof fn lemma_rank_words(words: Seq<u64>, len: nat, i: int)
    requires
        0 <= i <= len,
        len <= 64 * words.len(),
    ensures
        rank_of(bits_of_words(words, len), i) == words_pop(words, (i / 64) as nat)
            + popcount_upto(words[i / 64], (i % 64) as nat),
    decreases i,
{
    let s = bits_of_words(words, len);
    if i > 0 {
        lemma_rank_words(words, len, i - 1);
        lemma_rank_step(s, i - 1);
        let q = (i - 1) / 64;
        let r = (i - 1) % 64;
        if r == 63 {
            assert(i / 64 == q + 1 && i % 64 == 0);
        } else {
            assert(i / 64 == q && i % 64 == r + 1);
        }
    } else {
        assert(s.take(0) =~= Seq::<bool>::empty());
    }
}

impl View for BitVec {
    type V = Seq<bool>;

    /// The bits of the sequence.
    closed spec fn view(&self) -> Seq<bool> {
        bits_of_words(self.raw_data@, self.len as nat)
    }
}

impl BitVec {
    pub const CONTAINER_WIDTH: usize = 64;

    /// The storage words.
    pub closed spec fn words(&self) -> Seq<u64> {
        self.raw_data@
    }

    /// One word per started group of 64 bits; unused bits of the last word are zero.
    pub closed spec fn wf(&self) -> bool {
        &&& self.raw_data@.len() == ceil_div_spec(self.len as int, 64)
        &&& self.len % 64 != 0 ==> fits(self.raw_data@.last(), (self.len % 64) as nat)
    }

    pub fn new() -> (r: Self)
        ensures
            r.wf(),
            r@ == Seq::<bool>::empty(),
    {
        let r = BitVec { raw_data: Vec::new(), len: 0 };
        assert(r@ =~= Seq::<bool>::empty());
        r
    }

    /// An empty sequence with room for `capacity` bits.
    pub fn with_capacity(capacity: usize) -> (r: Self)
        ensures
            r.wf(),
            r@ == Seq::<bool>::empty(),
    {
        let words = capacity / 64 + if capacity % 64 == 0 { 0 } else { 1 };
        let r = BitVec { raw_data: Vec::with_capacity(words), len: 0 };
        assert(r@ =~= Seq::<bool>::empty());
        r
    }

    /// Number of bits the sequence can hold without reallocating.
    pub fn capacity(&self) -> (r: usize)
        requires
            self.wf(),
        ensures
            r >= self@.len() || r == usize::MAX,
    {
        let c = vec_capacity(&self.raw_data);
        if c > usize::MAX / 64 {
            usize::MAX
        } else {
            c * 64
        }
    }

    pub fn len(&self) -> (r: usize)
        ensures
            r == self@.len(),
    {
        self.len
    }

    pub fn is_empty(&self) -> (r: bool)
        requires
            self.wf(),
        ensures
            r == (self@.len() == 0),
    {
        self.raw_data.len() == 0
    }

    /// The storage words, least significant bit first.
    pub fn raw_data(&self) -> (r: &[u64])
        ensures
            r@ == self.words(),
    {
        self.raw_data.as_slice()
    }

    /// Appends one bit.
    pub fn push(&mut self, value: bool)
        requires
            old(self).wf(),
            old(self)@.len() < usize::MAX,
        ensures
            final(self).wf(),
            final(self)@ == old(self)@.push(value),
    {
        let block = self.len / 64;
        let off = self.len % 64;
        let v: u64 = if value { 1 } else { 0 };
        let ghost old_words = self.raw_data@;
        proof {
            lemma_bit_small();
        }
        if off == 0 {
            self.raw_data.push(v);
        } else {
            let w = self.raw_data[block];
            proof {
                lemma_bit_or(w, v << (off as u64));
                lemma_bit_shl(v, off as u64);
            }
            self.raw_data.set(block, w | (v << (off as u64)));
        }
        self.len = self.len + 1;
        proof {
            let nw = self.raw_data@;
            assert forall|i: int| 0 <= i < self.len implies #[trigger] self@[i] == old(self)@.push(value)[i] by {
                if i < self.len - 1 {
                    assert(nw[i / 64] == old_words[i / 64] || (i / 64 == block && i % 64 < off));
                }
            }
            assert(self@ =~= old(self)@.push(value));
        }
    }

    /// Appends the `width` lowest bits of `value`, least significant first.
    pub fn push_bits(&mut self, value: u64, width: usize)
        requires
            old(self).wf(),
            width <= 64,
            old(self)@.len() + width <= usize::MAX,
        ensures
            final(self).wf(),
            final(self)@ == old(self)@ + bits_of(value, width as nat),
    {
        if width == 0 {
            proof {
                assert(old(self)@ + bits_of(value, 0) =~= old(self)@);
            }
            return;
        }
        let val = low_bits(value, width as u64);
        let block = self.len / 64;
        let off = self.len % 64;
        let ghost old_words = self.raw_data@;
        if off == 0 {
            self.raw_data.push(val);
        } else {
            let last = self.raw_data[block];
            proof {
                lemma_bit_or(last, val << (off as u64));
                lemma_bit_shl(val, off as u64);
            }
            self.raw_data.set(block, last | (val << (off as u64)));
            let filled = 64 - off;
            if filled < width {
                proof {
                    lemma_bit_shr(val, filled as u64);
                }
                self.raw_data.push(val >> (filled as u64));
            }
        }
        self.len = self.len + width;
        proof {
            let nw = self.raw_data@;
            let target = old(self)@ + bits_of(value, width as nat);
            assert forall|i: int| 0 <= i < self.len implies #[trigger] self@[i] == target[i] by {
                if i < old(self).len {
                    assert(nw[i / 64] == old_words[i / 64] || (i / 64 == block && i % 64 < off));
                } else {
                    let u = i - old(self).len;
                    if off == 0 {
                        assert(i / 64 == block && i % 64 == u);
                    } else if off + u < 64 {
                        assert(i / 64 == block && i % 64 == off + u);
                    } else {
                        assert(i / 64 == block + 1 && i % 64 == u - (64 - off));
                    }
                }
            }
            assert(self@ =~= target);
        }
    }

    /// The `len` bits starting at `index`, as the low bits of a word.
    pub fn read_bits(&self, index: usize, len: usize) -> (r: u64)
        requires
            self.wf(),
            len <= 64,
            index + len <= self@.len(),
        ensures
            word_holds(r, self@, index as int, len as int),
    {
        proof {
            lemma_bit_small();
        }
        if len == 0 {
            return 0;
        }
        let off = index % 64;
        let q = index / 64;
        let w = self.raw_data[q];
        let w1 = w >> (off as u64);
        proof {
            lemma_bit_shr(w, off as u64);
        }
        if off + len > 64 {
            let w2 = self.raw_data[q + 1];
            let read = 64 - off;
            let rem = len - read;
            let m2 = low_bits(w2, rem as u64);
            proof {
                lemma_bit_shl(m2, read as u64);
                lemma_bit_or(w1, m2 << (read as u64));
                assert forall|t: int| 0 <= t < 64 implies #[trigger] word_bit(w1 | (m2 << (read as u64)), t)
                    == (t < len && self@[index + t]) by {
                    if t < read {
                        assert((index + t) / 64 == q && (index + t) % 64 == off + t);
                    } else if t < len {
                        assert((index + t) / 64 == q + 1 && (index + t) % 64 == t - read);
                    }
                }
            }
            w1 | (m2 << (read as u64))
        } else {
            let r = low_bits(w1, len as u64);
            proof {
                assert forall|t: int| 0 <= t < 64 implies #[trigger] word_bit(r, t) == (t < len
                    && self@[index + t]) by {
                    if t < len {
                        assert((index + t) / 64 == q && (index + t) % 64 == off + t);
                    }
                }
            }
            r
        }
    }

    /// Sets the bit at `index`.
    pub fn set(&mut self, index: usize, value: bool)
        requires
            old(self).wf(),
            index < old(self)@.len(),
        ensures
            final(self).wf(),
            final(self)@ == old(self)@.update(index as int, value),
    {
        let q = index / 64;
        let off = index % 64;
        let v: u64 = if value { 1 } else { 0 };
        proof {
            lemma_bit_small();
        }
        let w = self.raw_data[q];
        let nw = set_word_bits(w, 1, off as u64, v);
        self.raw_data.set(q, nw);
        proof {
            let target = old(self)@.update(index as int, value);
            assert forall|i: int| 0 <= i < self.len implies #[trigger] self@[i] == target[i] by {
                if i / 64 == q {
                    assert(i % 64 == off <==> i == index);
                }
            }
            assert(self@ =~= target);
            if self.len % 64 != 0 {
                assert forall|t: int| (self.len % 64) <= t < 64 implies !#[trigger] word_bit(
                    self.raw_data@.last(),
                    t,
                ) by {
                    if q == self.raw_data@.len() - 1 {
                        assert(word_bit(old(self).raw_data@.last(), t) == false);
                    }
                }
            }
        }
    }

    /// Sets the bits `range` to the low bits of `value`.
    #[verifier::rlimit(60)]
    pub fn set_bits(&mut self, range: std::ops::Range<usize>, value: u64)
        requires
            old(self).wf(),
            range.start <= range.end <= old(self)@.len(),
            range.end - range.start <= 64,
        ensures
            final(self).wf(),
            final(self)@ == old(self)@.take(range.start as int) + bits_of(
                value,
                (range.end - range.start) as nat,
            ) + old(self)@.skip(range.end as int),
    {
        let start = range.start;
        let end_ex = range.end;
        let ghost target = old(self)@.take(start as int) + bits_of(value, (end_ex - start) as nat)
            + old(self)@.skip(end_ex as int);
        if start == end_ex {
            proof {
                assert(target =~= old(self)@);
            }
            return;
        }
        let width = end_ex - start;
        let end = end_ex - 1;
        let first_index = start / 64;
        let first_offset = start % 64;
        let last_index = end / 64;
        if first_index == last_index {
            let w = self.raw_data[first_index];
            let nw = set_word_bits(w, width as u64, first_offset as u64, value);
            self.raw_data.set(first_index, nw);
            proof {
                assert forall|i: int| 0 <= i < self.len implies #[trigger] self@[i] == target[i] by {
                    if i / 64 == first_index {
                        assert(first_offset <= i % 64 < first_offset + width <==> start <= i < end_ex);
                    }
                }
            }
        } else {
            let first_bits = 64 - first_offset;
            let w = self.raw_data[first_index];
            let nw = set_word_bits(w, first_bits as u64, first_offset as u64, value);
            self.raw_data.set(first_index, nw);
            let last_bits = width - first_bits;
            let hi = value >> (first_bits as u64);
            proof {
                lemma_bit_shr(value, first_bits as u64);
            }
            let w2 = self.raw_data[last_index];
            let nw2 = set_word_bits(w2, last_bits as u64, 0, hi);
            self.raw_data.set(last_index, nw2);
            proof {
                assert(last_index == first_index + 1);
                assert forall|i: int| 0 <= i < self.len implies #[trigger] self@[i] == target[i] by {
                    if i / 64 == first_index {
                        assert(first_offset <= i % 64 <==> start <= i);
                    } else if i / 64 == last_index {
                        assert(i % 64 < last_bits <==> i < end_ex);
                        assert(i - start == i % 64 + first_bits);
                    }
                }
            }
        }
        proof {
            assert(self@ =~= target);
            if self.len % 64 != 0 {
                assert forall|t: int| (self.len % 64) <= t < 64 implies !#[trigger] word_bit(
                    self.raw_data@.last(),
                    t,
                ) by {
                    assert(word_bit(old(self).raw_data@.last(), t) == false);
                }
            }
        }
    }

    /// Removes and returns the last bit.
    pub fn pop(&mut self) -> (r: bool)
        requires
            old(self).wf(),
            old(self)@.len() > 0,
        ensures
            final(self).wf(),
            r == old(self)@.last(),
            final(self)@ == old(self)@.drop_last(),
    {
        let n = self.len;
        let value = self.read(n - 1);
        self.set(n - 1, false);
        let ghost mid = self@;
        let ghost mid_words = self.raw_data@;
        assert(self@.len() == self.len);
        assert(self.len == n);
        self.len = n - 1;
        if self.len % 64 == 0 {
            self.raw_data.pop();
        }
        proof {
            assert forall|i: int| 0 <= i < self.len implies #[trigger] self@[i] == mid[i] by {
                assert(self.raw_data@[i / 64] == mid_words[i / 64]);
            }
            assert(mid =~= old(self)@.update(n - 1, false));
            assert(self@ =~= old(self)@.drop_last());
            if self.len % 64 != 0 {
                let last = self.raw_data@.last();
                assert(last == mid_words.last());
                assert forall|t: int| (self.len % 64) <= t < 64 implies !#[trigger] word_bit(last, t) by {
                    if t == self.len % 64 {
                        assert(mid[self.len as int] == false);
                        assert(self.len as int / 64 == mid_words.len() - 1);
                    } else {
                        assert(!word_bit(mid_words.last(), t));
                    }
                }
            }
        }
        value
    }

    /// Removes the last `n` bits and returns them as the low bits of a word.
    pub fn pop_bits(&mut self, n: usize) -> (r: u64)
        requires
            old(self).wf(),
            n <= old(self)@.len(),
            n <= 64,
        ensures
            final(self).wf(),
            word_holds(r, old(self)@, old(self)@.len() - n, n as int),
            final(self)@ == old(self)@.take(old(self)@.len() - n),
    {
        let new_len = self.len - n;
        let value = self.read_bits(new_len, n);
        let new_words = new_len / 64 + if new_len % 64 == 0 { 0 } else { 1 };
        self.raw_data.truncate(new_words);
        let off = new_len % 64;
        let ghost mid_words = self.raw_data@;
        if off != 0 {
            let last = self.raw_data[new_words - 1];
            let cleared = low_bits(last, off as u64);
            self.raw_data.set(new_words - 1, cleared);
        }
        self.len = new_len;
        proof {
            assert forall|i: int| 0 <= i < self.len implies #[trigger] self@[i] == old(self)@[i] by {
                assert(i / 64 < new_words);
                if off != 0 && i / 64 == new_words - 1 {
                    assert(i % 64 < off);
                }
            }
            assert(self@ =~= old(self)@.take(old(self)@.len() - n));
        }
        value
    }

    /// `n` copies of `value`.
    pub fn from_value(value: bool, n: usize) -> (r: Self)
        ensures
            r.wf(),
            r@ == Seq::new(n as nat, |i: int| value),
    {
        let num_words = n / 64 + if n % 64 == 0 { 0 } else { 1 };
        let fill: u64 = if value { u64::MAX } else { 0 };
        proof {
            lemma_bit_small();
        }
        let mut raw_data: Vec<u64> = Vec::with_capacity(num_words);
        let mut i: usize = 0;
        while i < num_words
            invariant
                i <= num_words,
                raw_data@.len() == i,
                forall|j: int| 0 <= j < i ==> raw_data@[j] == fill,
            decreases num_words - i,
        {
            raw_data.push(fill);
            i = i + 1;
        }
        let off = n % 64;
        if off != 0 {
            let last = low_bits(fill, off as u64);
            raw_data.set(num_words - 1, last);
        }
        let r = BitVec { raw_data, len: n };
        proof {
            assert forall|j: int| 0 <= j < n implies #[trigger] r@[j] == value by {
                assert(j / 64 < num_words);
                if off != 0 && j / 64 == num_words - 1 {
                    assert(j % 64 < off);
                }
            }
            assert(r@ =~= Seq::new(n as nat, |i: int| value));
        }
        r
    }

    /// How the words hold the bits: bit `i` is bit `i % 64` of word `i / 64`, there are just
    /// enough words, and the bits of the last word past the end are zero.
    pub proof fn lemma_words(&self)
        requires
            self.wf(),
        ensures
            self.words().len() == ceil_div_spec(self@.len() as int, 64),
            forall|i: int| 0 <= i < self@.len() ==> #[trigger] self@[i] == word_bit(self.words()[i / 64], i % 64),
            self@.len() % 64 != 0 ==> fits(self.words().last(), (self@.len() % 64) as nat),
    {
    }

    /// The words are just enough to hold the bits.
    pub proof fn lemma_len(&self)
        requires
            self.wf(),
        ensures
            self.words().len() == ceil_div_spec(self@.len() as int, 64),
            self@.len() <= 64 * self.words().len(),
            self@.len() <= usize::MAX,
    {
    }

    /// The ones in word `q` are the rank difference across that word.
    pub proof fn lemma_word_rank(&self, q: int)
        requires
            self.wf(),
            0 <= q < self.words().len(),
        ensures
            64 * q < self@.len(),
            popcount(self.words()[q]) == rank_of(self@, word_end(self@.len(), q)) - rank_of(self@, 64 * q),
    {
        let w = self.raw_data@;
        lemma_rank_words(w, self.len as nat, 64 * q);
        assert((64 * q) / 64 == q && (64 * q) % 64 == 0);
        if 64 * (q + 1) <= self.len {
            lemma_rank_words(w, self.len as nat, 64 * (q + 1));
            assert((64 * (q + 1)) / 64 == q + 1 && (64 * (q + 1)) % 64 == 0);
        } else {
            lemma_rank_words(w, self.len as nat, self.len as int);
            assert(q == w.len() - 1);
            assert(self.len / 64 == q);
            lemma_popcount_fits(w[q], (self.len % 64) as nat, 64);
        }
    }

    /// Ones (or zeros) among the bits of word `q`, with the range they span.
    pub(crate) fn word_count(&self, q: usize, ones: bool) -> (r: usize)
        requires
            self.wf(),
            q < self.words().len(),
        ensures
            64 * q < self@.len(),
            r == rank_by(self@, word_end(self@.len(), q as int), ones) - rank_by(self@, 64 * q, ones),
            r <= 64,
    {
        proof {
            self.lemma_word_rank(q as int);
            lemma_rank_mono(self@, 64 * q, word_end(self@.len(), q as int));
            lemma_popcount_upto_le(self.raw_data@[q as int], 64);
        }
        let c = word_count_ones(self.raw_data[q]) as usize;
        if ones {
            c
        } else {
            let width: usize = if self.len - 64 * q >= 64 { 64 } else { self.len - 64 * q };
            width - c
        }
    }

    /// Ones in `[64 * (index / 64), index)`.
    pub(crate) fn word_prefix_ones(&self, index: usize) -> (r: usize)
        requires
            self.wf(),
            index <= self@.len(),
        ensures
            r == rank_of(self@, index as int) - rank_of(self@, 64 * (index as int / 64)),
            r < 64,
    {
        let q = index / 64;
        let off = index % 64;
        proof {
            lemma_rank_words(self.raw_data@, self.len as nat, index as int);
            lemma_rank_words(self.raw_data@, self.len as nat, 64 * q);
            assert((64 * q) / 64 == q && (64 * q) % 64 == 0);
        }
        if off == 0 {
            return 0;
        }
        let w = self.raw_data[q];
        let m = low_bits(w, off as u64);
        let c = word_count_ones(m);
        proof {
            lemma_popcount_masked(m, w, off as nat, 64);
            lemma_popcount_upto_le(w, off as nat);
        }
        c as usize
    }

    /// The position inside word `q` where `target` ones (or zeros) have been seen, given
    /// `base` of them before the word.
    pub(crate) fn scan_word(&self, q: usize, base: usize, target: usize, ones: bool) -> (p: usize)
        requires
            self.wf(),
            q < self.words().len(),
            64 * q <= self@.len(),
            base == rank_by(self@, 64 * q, ones),
            base < target <= rank_by(self@, word_end(self@.len(), q as int), ones),
        ensures
            is_select_by(self@, target as int, p as int, ones),
    {
        let ghost e = word_end(self@.len(), q as int);
        let block = self.raw_data[q];
        let mut count = base;
        let mut bit_index: usize = 0;
        let mut word = block;
        proof {
            assert(block >> 0u64 == block) by (bit_vector);
            lemma_rank_le(self@, e);
        }
        while count < target
            invariant
                self.wf(),
                q < self.raw_data@.len(),
                block == self.raw_data@[q as int],
                e == word_end(self@.len(), q as int),
                64 * q <= self.len,
                e <= self.len,
                target <= rank_by(self@, e, ones),
                bit_index <= 64,
                64 * q + bit_index <= e,
                word == block >> (bit_index as u64),
                count == rank_by(self@, 64 * q + bit_index, ones),
                count <= target,
                count < target || (bit_index > 0 && self@[64 * q + bit_index - 1] == ones),
            decreases 64 - bit_index,
        {
            let ghost pos = 64 * q + bit_index;
            assert(pos < e);
            assert(pos / 64 == q && pos % 64 == bit_index);
            proof {
                lemma_rank_step(self@, pos);
                lemma_shr_one(block, bit_index as u64);
                lemma_low_bit(word);
            }
            if (word & 1 == 1) == ones {
                count = count + 1;
            }
            word = word >> 1;
            bit_index = bit_index + 1;
        }
        proof {
            lemma_rank_le(self@, 64 * q + bit_index);
        }
        q * 64 + bit_index
    }

    /// `select` (ones) or `select0` (zeros) by a scan over the words.
    fn select_by(&self, target: usize, ones: bool) -> (r: Option<usize>)
        requires
            self.wf(),
        ensures
            target <= rank_by(self@, self@.len() as int, ones) <==> r.is_some(),
            r.is_some() ==> is_select_by(self@, target as int, r.unwrap() as int, ones),
    {
        proof {
            lemma_rank_le(self@, self.len as int);
            assert(self@.take(0) =~= Seq::<bool>::empty());
        }
        if target == 0 {
            return Some(0);
        }
        let n = self.raw_data.len();
        let mut count: usize = 0;
        let mut i: usize = 0;
        while i < n
            invariant
                self.wf(),
                n == self.raw_data@.len(),
                i <= n,
                0 < target,
                count < target,
                count == rank_by(self@, if 64 * i <= self.len { 64 * i } else { self.len as int }, ones),
            decreases n - i,
        {
            let c = self.word_count(i, ones);
            proof {
                lemma_rank_le(self@, word_end(self.len as nat, i as int));
            }
            if count + c >= target {
                proof {
                    lemma_rank_mono(self@, word_end(self.len as nat, i as int), self.len as int);
                }
                return Some(self.scan_word(i, count, target, ones));
            }
            count = count + c;
            i = i + 1;
        }
        None
    }

    /// The bit at `index`.
    pub fn read(&self, index: usize) -> (r: bool)
        requires
            self.wf(),
            index < self@.len(),
        ensures
            r == self@[index as int],
    {
        let w = self.raw_data[index / 64];
        (w >> ((index % 64) as u64)) & 1 == 1
    }
}

impl Default for BitVec {
    fn default() -> (r: Self)
        ensures
            r.wf(),
            r@ == Seq::<bool>::empty(),
    {
        BitVec::new()
    }
}

impl HeapSize for BitVec {
    /// One 64-bit word per started group of 64 bits.
    open spec fn heap_bits(&self) -> nat {
        64 * self.words().len()
    }

    fn heap_size_in_bits(&self) -> (r: usize) {
        crate::profiling::mul_capped(self.raw_data.len(), 64)
    }
}

/// Builds a `BitVec` from a `BitVec`: the identity.
pub struct BitVecSpec;

impl BitVecSpec {
    pub fn new() -> (r: Self) {
        BitVecSpec
    }
}

impl BitVec {
    /// The builder of plain bit sequences.
    pub fn spec() -> (r: BitVecSpec) {
        BitVecSpec::new()
    }

    /// An iterator over the bits.
    pub fn iter(&self) -> (r: Iter<'_>)
        ensures
            r.seq() == self,
            r.pos() == 0,
    {
        Iter::new(self)
    }

    /// An iterator that owns the bits.
    pub fn into_iter(self) -> (r: IntoIter)
        ensures
            r.seq() == self,
            r.pos() == 0,
    {
        IntoIter::new(self)
    }
}

impl Build<BitVec, BitVec> for BitVecSpec {
    open spec fn accepts(&self, data: &BitVec) -> bool {
        true
    }

    open spec fn builds(&self, data: &BitVec, out: &BitVec) -> bool {
        *out == *data
    }

    fn build(&self, data: BitVec) -> (r: BitVec) {
        data
    }
}

impl BitBuilder<BitVec> for BitVecSpec {
    open spec fn ready(&self) -> bool {
        true
    }

    fn build_bits(&self, data: BitVec) -> (r: BitVec) {
        data
    }
}

/// Walks the bits of a borrowed `BitVec`.
pub struct Iter<'a> {
    bitvec: &'a BitVec,
    index: usize,
}

impl<'a> Iter<'a> {
    pub closed spec fn seq(&self) -> &'a BitVec {
        self.bitvec
    }

    pub closed spec fn pos(&self) -> nat {
        self.index as nat
    }

    pub fn new(bitvec: &'a BitVec) -> (r: Self)
        ensures
            r.seq() == bitvec,
            r.pos() == 0,
    {
        Iter { bitvec, index: 0 }
    }

    /// The next bit; absent past the end.
    pub fn next(&mut self) -> (r: Option<bool>)
        requires
            old(self).seq().wf(),
        ensures
            final(self).seq() == old(self).seq(),
            old(self).pos() < old(self).seq()@.len() ==> r == Some(old(self).seq()@[old(self).pos() as int])
                && final(self).pos() == old(self).pos() + 1,
            old(self).pos() >= old(self).seq()@.len() ==> r.is_none() && final(self).pos() == old(self).pos(),
    {
        let r = self.bitvec.access(self.index);
        if r.is_some() {
            self.index = self.index + 1;
        }
        r
    }
}

/// Walks the bits of an owned `BitVec`.
pub struct IntoIter {
    bitvec: BitVec,
    index: usize,
}

impl IntoIter {
    pub closed spec fn seq(&self) -> BitVec {
        self.bitvec
    }

    pub closed spec fn pos(&self) -> nat {
        self.index as nat
    }

    pub fn new(bitvec: BitVec) -> (r: Self)
        ensures
            r.seq() == bitvec,
            r.pos() == 0,
    {
        IntoIter { bitvec, index: 0 }
    }

    /// The next bit; absent past the end.
    pub fn next(&mut self) -> (r: Option<bool>)
        requires
            old(self).seq().wf(),
        ensures
            final(self).seq() == old(self).seq(),
            old(self).pos() < old(self).seq()@.len() ==> r == Some(old(self).seq()@[old(self).pos() as int])
                && final(self).pos() == old(self).pos() + 1,
            old(self).pos() >= old(self).seq()@.len() ==> r.is_none() && final(self).pos() == old(self).pos(),
    {
        let r = self.bitvec.access(self.index);
        if r.is_some() {
            self.index = self.index + 1;
        }
        r
    }
}

impl BitModel for BitVec {
    open spec fn bits(&self) -> Seq<bool> {
        self@
    }

    open spec fn inv(&self) -> bool {
        self.wf()
    }
}

impl Access for BitVec {
    fn access(&self, index: usize) -> (r: Option<bool>) {
        if index >= self.len {
            return None;
        }
        Some(self.read(index))
    }
}

impl Rank for BitVec {
    fn rank(&self, index: usize) -> (r: Option<usize>) {
        if index > self.len {
            return None;
        }
        let q = index / 64;
        let off = index % 64;
        let mut sum: usize = 0;
        let mut p: usize = 0;
        while p < q
            invariant
                self.wf(),
                q == index / 64,
                index <= self.len,
                p <= q,
                sum == words_pop(self.raw_data@, p as nat),
            decreases q - p,
        {
            proof {
                lemma_words_pop_le(self.raw_data@, (p + 1) as nat);
            }
            let c = word_count_ones(self.raw_data[p]);
            sum = sum + c as usize;
            p = p + 1;
        }
        let mut last: usize = 0;
        if off != 0 {
            let w = self.raw_data[q];
            let m = low_bits(w, off as u64);
            let c = word_count_ones(m);
            proof {
                lemma_popcount_masked(m, w, off as nat, 64);
            }
            last = c as usize;
        }
        proof {
            lemma_rank_words(self.raw_data@, self.len as nat, index as int);
            lemma_rank_le(self@, index as int);
        }
        Some(sum + last)
    }

    fn rank0(&self, index: usize) -> (r: Option<usize>) {
        match self.rank(index) {
            Some(r) => {
                proof {
                    lemma_rank_le(self@, index as int);
                }
                Some(index - r)
            },
            None => None,
        }
    }
}

impl Select for BitVec {
    fn select(&self, rank: usize) -> (r: Option<usize>) {
        self.select_by(rank, true)
    }

    fn select0(&self, rank0: usize) -> (r: Option<usize>) {
        self.select_by(rank0, false)
    }
}

impl BitVec {
    /// The bits of the words, 64 per word, least significant first.
    pub fn from_words(words: &[u64]) -> (r: Self)
        requires
            words@.len() <= usize::MAX / 64,
        ensures
            r.wf(),
            r@.len() == 64 * words@.len(),
            forall|i: int| 0 <= i < r@.len() ==> #[trigger] r@[i] == word_bit(words@[i / 64], i % 64),
    {
        let mut r = BitVec::new();
        let mut j: usize = 0;
        while j < words.len()
            invariant
                words@.len() <= usize::MAX / 64,
                j <= words@.len(),
                r.wf(),
                r@.len() == 64 * j,
                forall|i: int| 0 <= i < r@.len() ==> #[trigger] r@[i] == word_bit(words@[i / 64], i % 64),
            decreases words@.len() - j,
        {
            let ghost before = r@;
            r.push_bits(words[j], 64);
            proof {
                assert forall|i: int| 0 <= i < r@.len() implies #[trigger] r@[i] == word_bit(words@[i / 64], i % 64) by {
                    if i >= 64 * j {
                        assert(i / 64 == j && i % 64 == i - 64 * j);
                        assert(r@[i] == bits_of(words@[j as int], 64)[i - 64 * j]);
                    } else {
                        assert(r@[i] == before[i]);
                    }
                }
            }
            j = j + 1;
        }
        r
    }

    /// The bits of the bytes, 8 per byte, least significant first.
    pub fn from_bytes(bytes: &[u8]) -> (r: Self)
        requires
            bytes@.len() <= usize::MAX / 8,
        ensures
            r.wf(),
            r@.len() == 8 * bytes@.len(),
            forall|i: int| 0 <= i < r@.len() ==> #[trigger] r@[i] == word_bit(bytes@[i / 8] as u64, i % 8),
    {
        let mut r = BitVec::new();
        let mut j: usize = 0;
        while j < bytes.len()
            invariant
                bytes@.len() <= usize::MAX / 8,
                j <= bytes@.len(),
                r.wf(),
                r@.len() == 8 * j,
                forall|i: int| 0 <= i < r@.len() ==> #[trigger] r@[i] == word_bit(bytes@[i / 8] as u64, i % 8),
            decreases bytes@.len() - j,
        {
            let ghost before = r@;
            r.push_bits(bytes[j] as u64, 8);
            proof {
                assert forall|i: int| 0 <= i < r@.len() implies #[trigger] r@[i] == word_bit(bytes@[i / 8] as u64, i % 8) by {
                    if i >= 8 * j {
                        assert(i / 8 == j && i % 8 == i - 8 * j);
                        assert(r@[i] == bits_of(bytes@[j as int] as u64, 8)[i - 8 * j]);
                    } else {
                        assert(r@[i] == before[i]);
                    }
                }
            }
            j = j + 1;
        }
        r
    }

    /// The given bits, in order.
    pub fn from_bools(bools: &[bool]) -> (r: Self)
        requires
            bools@.len() < usize::MAX,
        ensures
            r.wf(),
            r@ == bools@,
    {
        let mut r = BitVec::new();
        let mut j: usize = 0;
        while j < bools.len()
            invariant
                bools@.len() < usize::MAX,
                j <= bools@.len(),
                r.wf(),
                r@ == bools@.take(j as int),
            decreases bools@.len() - j,
        {
            r.push(bools[j]);
            proof {
                assert(bools@.take(j as int).push(bools@[j as int]) =~= bools@.take(j + 1));
            }
            j = j + 1;
        }
        proof {
            assert(bools@.take(j as int) =~= bools@);
        }
        r
    }
}

} // verus!
