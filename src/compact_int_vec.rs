//! A vector of integers of one fixed width, packed into a bit sequence.
use vstd::prelude::*;
use crate::util::{bits_of, fits, value_of, lemma_value_of_agree, lemma_word_holds_value, word_bit};
use crate::bitvec::BitVec;
use crate::profiling::HeapSize;

verus! {

/// Integers of `width` bits each, stored one after the other in a `BitVec`.
pub struct CompactIntVec {
    raw_data: BitVec,
    width: usize,
    len: usize,
}

/// The integers stored in `bits`, `width` bits each.
pub open spec fn ints_of(bits: Seq<bool>, width: nat, len: nat) -> Seq<u64> {
    Seq::new(len, |j: int| value_of(bits, j * width, width) as u64)
}

impl View for CompactIntVec {
    type V = Seq<u64>;

    closed spec fn view(&self) -> Seq<u64> {
        ints_of(self.raw_data@, self.width as nat, self.len as nat)
    }
}

/// Bits of later integers do not change the earlier ones.
proof fn lemma_ints_prefix(b1: Seq<bool>, b2: Seq<bool>, width: nat, len: nat)
    requires
        len * width <= b1.len() <= b2.len(),
        b1 =~= b2.take(b1.len() as int),
    ensures
        ints_of(b1, width, len) =~= ints_of(b2, width, len),
{
    assert forall|j: int| 0 <= j < len implies #[trigger] ints_of(b1, width, len)[j] == ints_of(
        b2,
        width,
        len,
    )[j] by {
        assert((j + 1) * width <= len * width) by (nonlinear_arith)
            requires
                j + 1 <= len,
        ;
        assert(j * width + width == (j + 1) * width) by (nonlinear_arith);
        assert forall|t: int| 0 <= t < width implies #[trigger] b1[j * width + t] == b2[j * width + t] by {
            assert(0 <= j * width) by (nonlinear_arith)
                requires
                    0 <= j,
            ;
        }
        lemma_value_of_agree(b1, b2, j * width, width);
    }
}

impl CompactIntVec {
    /// The width of each integer.
    pub closed spec fn width_spec(&self) -> nat {
        self.width as nat
    }

    /// The underlying bits.
    pub closed spec fn bits(&self) -> Seq<bool> {
        self.raw_data@
    }

    pub closed spec fn wf(&self) -> bool {
        &&& self.raw_data.wf()
        &&& self.width <= 64
        &&& self.raw_data@.len() == self.len * self.width
        &&& self.len * self.width <= usize::MAX
    }

    /// The underlying bits hold exactly the integers.
    pub proof fn lemma_bits_len(&self)
        requires
            self.wf(),
        ensures
            self.bits().len() == self@.len() * self.width_spec(),
            self.bits().len() <= usize::MAX,
            self.width_spec() <= 64,
    {
    }

    /// An empty vector of integers of `width` bits.
    pub fn new(width: usize) -> (r: Self)
        requires
            width <= 64,
        ensures
            r.wf(),
            r@ == Seq::<u64>::empty(),
            r.width_spec() == width,
    {
        let r = CompactIntVec { raw_data: BitVec::new(), width, len: 0 };
        assert(r@ =~= Seq::<u64>::empty());
        r
    }

    /// An empty vector of integers of `width` bits with room for `capacity` of them.
    pub fn with_capacity(width: usize, capacity: usize) -> (r: Self)
        requires
            width <= 64,
        ensures
            r.wf(),
            r@ == Seq::<u64>::empty(),
            r.width_spec() == width,
    {
        let bits = if capacity > usize::MAX / 64 {
            usize::MAX
        } else {
            assert(capacity * width <= usize::MAX) by (nonlinear_arith)
                requires
                    capacity <= usize::MAX / 64,
                    width <= 64,
            ;
            capacity * width
        };
        let r = CompactIntVec { raw_data: BitVec::with_capacity(bits), width, len: 0 };
        assert(r@ =~= Seq::<u64>::empty());
        r
    }

    /// Reads a bit sequence as integers of `width` bits; a last partial integer is
    /// completed with zero bits.
    pub fn from_raw_parts(raw_data: BitVec, width: usize) -> (r: Self)
        requires
            raw_data.wf(),
            0 < width <= 64,
            raw_data@.len() + width <= usize::MAX,
        ensures
            r.wf(),
            r.width_spec() == width,
            r@.len() == (raw_data@.len() + width - 1) / width as int,
            r.bits().len() == r@.len() * width,
            r.bits() =~= raw_data@ + Seq::new((r.bits().len() - raw_data@.len()) as nat, |i: int| false),
            r@ == ints_of(r.bits(), width as nat, r@.len()),
    {
        let mut raw_data = raw_data;
        let ghost orig = raw_data@;
        let leftover = raw_data.len() % width;
        if leftover != 0 {
            raw_data.push_bits(0, width - leftover);
            proof {
                assert forall|t: int| 0 <= t < width - leftover implies #[trigger] bits_of(0, (width - leftover) as nat)[t] == false by {
                    crate::util::lemma_bit_small();
                }
            }
        }
        let len = raw_data.len() / width;
        proof {
            let n = orig.len() as int;
            let w = width as int;
            let m = raw_data@.len() as int;
            assert(m == (if n % w != 0 { n + (w - n % w) } else { n }));
            assert(m % w == 0) by (nonlinear_arith)
                requires
                    m == (if n % w != 0 { n + (w - n % w) } else { n }),
                    w > 0,
            ;
            assert(len * w == m) by (nonlinear_arith)
                requires
                    len == m / w,
                    m % w == 0,
                    w > 0,
            ;
            assert(len == (n + w - 1) / w) by (nonlinear_arith)
                requires
                    len * w == m,
                    m == (if n % w != 0 { n + (w - n % w) } else { n }),
                    w > 0,
                    n >= 0,
            ;
        }
        let r = CompactIntVec { raw_data, width, len };
        r
    }

    /// Number of integers the vector can hold without reallocating.
    pub fn capacity(&self) -> (r: usize)
        requires
            self.wf(),
        ensures
            self.width_spec() == 0 ==> r == usize::MAX,
            self.width_spec() > 0 ==> r >= self@.len() || r == (usize::MAX as int) / (self.width_spec() as int),
    {
        if self.width == 0 {
            usize::MAX
        } else {
            let c = self.raw_data.capacity();
            proof {
                let ci = c as int;
                let w = self.width as int;
                vstd::arithmetic::div_mod::lemma_fundamental_div_mod(ci, w);
                if ci >= self.len * w {
                    assert(ci / w >= self.len) by (nonlinear_arith)
                        requires
                            ci >= self.len * w,
                            w > 0,
                            ci == w * (ci / w) + ci % w,
                            ci % w < w,
                    ;
                }
            }
            c / self.width
        }
    }

    /// The underlying bit sequence.
    pub closed spec fn raw_spec(&self) -> BitVec {
        self.raw_data
    }

    pub fn raw_data(&self) -> (r: &BitVec)
        ensures
            r@ == self.bits(),
            *r == self.raw_spec(),
            self.wf() ==> r.wf(),
    {
        &self.raw_data
    }

    pub fn width(&self) -> (r: usize)
        ensures
            r == self.width_spec(),
    {
        self.width
    }

    pub fn len(&self) -> (r: usize)
        ensures
            r == self@.len(),
    {
        self.len
    }

    pub fn is_empty(&self) -> (r: bool)
        ensures
            r == (self@.len() == 0),
    {
        self.len == 0
    }

    /// Appends `value`, which must fit in the width.
    pub fn push(&mut self, value: u64)
        requires
            old(self).wf(),
            fits(value, old(self).width_spec()),
            old(self).bits().len() + old(self).width_spec() <= usize::MAX,
            old(self)@.len() < usize::MAX,
        ensures
            final(self).wf(),
            final(self).width_spec() == old(self).width_spec(),
            final(self)@ == old(self)@.push(value),
    {
        let ghost old_bits = self.raw_data@;
        self.raw_data.push_bits(value, self.width);
        let ghost w = self.width as nat;
        let ghost n = self.len as int;
        proof {
            assert((n + 1) * w == n * w + w) by (nonlinear_arith);
            lemma_ints_prefix(old_bits, self.raw_data@, w, n as nat);
            assert forall|t: int| 0 <= t < 64 implies #[trigger] word_bit(value, t) == (t < w
                && self.raw_data@[n * w + t]) by {
                if t < w {
                    assert(self.raw_data@[n * w + t] == bits_of(value, w)[t]);
                }
            }
            lemma_word_holds_value(value, self.raw_data@, n * w, w);
        }
        self.len = self.len + 1;
        proof {
            assert(self@ =~= old(self)@.push(value)) by {
                assert forall|j: int| 0 <= j < n implies #[trigger] self@[j] == old(self)@[j] by {
                    assert(ints_of(old_bits, w, n as nat)[j] == ints_of(self.raw_data@, w, n as nat)[j]);
                }
            }
        }
    }

    /// Removes and returns the last integer.
    pub fn pop(&mut self) -> (r: Option<u64>)
        requires
            old(self).wf(),
        ensures
            final(self).wf(),
            final(self).width_spec() == old(self).width_spec(),
            old(self)@.len() == 0 ==> r.is_none() && final(self)@ == old(self)@,
            old(self)@.len() > 0 ==> r == Some(old(self)@.last()) && final(self)@ == old(self)@.drop_last(),
    {
        if self.len == 0 {
            return None;
        }
        let ghost old_bits = self.raw_data@;
        let ghost w = self.width as nat;
        let ghost n = (self.len - 1) as int;
        proof {
            assert((n + 1) * w == n * w + w) by (nonlinear_arith);
        }
        let v = self.raw_data.pop_bits(self.width);
        self.len = self.len - 1;
        proof {
            lemma_word_holds_value(v, old_bits, n * w, w);
            lemma_ints_prefix(self.raw_data@, old_bits, w, n as nat);
            assert(self@ =~= old(self)@.drop_last()) by {
                assert forall|j: int| 0 <= j < n implies #[trigger] self@[j] == old(self)@[j] by {
                    assert(ints_of(old_bits, w, n as nat)[j] == ints_of(self.raw_data@, w, n as nat)[j]);
                }
            }
        }
        Some(v)
    }

    /// The integer at `index`; absent past the end.
    pub fn get(&self, index: usize) -> (r: Option<u64>)
        requires
            self.wf(),
        ensures
            r == if index < self@.len() { Some(self@[index as int]) } else { None::<u64> },
    {
        if index >= self.len {
            return None;
        }
        let ghost w = self.width as int;
        proof {
            assert((index + 1) * w <= self.len * w) by (nonlinear_arith)
                requires
                    index + 1 <= self.len,
                    w >= 0,
            ;
            assert(index * w + w == (index + 1) * w) by (nonlinear_arith);
        }
        let v = self.raw_data.read_bits(index * self.width, self.width);
        proof {
            lemma_word_holds_value(v, self.raw_data@, index * w, w as nat);
        }
        Some(v)
    }

    /// Replaces the integer at `index` with `value`, which must fit in the width.
    pub fn set(&mut self, index: usize, value: u64)
        requires
            old(self).wf(),
            index < old(self)@.len(),
            fits(value, old(self).width_spec()),
        ensures
            final(self).wf(),
            final(self).width_spec() == old(self).width_spec(),
            final(self)@ == old(self)@.update(index as int, value),
    {
        let ghost w = self.width as int;
        let ghost old_bits = self.raw_data@;
        proof {
            assert((index + 1) * w <= self.len * w) by (nonlinear_arith)
                requires
                    index + 1 <= self.len,
                    w >= 0,
            ;
            assert(index * w + w == (index + 1) * w) by (nonlinear_arith);
        }
        let start = index * self.width;
        self.raw_data.set_bits(start..start + self.width, value);
        proof {
            let nb = self.raw_data@;
            assert forall|j: int| 0 <= j < self.len implies #[trigger] self@[j] == old(self)@.update(
                index as int,
                value,
            )[j] by {
                assert((j + 1) * w <= self.len * w) by (nonlinear_arith)
                    requires
                        j + 1 <= self.len,
                        w >= 0,
                ;
                assert(j * w + w == (j + 1) * w) by (nonlinear_arith);
                if j == index {
                    assert forall|t: int| 0 <= t < 64 implies #[trigger] word_bit(value, t) == (t < w
                        && nb[j * w + t]) by {
                        if t < w {
                            assert(nb[j * w + t] == bits_of(value, w as nat)[t]);
                        }
                    }
                    lemma_word_holds_value(value, nb, j * w, w as nat);
                } else {
                    if j < index {
                        assert((j + 1) * w <= index * w) by (nonlinear_arith)
                            requires
                                j + 1 <= index,
                                w >= 0,
                        ;
                    } else {
                        assert((index + 1) * w <= j * w) by (nonlinear_arith)
                            requires
                                index + 1 <= j,
                                w >= 0,
                        ;
                    }
                    assert(0 <= j * w) by (nonlinear_arith)
                        requires
                            0 <= j,
                            w >= 0,
                    ;
                    assert forall|t: int| 0 <= t < w implies #[trigger] nb[j * w + t] == old_bits[j * w + t] by {}
                    lemma_value_of_agree(nb, old_bits, j * w, w as nat);
                }
            }
            assert(self@ =~= old(self)@.update(index as int, value));
        }
    }
}

impl CompactIntVec {
    /// An iterator over the integers.
    pub fn iter(&self) -> (r: Iter<'_>)
        ensures
            r.seq() == self,
            r.pos() == 0,
    {
        Iter::new(self)
    }

    /// An iterator that owns the integers.
    pub fn into_iter(self) -> (r: IntoIter)
        ensures
            r.seq() == self,
            r.pos() == 0,
    {
        IntoIter::new(self)
    }
}

impl HeapSize for CompactIntVec {
    /// The heap space of the underlying bits.
    open spec fn heap_bits(&self) -> nat {
        self.raw_spec().heap_bits()
    }

    fn heap_size_in_bits(&self) -> (r: usize) {
        self.raw_data.heap_size_in_bits()
    }
}

/// Walks the integers of a borrowed `CompactIntVec`.
pub struct Iter<'a> {
    compact_int_vec: &'a CompactIntVec,
    index: usize,
}

impl<'a> Iter<'a> {
    pub closed spec fn seq(&self) -> &'a CompactIntVec {
        self.compact_int_vec
    }

    pub closed spec fn pos(&self) -> nat {
        self.index as nat
    }

    pub fn new(compact_int_vec: &'a CompactIntVec) -> (r: Self)
        ensures
            r.seq() == compact_int_vec,
            r.pos() == 0,
    {
        Iter { compact_int_vec, index: 0 }
    }

    /// The next integer; absent past the end.
    pub fn next(&mut self) -> (r: Option<u64>)
        requires
            old(self).seq().wf(),
        ensures
            final(self).seq() == old(self).seq(),
            old(self).pos() < old(self).seq()@.len() ==> r == Some(old(self).seq()@[old(self).pos() as int])
                && final(self).pos() == old(self).pos() + 1,
            old(self).pos() >= old(self).seq()@.len() ==> r.is_none() && final(self).pos() == old(self).pos(),
    {
        let r = self.compact_int_vec.get(self.index);
        if r.is_some() {
            self.index = self.index + 1;
        }
        r
    }
}

/// Walks the integers of an owned `CompactIntVec`.
pub struct IntoIter {
    compact_int_vec: CompactIntVec,
    index: usize,
}

impl IntoIter {
    pub closed spec fn seq(&self) -> CompactIntVec {
        self.compact_int_vec
    }

    pub closed spec fn pos(&self) -> nat {
        self.index as nat
    }

    pub fn new(compact_int_vec: CompactIntVec) -> (r: Self)
        ensures
            r.seq() == compact_int_vec,
            r.pos() == 0,
    {
        IntoIter { compact_int_vec, index: 0 }
    }

    /// The next integer; absent past the end.
    pub fn next(&mut self) -> (r: Option<u64>)
        requires
            old(self).seq().wf(),
        ensures
            final(self).seq() == old(self).seq(),
            old(self).pos() < old(self).seq()@.len() ==> r == Some(old(self).seq()@[old(self).pos() as int])
                && final(self).pos() == old(self).pos() + 1,
            old(self).pos() >= old(self).seq()@.len() ==> r.is_none() && final(self).pos() == old(self).pos(),
    {
        let r = self.compact_int_vec.get(self.index);
        if r.is_some() {
            self.index = self.index + 1;
        }
        r
    }
}

impl CompactIntVec {
    /// The given integers, each stored in as many bits as the largest of them needs.
    pub fn from_values(values: &[u64]) -> (r: Self)
        requires
            values@.len() >= 1,
            values@.len() <= usize::MAX / 64,
        ensures
            r.wf(),
            r@ == values@,
            forall|i: int| 0 <= i < values@.len() ==> fits(#[trigger] values@[i], r.width_spec()),
    {
        let mut max: u64 = 0;
        let mut i: usize = 0;
        while i < values.len()
            invariant
                i <= values@.len(),
                forall|j: int| 0 <= j < i ==> #[trigger] values@[j] <= max,
            decreases values@.len() - i,
        {
            if values[i] > max {
                max = values[i];
            }
            i = i + 1;
        }
        let width = crate::util::bit_length(max) as usize;
        let mut r = CompactIntVec::new(width);
        let mut j: usize = 0;
        while j < values.len()
            invariant
                j <= values@.len(),
                values@.len() <= usize::MAX / 64,
                width <= 64,
                fits(max, width as nat),
                forall|x: int| 0 <= x < values@.len() ==> #[trigger] values@[x] <= max,
                r.wf(),
                r.width_spec() == width,
                r@ == values@.take(j as int),
            decreases values@.len() - j,
        {
            proof {
                crate::util::lemma_fits_mono(values@[j as int], max, width as nat);
                r.lemma_bits_len();
                assert(r@.len() * width + width <= (j + 1) * 64) by (nonlinear_arith)
                    requires
                        r@.len() == j,
                        width <= 64,
                ;
            }
            r.push(values[j]);
            proof {
                assert(values@.take(j as int).push(values@[j as int]) =~= values@.take(j + 1));
            }
            j = j + 1;
        }
        proof {
            assert(values@.take(j as int) =~= values@);
            assert forall|x: int| 0 <= x < values@.len() implies fits(#[trigger] values@[x], r.width_spec()) by {
                crate::util::lemma_fits_mono(values@[x], max, width as nat);
            }
        }
        r
    }
}

} // verus!
