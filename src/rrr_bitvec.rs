//! RRR-compressed bit sequence: blocks of `b` bits stored as (class, offset) pairs
//! under enumerative coding, with samples every `k` blocks.
use vstd::prelude::*;
use vstd::arithmetic::div_mod::{lemma_fundamental_div_mod_converse, lemma_fundamental_div_mod};
use crate::util::{word_bit, word_holds, rank_of, rank0_of, count_ones, fits, value_of, bit_length,
    lemma_rank_le, lemma_rank_mono, lemma_rank_step, lemma_rank_of_word, lemma_word_holds_value,
    lemma_count_subrange, lemma_popcount_fits, lemma_shr_one, lemma_low_bit, lemma_rank_prefix};
use crate::bitvec::{BitVec, word_count_ones};
use crate::compact_int_vec::CompactIntVec;
use crate::enumerative::{binom, enum_block, enum_offset, binomial_table_ok, get_binomial_table, encode_with,
    decode_with, lemma_enum_block_count, lemma_enum_block_len, lemma_enum_round_trip, lemma_enum_offset_bound,
    lemma_binom_pos, lemma_binom_fits_word};
use crate::util::{bits_of, lemma_fits_mono, lemma_value_of_agree};
use crate::rank_select::{BitModel, Access, Rank, Select, BitBuilder, rank_by, is_select_by};
use crate::profiling::HeapSize;
use crate::Build;

verus! {

/// Start, in the offset stream, of the offset of block `j`.
pub open spec fn rrr_pos(cls: Seq<u64>, lens: Seq<usize>, j: int) -> nat
    decreases j,
{
    if j <= 0 {
        0
    } else {
        rrr_pos(cls, lens, j - 1) + lens[cls[j - 1] as int] as nat
    }
}

/// The offset of block `j`.
pub open spec fn rrr_offset(cls: Seq<u64>, lens: Seq<usize>, offs: Seq<bool>, j: int) -> nat {
    value_of(offs, rrr_pos(cls, lens, j) as int, lens[cls[j] as int] as nat)
}

/// The bits of block `j`.
pub open spec fn rrr_block(b: nat, cls: Seq<u64>, lens: Seq<usize>, offs: Seq<bool>, j: int) -> Seq<bool> {
    enum_block(b, cls[j] as nat, rrr_offset(cls, lens, offs, j))
}

/// All the blocks, one after the other.
#[verifier::opaque]
pub open spec fn rrr_bits(b: nat, cls: Seq<u64>, lens: Seq<usize>, offs: Seq<bool>) -> Seq<bool> {
    Seq::new(cls.len() * b, |i: int| rrr_block(b, cls, lens, offs, i / (b as int))[i % (b as int)])
}

/// A bit sequence compressed block by block.
pub struct RRRBitVec {
    b: usize,
    k: usize,
    classes: CompactIntVec,
    lengths: Vec<usize>,
    offsets: BitVec,
    offset_samples: CompactIntVec,
    rank_samples: CompactIntVec,
    total_rank: usize,
    len: usize,
    binomials: Vec<Vec<u64>>,
}

impl RRRBitVec {
    /// The decoded blocks, with the padding of the last one.
    pub closed spec fn full_bits(&self) -> Seq<bool> {
        rrr_bits(self.b as nat, self.classes@, self.lengths@, self.offsets@)
    }

    /// Number of blocks.
    pub closed spec fn num_blocks(&self) -> nat {
        self.classes@.len()
    }

    pub closed spec fn b_spec(&self) -> nat {
        self.b as nat
    }

    pub closed spec fn k_spec(&self) -> nat {
        self.k as nat
    }

    /// The stored classes.
    pub closed spec fn classes_spec(&self) -> Seq<u64> {
        self.classes@
    }

    /// The concatenated offsets.
    pub closed spec fn offsets_spec(&self) -> Seq<bool> {
        self.offsets@
    }

    /// The stored offset lengths per class.
    pub closed spec fn lengths_spec(&self) -> Seq<usize> {
        self.lengths@
    }

    /// The stored rank samples.
    pub closed spec fn rank_samples_spec(&self) -> Seq<u64> {
        self.rank_samples@
    }

    /// The stored offset samples.
    pub closed spec fn offset_samples_spec(&self) -> Seq<u64> {
        self.offset_samples@
    }

    /// Number of samples before the trailing one.
    pub open spec fn num_samples(nb: nat, k: nat) -> nat {
        ((nb + k - 1) / (k as int)) as nat
    }

    #[verifier::opaque]
    pub closed spec fn wf(&self) -> bool {
        let b = self.b as int;
        let k = self.k as int;
        let nb = self.classes@.len() as int;
        let full = self.full_bits();
        let ns = Self::num_samples(nb as nat, k as nat) as int;
        &&& 1 <= b <= 64
        &&& k >= 1
        &&& nb == (self.len + b - 1) / b
        &&& self.len + 2 * b <= usize::MAX
        &&& binomial_table_ok(self.binomials@)
        &&& self.lengths@.len() == b + 1
        &&& forall|c: int|
            0 <= c <= b ==> {
                &&& #[trigger] self.lengths@[c] <= 64
                &&& fits((binom(b as nat, c as nat) - 1) as u64, self.lengths@[c] as nat)
                &&& self.lengths@[c] > 0 ==> word_bit((binom(b as nat, c as nat) - 1) as u64, self.lengths@[c] - 1)
            }
        &&& self.classes.wf()
        &&& forall|j: int|
            0 <= j < nb ==> {
                &&& #[trigger] self.classes@[j] <= b
                &&& rrr_offset(self.classes@, self.lengths@, self.offsets@, j) < binom(
                    b as nat,
                    self.classes@[j] as nat,
                )
            }
        &&& self.offsets.wf()
        &&& self.offsets@.len() == rrr_pos(self.classes@, self.lengths@, nb)
        &&& forall|i: int| self.len <= i < nb * b ==> !#[trigger] full[i]
        &&& self.total_rank == rank_of(full, nb * b)
        &&& self.rank_samples.wf()
        &&& self.rank_samples@.len() == ns + 1
        &&& forall|i: int|
            0 <= i <= ns ==> #[trigger] self.rank_samples@[i] == rank_of(
                full,
                (if i * k <= nb { i * k } else { nb }) * b,
            )
        &&& self.offset_samples.wf()
        &&& self.offset_samples@.len() == ns + (if nb % k == 0 { 1int } else { 0int })
        &&& forall|i: int|
            0 <= i < self.offset_samples@.len() ==> #[trigger] self.offset_samples@[i] == rrr_pos(
                self.classes@,
                self.lengths@,
                if i * k <= nb { i * k } else { nb },
            )
    }
}

impl View for RRRBitVec {
    type V = Seq<bool>;

    closed spec fn view(&self) -> Seq<bool> {
        self.full_bits().take(self.len as int)
    }
}

impl RRRBitVec {
    /// The scalar parts of the invariant.
    proof fn lemma_wf(&self)
        requires
            self.wf(),
        ensures
            1 <= self.b <= 64,
            self.k >= 1,
            self.num_blocks() == (self.len + self.b - 1) / (self.b as int),
            self.len + 2 * self.b <= usize::MAX,
            self.len <= self.num_blocks() * self.b,
            self.num_blocks() * self.b <= self.len + self.b,
            self.num_blocks() <= self.len + 1,
            self.full_bits().len() == self.num_blocks() * self.b,
            binomial_table_ok(self.binomials@),
            self.lengths@.len() == self.b + 1,
            self.classes.wf(),
            self.offsets.wf(),
            self.offsets@.len() == rrr_pos(self.classes@, self.lengths@, self.num_blocks() as int),
            self.total_rank == rank_of(self.full_bits(), self.num_blocks() * self.b),
            self.rank_samples.wf(),
            self.rank_samples@.len() == Self::num_samples(self.num_blocks(), self.k as nat) + 1,
            self.offset_samples.wf(),
            self.offset_samples@.len() == Self::num_samples(self.num_blocks(), self.k as nat) + (if (self.num_blocks() as int)
                % (self.k as int) == 0 { 1int } else { 0int }),
    {
        reveal(RRRBitVec::wf);
        reveal(rrr_bits);
        let b = self.b as int;
        let nb = self.num_blocks() as int;
        assert(self.len <= nb * b) by (nonlinear_arith)
            requires
                nb == (self.len + b - 1) / b,
                b >= 1,
        ;
        assert(nb <= self.len + 1) by (nonlinear_arith)
            requires
                nb == (self.len + b - 1) / b,
                b >= 1,
        ;
        lemma_fundamental_div_mod(self.len + b - 1, b);
        assert(nb * b <= self.len + b) by (nonlinear_arith)
            requires
                nb == (self.len + b - 1) / b,
                self.len + b - 1 == b * ((self.len + b - 1) / b) + (self.len + b - 1) % b,
                0 <= (self.len + b - 1) % b,
                b >= 1,
        ;
    }

    /// The invariant at block `j`.
    proof fn lemma_wf_block(&self, j: int)
        requires
            self.wf(),
            0 <= j < self.num_blocks(),
        ensures
            self.classes@[j] <= self.b,
            rrr_offset(self.classes@, self.lengths@, self.offsets@, j) < binom(
                self.b as nat,
                self.classes@[j] as nat,
            ),
            self.lengths@[self.classes@[j] as int] <= 64,
    {
        reveal(RRRBitVec::wf);
        let c = self.classes@[j] as int;
        assert(self.lengths@[c] <= 64);
    }

    /// The rank sample `i`.
    proof fn lemma_wf_rank_sample(&self, i: int)
        requires
            self.wf(),
            0 <= i <= Self::num_samples(self.num_blocks(), self.k as nat),
        ensures
            self.rank_samples@[i] == rank_of(
                self.full_bits(),
                (if i * self.k <= self.num_blocks() { i * self.k } else { self.num_blocks() as int }) * self.b,
            ),
    {
        reveal(RRRBitVec::wf);
    }

    /// The offset sample `i`.
    proof fn lemma_wf_offset_sample(&self, i: int)
        requires
            self.wf(),
            0 <= i < self.offset_samples@.len(),
        ensures
            self.offset_samples@[i] == rrr_pos(
                self.classes@,
                self.lengths@,
                if i * self.k <= self.num_blocks() { i * self.k } else { self.num_blocks() as int },
            ),
    {
        reveal(RRRBitVec::wf);
    }

    /// The padding of the last block is zeros.
    proof fn lemma_wf_padding(&self)
        requires
            self.wf(),
        ensures
            forall|i: int| self.len <= i < self.num_blocks() * self.b ==> !#[trigger] self.full_bits()[i],
    {
        reveal(RRRBitVec::wf);
    }

    /// Bit `t` of block `j` is bit `j * b + t` of the decoded sequence.
    proof fn lemma_block_bits(&self, j: int)
        requires
            self.wf(),
            0 <= j < self.num_blocks(),
        ensures
            (j + 1) * self.b <= self.num_blocks() * self.b,
            j * self.b + self.b == (j + 1) * self.b,
            rrr_block(self.b as nat, self.classes@, self.lengths@, self.offsets@, j).len() == self.b,
            forall|t: int| 0 <= t < self.b ==> #[trigger] self.full_bits()[j * self.b + t] == rrr_block(
                self.b as nat,
                self.classes@,
                self.lengths@,
                self.offsets@,
                j,
            )[t],
    {
        self.lemma_wf();
        reveal(rrr_bits);
        let b = self.b as int;
        let nb = self.num_blocks() as int;
        assert((j + 1) * b <= nb * b) by (nonlinear_arith)
            requires
                j + 1 <= nb,
                b >= 1,
        ;
        assert(j * b + b == (j + 1) * b) by (nonlinear_arith);
        lemma_enum_block_len(b as nat, self.classes@[j] as nat, rrr_offset(self.classes@, self.lengths@, self.offsets@, j));
        assert forall|t: int| 0 <= t < b implies #[trigger] self.full_bits()[j * b + t] == rrr_block(
            b as nat,
            self.classes@,
            self.lengths@,
            self.offsets@,
            j,
        )[t] by {
            assert(0 <= j * b) by (nonlinear_arith)
                requires
                    j >= 0,
                    b >= 1,
            ;
            lemma_fundamental_div_mod_converse(j * b + t, b, j, t);
        }
    }

    /// The ones of block `j` are its class.
    proof fn lemma_block_rank(&self, j: int)
        requires
            self.wf(),
            0 <= j < self.num_blocks(),
        ensures
            rank_of(self.full_bits(), (j + 1) * self.b) == rank_of(self.full_bits(), j * self.b)
                + self.classes@[j],
            rank0_of(self.full_bits(), (j + 1) * self.b) == rank0_of(self.full_bits(), j * self.b)
                + self.b - self.classes@[j],
    {
        let b = self.b as int;
        self.lemma_wf();
        self.lemma_wf_block(j);
        self.lemma_block_bits(j);
        let blk = rrr_block(b as nat, self.classes@, self.lengths@, self.offsets@, j);
        assert(0 <= j * b) by (nonlinear_arith)
            requires
                j >= 0,
                b >= 1,
        ;
        lemma_count_subrange(self.full_bits(), j * b, b);
        assert forall|t: int| 0 <= t < b implies #[trigger] self.full_bits().subrange(j * b, j * b + b)[t] == blk[t] by {
            assert(self.full_bits()[j * b + t] == blk[t]);
        }
        assert(self.full_bits().subrange(j * b, j * b + b) =~= blk);
        lemma_enum_block_count(b as nat, self.classes@[j] as nat, rrr_offset(self.classes@, self.lengths@, self.offsets@, j));
    }

    proof fn lemma_pos_mono(&self, i: int, j: int)
        requires
            0 <= i <= j,
        ensures
            rrr_pos(self.classes@, self.lengths@, i) <= rrr_pos(self.classes@, self.lengths@, j),
        decreases j - i,
    {
        if i < j {
            self.lemma_pos_mono(i, j - 1);
        }
    }

    /// The padding past the end is zeros, so ranks stop growing at the end.
    proof fn lemma_rank_past_end(&self, i: int)
        requires
            self.wf(),
            self.len <= i <= self.num_blocks() * self.b,
        ensures
            rank_of(self.full_bits(), i) == rank_of(self.full_bits(), self.len as int),
        decreases i,
    {
        if i > self.len {
            self.lemma_wf();
            self.lemma_wf_padding();
            self.lemma_rank_past_end(i - 1);
            lemma_rank_step(self.full_bits(), i - 1);
        }
    }

    /// The view is the decoded sequence cut at the length.
    proof fn lemma_view(&self, i: int)
        requires
            self.wf(),
            0 <= i <= self.len,
        ensures
            self@.len() == self.len,
            self.len <= self.num_blocks() * self.b,
            rank_of(self@, i) == rank_of(self.full_bits(), i),
            rank0_of(self@, i) == rank0_of(self.full_bits(), i),
            forall|t: int| 0 <= t < self.len ==> #[trigger] self@[t] == self.full_bits()[t],
    {
        self.lemma_wf();
        lemma_rank_prefix(self@, self.full_bits(), i);
    }

    /// The offset of block `j`.
    fn block_offset(&self, j: usize) -> (r: u64)
        requires
            self.wf(),
            j < self.num_blocks(),
        ensures
            r as nat == rrr_offset(self.classes@, self.lengths@, self.offsets@, j as int),
    {
        let ghost nb = self.num_blocks() as int;
        let ghost k = self.k as int;
        proof {
            self.lemma_wf();
            self.lemma_wf_block(j as int);
            crate::util::lemma_ceil_div(nb, k);
        }
        let is = j / self.k;
        proof {
            assert(is * k <= j) by (nonlinear_arith)
                requires
                    is == j as int / k,
                    k >= 1,
            ;
            assert(is < Self::num_samples(nb as nat, k as nat)) by (nonlinear_arith)
                requires
                    is * k <= j,
                    j < nb,
                    k >= 1,
                    Self::num_samples(nb as nat, k as nat) * k >= nb,
            ;
            self.lemma_wf_offset_sample(is as int);
            self.lemma_pos_mono(is * k, nb);
            assert(self.offset_samples@[is as int] == rrr_pos(self.classes@, self.lengths@, is * k));
            self.lemma_pos_mono(j + 1, nb);
            self.offsets.lemma_len();
        }
        let mut pos = match self.offset_samples.get(is) {
            Some(x) => x as usize,
            None => 0,
        };
        let mut p = is * self.k;
        while p < j
            invariant
                self.wf(),
                nb == self.num_blocks(),
                p <= j < nb,
                pos == rrr_pos(self.classes@, self.lengths@, p as int),
                rrr_pos(self.classes@, self.lengths@, j + 1) <= self.offsets@.len(),
                self.offsets@.len() <= usize::MAX,
            decreases j - p,
        {
            proof {
                self.lemma_wf();
                self.lemma_wf_block(p as int);
                self.lemma_pos_mono(p + 1, j + 1);
            }
            let c = match self.classes.get(p) {
                Some(x) => x as usize,
                None => 0,
            };
            pos = pos + self.lengths[c];
            p = p + 1;
        }
        let c = match self.classes.get(j) {
            Some(x) => x as usize,
            None => 0,
        };
        let l = self.lengths[c];
        let off = self.offsets.read_bits(pos, l);
        proof {
            lemma_word_holds_value(off, self.offsets@, pos as int, l as nat);
        }
        off
    }

    /// The first `len` bits of block `j`.
    fn decode_block(&self, j: usize, len: usize) -> (r: u64)
        requires
            self.wf(),
            j < self.num_blocks(),
            len <= self.b_spec(),
        ensures
            word_holds(r, self.full_bits(), j * self.b_spec(), len as int),
    {
        proof {
            self.lemma_wf();
            self.lemma_wf_block(j as int);
        }
        let c = match self.classes.get(j) {
            Some(x) => x as usize,
            None => 0,
        };
        let off = self.block_offset(j);
        let r = decode_with(&self.binomials, c, off, self.b, len);
        proof {
            self.lemma_block_bits(j as int);
        }
        r
    }

    /// The bit at `i`.
    pub fn read(&self, i: usize) -> (r: bool)
        requires
            self.wf(),
            i < self@.len(),
        ensures
            r == self@[i as int],
    {
        proof {
            self.lemma_view(0);
            self.lemma_wf();
        }
        let j = i / self.b;
        let t = i % self.b;
        proof {
            let b = self.b as int;
            assert(j < self.num_blocks()) by (nonlinear_arith)
                requires
                    i < self.num_blocks() * b,
                    j == i as int / b,
                    b >= 1,
            ;
            lemma_fundamental_div_mod(i as int, b);
            self.lemma_block_bits(j as int);
            self.lemma_wf_block(j as int);
            assert(i == j * b + t);
        }
        let c = match self.classes.get(j) {
            Some(x) => x as usize,
            None => 0,
        };
        if c == 0 || c == self.b {
            proof {
                let blk = rrr_block(self.b as nat, self.classes@, self.lengths@, self.offsets@, j as int);
                lemma_enum_block_len(self.b as nat, c as nat, rrr_offset(self.classes@, self.lengths@, self.offsets@, j as int));
                assert(self.full_bits()[j * self.b + t] == blk[t as int]);
            }
            proof {
                let blk = rrr_block(self.b as nat, self.classes@, self.lengths@, self.offsets@, j as int);
                assert(blk[t as int] == (c > 0));
                assert(self@[i as int] == self.full_bits()[i as int]);
            }
            return c > 0;
        }
        let w = self.decode_block(j, t + 1);
        proof {
            lemma_low_bit(w >> (t as u64));
            assert(word_bit(w, t as int) == self.full_bits()[j * self.b + t]);
            assert(self@[i as int] == self.full_bits()[i as int]);
        }
        (w >> (t as u64)) & 1 == 1
    }

    /// `select` (ones) or `select0` (zeros): a binary search over the rank samples,
    /// then a scan over blocks by their classes, then a scan of one decoded block.
    #[verifier::rlimit(40)]
    fn select_by(&self, target: usize, ones: bool) -> (r: Option<usize>)
        requires
            self.wf(),
        ensures
            target <= rank_by(self@, self@.len() as int, ones) <==> r.is_some(),
            r.is_some() ==> is_select_by(self@, target as int, r.unwrap() as int, ones),
    {
        let ghost full = self.full_bits();
        let ghost nb = self.num_blocks() as int;
        let ghost b = self.b as int;
        let ghost k = self.k as int;
        let ghost ns = Self::num_samples(nb as nat, k as nat) as int;
        proof {
            self.lemma_wf();
            crate::util::lemma_ceil_div(nb, k);
            self.lemma_view(self.len as int);
            self.lemma_rank_past_end(nb * b);
            lemma_rank_le(self@, self.len as int);
            lemma_rank_mono(full, self.len as int, nb * b);
            assert(self@.take(0) =~= Seq::<bool>::empty());
        }
        if target == 0 {
            return Some(0);
        }
        let total = if ones { self.total_rank } else { self.len - self.total_rank };
        if target > total {
            return None;
        }
        let last = match self.rank_samples.len() {
            0 => 0,
            x => x - 1,
        };
        proof {
            assert(last == ns);
            self.lemma_wf_rank_sample(0);
            self.lemma_wf_rank_sample(ns);
            assert(full.take(0) =~= Seq::<bool>::empty());
            assert(0 * k == 0);
            assert(ns * k >= nb);
        }
        let mut left: usize = 0;
        let mut right: usize = last;
        proof {
            assert(rank_by(full, 0, ones) == 0);
            assert(left * k * b == 0) by (nonlinear_arith)
                requires
                    left == 0,
            ;
        }
        while right - left > 1
            invariant
                self.wf(),
                full == self.full_bits(),
                nb == self.num_blocks(),
                b == self.b,
                k == self.k,
                ns == Self::num_samples(nb as nat, k as nat),
                last == ns,
                ns * k >= nb,
                left < right <= last,
                left * k < nb,
                rank_by(full, left * k * b, ones) < target,
                target <= rank_by(full, (if right * k <= nb { right * k } else { nb }) * b, ones),
            decreases right - left,
        {
            let mid = left + (right - left) / 2;
            proof {
                self.lemma_wf();
                crate::util::lemma_ceil_div(nb, k);
                assert(mid * k < nb);
                self.lemma_wf_rank_sample(mid as int);
                assert(mid * k * b <= nb * b) by (nonlinear_arith)
                    requires
                        mid * k < nb,
                        b >= 1,
                ;
                lemma_rank_le(full, mid * k * b);
            }
            let rs = match self.rank_samples.get(mid) {
                Some(x) => x as usize,
                None => 0,
            };
            proof {
                assert(self.rank_samples@[mid as int] == rank_of(full, mid * k * b));
                assert(rank_of(full, mid * k * b) <= mid * k * b);
                assert(mid * k * b <= usize::MAX);
            }
            assert(rs == rank_of(full, mid * k * b));
            assert(mid * self.k * self.b == mid * k * b);
            let c = if ones { rs } else { mid * self.k * self.b - rs };
            if c < target {
                left = mid;
            } else {
                right = mid;
            }
        }
        proof {
            self.lemma_wf_rank_sample(left as int);
            self.lemma_wf_rank_sample(left + 1);
            assert(left * k < (left + 1) * k) by (nonlinear_arith)
                requires
                    k >= 1,
            ;
            assert(left * k * b <= nb * b) by (nonlinear_arith)
                requires
                    left * k < nb,
                    b >= 1,
            ;
            lemma_rank_le(full, left * k * b);
        }
        let rs = match self.rank_samples.get(left) {
            Some(x) => x as usize,
            None => 0,
        };
        proof {
            assert(self.rank_samples@[left as int] == rank_of(full, left * k * b));
            assert(rank_of(full, left * k * b) <= left * k * b);
            assert(left * k * b <= usize::MAX);
        }
        assert(rs == rank_of(full, left * k * b));
        assert(left * self.k * self.b == left * k * b);
        let mut count = if ones { rs } else { left * self.k * self.b - rs };
        let mut j = left * self.k;
        let ghost bound = if (left + 1) * k <= nb { (left + 1) * k } else { nb };
        proof {
            assert(right == left + 1);
            assert(j * b == left * k * b) by (nonlinear_arith)
                requires
                    j == left * k,
            ;
        }
        loop
            invariant
                self.wf(),
                full == self.full_bits(),
                nb == self.num_blocks(),
                b == self.b,
                j < bound <= nb,
                count == rank_by(full, j * b, ones),
                count < target,
                target <= rank_by(full, bound * b, ones),
                target <= rank_by(self@, self.len as int, ones),
                target <= rank_by(full, self.len as int, ones),
                self.len <= nb * b,
                nb * b <= self.len + b,
                self.len + 2 * b <= usize::MAX,
            decreases nb - j,
        {
            proof {
                self.lemma_wf();
                self.lemma_wf_block(j as int);
                assert((j + 1) * b <= nb * b) by (nonlinear_arith)
                    requires
                        j + 1 <= nb,
                        b >= 1,
                ;
            }
            let c = match self.classes.get(j) {
                Some(x) => x as usize,
                None => 0,
            };
            let step = if ones { c } else { self.b - c };
            proof {
                self.lemma_block_rank(j as int);
                self.lemma_block_bits(j as int);
                lemma_rank_le(full, (j + 1) * b);
            }
            if count + step >= target {
                proof {
                    assert(j * b + b <= nb * b) by (nonlinear_arith)
                        requires
                            j + 1 <= nb,
                            b >= 1,
                    ;
                }
                let w = self.decode_block(j, self.b);
                let t = scan_block(w, Ghost(full), j * self.b, self.b, count, target, ones);
                proof {
                    let p = j * b + t;
                    self.lemma_wf_padding();
                    assert(p <= nb * b);
                    if p > self.len {
                        assert(self.len <= p - 1 < nb * b);
                        assert(!full[p - 1]);
                        lemma_rank_step(full, p - 1);
                        if ones {
                            assert(full[p - 1]);
                        } else {
                            lemma_rank_mono(full, self.len as int, p - 1);
                            assert(rank0_of(full, p - 1) == target - 1);
                        }
                        assert(false);
                    }
                    self.lemma_view(p);
                }
                return Some(j * self.b + t);
            }
            proof {
                if j + 1 >= bound {
                    assert(j + 1 == bound);
                }
            }
            count = count + step;
            j = j + 1;
        }
    }
}

/// The offset inside a decoded block where `target` ones (or zeros) have been seen,
/// given `base` of them before the block.
fn scan_block(word: u64, Ghost(s): Ghost<Seq<bool>>, start: usize, w: usize, base: usize, target: usize, ones: bool) -> (t: usize)
    requires
        w <= 64,
        start + w <= s.len(),
        word_holds(word, s, start as int, w as int),
        base == rank_by(s, start as int, ones),
        base < target <= rank_by(s, start + w, ones),
    ensures
        t <= w,
        is_select_by(s, target as int, start + t, ones),
{
    let mut count = base;
    let mut t: usize = 0;
    let mut cur = word;
    proof {
        assert(word >> 0u64 == word) by (bit_vector);
        lemma_rank_le(s, start + w);
    }
    while count < target
        invariant
            w <= 64,
            start + w <= s.len(),
            word_holds(word, s, start as int, w as int),
            target <= rank_by(s, start + w, ones),
            t <= w,
            cur == word >> (t as u64),
            count == rank_by(s, start + t, ones),
            count <= target,
            count < target || (t > 0 && s[start + t - 1] == ones),
        decreases w - t,
    {
        proof {
            if t == w {
                assert(false);
            }
            lemma_rank_step(s, start + t);
            lemma_shr_one(word, t as u64);
            lemma_low_bit(cur);
            assert(word_bit(word, t as int) == s[start + t]);
        }
        if (cur & 1 == 1) == ones {
            count = count + 1;
        }
        cur = cur >> 1;
        t = t + 1;
    }
    proof {
        lemma_rank_le(s, start + t);
    }
    t
}

impl RRRBitVec {
    /// Ones before `index` in the decoded sequence.
    fn rank_ones(&self, index: usize) -> (r: usize)
        requires
            self.wf(),
            index <= self@.len(),
        ensures
            r == rank_of(self@, index as int),
    {
        let ghost full = self.full_bits();
        let ghost nb = self.num_blocks() as int;
        let ghost b = self.b as int;
        let ghost k = self.k as int;
        proof {
            self.lemma_wf();
            self.lemma_view(index as int);
            crate::util::lemma_ceil_div(nb, k);
        }
        let iw = index / self.b;
        let is = iw / self.k;
        proof {
            assert(iw <= nb) by (nonlinear_arith)
                requires
                    iw == index as int / b,
                    index <= nb * b,
                    b >= 1,
            ;
            assert(is * k <= iw) by (nonlinear_arith)
                requires
                    is == iw as int / k,
                    k >= 1,
            ;
            assert(is <= Self::num_samples(nb as nat, k as nat)) by (nonlinear_arith)
                requires
                    is * k <= iw,
                    iw <= nb,
                    Self::num_samples(nb as nat, k as nat) * k >= nb,
                    k >= 1,
            ;
            self.lemma_wf_rank_sample(is as int);
            assert(is * k * b <= nb * b) by (nonlinear_arith)
                requires
                    is * k <= nb,
                    b >= 1,
            ;
            lemma_rank_le(full, is * k * b);
        }
        let mut r = match self.rank_samples.get(is) {
            Some(x) => x as usize,
            None => 0,
        };
        let mut p = is * self.k;
        proof {
            assert(p * b == is * k * b) by (nonlinear_arith)
                requires
                    p == is * k,
            ;
        }
        while p < iw
            invariant
                self.wf(),
                full == self.full_bits(),
                nb == self.num_blocks(),
                b == self.b,
                p <= iw <= nb,
                nb * b <= self.len + b,
                self.len + 2 * b <= usize::MAX,
                r == rank_of(full, p * b),
            decreases iw - p,
        {
            proof {
                self.lemma_wf();
                self.lemma_wf_block(p as int);
                self.lemma_block_rank(p as int);
                assert((p + 1) * b <= nb * b) by (nonlinear_arith)
                    requires
                        p + 1 <= nb,
                        b >= 1,
                ;
                lemma_rank_le(full, (p + 1) * b);
            }
            let c = match self.classes.get(p) {
                Some(x) => x as usize,
                None => 0,
            };
            r = r + c;
            p = p + 1;
        }
        let m = index % self.b;
        proof {
            lemma_fundamental_div_mod(index as int, b);
            assert(index == iw * b + m) by (nonlinear_arith)
                requires
                    index == b * (index as int / b) + (index as int % b),
                    iw == index as int / b,
                    m == index as int % b,
            ;
        }
        if iw < self.classes.len() {
            let part = self.decode_block(iw, m);
            let c = word_count_ones(part);
            proof {
                lemma_popcount_fits(part, m as nat, 64);
                lemma_rank_of_word(part, full, iw * b, m as int, m as int);
                lemma_rank_le(full, index as int);
            }
            r = r + c as usize;
        }
        r
    }

    /// Block width.
    pub fn b(&self) -> (r: usize)
        ensures
            r == self.b_spec(),
    {
        self.b
    }

    /// Blocks per sample.
    pub fn k(&self) -> (r: usize)
        ensures
            r == self.k_spec(),
    {
        self.k
    }

    /// The class of each block.
    pub fn classes(&self) -> (r: &CompactIntVec)
        ensures
            r@ == self.classes_spec(),
            *r == self.classes_vec(),
            self.wf() ==> r.wf(),
    {
        proof {
            if self.wf() {
                self.lemma_wf();
            }
        }
        &self.classes
    }

    /// The stored classes.
    pub closed spec fn classes_vec(&self) -> CompactIntVec {
        self.classes
    }

    /// The concatenated offsets.
    pub fn offsets(&self) -> (r: &BitVec)
        ensures
            r@ == self.offsets_spec(),
            *r == self.offsets_vec(),
            self.wf() ==> r.wf(),
    {
        proof {
            if self.wf() {
                self.lemma_wf();
            }
        }
        &self.offsets
    }

    /// The stored offsets.
    pub closed spec fn offsets_vec(&self) -> BitVec {
        self.offsets
    }

    /// The offset length for each class.
    pub fn lengths(&self) -> (r: &[usize])
        ensures
            r@ == self.lengths_spec(),
    {
        self.lengths.as_slice()
    }

    /// Ones before every `k`-th block, then in total.
    pub fn rank_samples(&self) -> (r: &CompactIntVec)
        ensures
            r@ == self.rank_samples_spec(),
            *r == self.rank_samples_vec(),
            self.wf() ==> r.wf(),
    {
        proof {
            if self.wf() {
                self.lemma_wf();
            }
        }
        &self.rank_samples
    }

    /// The stored rank samples.
    pub closed spec fn rank_samples_vec(&self) -> CompactIntVec {
        self.rank_samples
    }

    /// Offset stream position of every `k`-th block.
    pub fn offset_samples(&self) -> (r: &CompactIntVec)
        ensures
            r@ == self.offset_samples_spec(),
            *r == self.offset_samples_vec(),
            self.wf() ==> r.wf(),
    {
        proof {
            if self.wf() {
                self.lemma_wf();
            }
        }
        &self.offset_samples
    }

    /// The stored offset samples.
    pub closed spec fn offset_samples_vec(&self) -> CompactIntVec {
        self.offset_samples
    }

    /// Number of ones.
    pub fn total_rank(&self) -> (r: usize)
        requires
            self.wf(),
        ensures
            r == rank_of(self@, self@.len() as int),
    {
        proof {
            self.lemma_wf();
            self.lemma_view(self.len as int);
            self.lemma_rank_past_end(self.num_blocks() * self.b);
        }
        self.total_rank
    }

    pub fn len(&self) -> (r: usize)
        requires
            self.wf(),
        ensures
            r == self@.len(),
    {
        proof {
            self.lemma_view(0);
        }
        self.len
    }

    pub fn is_empty(&self) -> (r: bool)
        requires
            self.wf(),
        ensures
            r == (self@.len() == 0),
    {
        proof {
            self.lemma_view(0);
        }
        self.len == 0
    }
}

impl BitModel for RRRBitVec {
    open spec fn bits(&self) -> Seq<bool> {
        self@
    }

    open spec fn inv(&self) -> bool {
        self.wf()
    }
}

impl Access for RRRBitVec {
    fn access(&self, index: usize) -> (r: Option<bool>) {
        proof {
            self.lemma_view(0);
        }
        if index >= self.len {
            return None;
        }
        Some(self.read(index))
    }
}

impl Rank for RRRBitVec {
    fn rank(&self, index: usize) -> (r: Option<usize>) {
        proof {
            self.lemma_view(0);
        }
        if index > self.len {
            return None;
        }
        Some(self.rank_ones(index))
    }

    fn rank0(&self, index: usize) -> (r: Option<usize>) {
        proof {
            self.lemma_view(0);
        }
        if index > self.len {
            return None;
        }
        let r = self.rank_ones(index);
        proof {
            lemma_rank_le(self@, index as int);
        }
        Some(index - r)
    }
}

impl Select for RRRBitVec {
    fn select(&self, rank: usize) -> (r: Option<usize>) {
        self.select_by(rank, true)
    }

    fn select0(&self, rank0: usize) -> (r: Option<usize>) {
        self.select_by(rank0, false)
    }
}

/// The start positions depend on the classes before them only.
proof fn lemma_pos_prefix(c1: Seq<u64>, c2: Seq<u64>, lens: Seq<usize>, j: int)
    requires
        0 <= j <= c1.len() <= c2.len(),
        c1 =~= c2.take(c1.len() as int),
    ensures
        rrr_pos(c1, lens, j) == rrr_pos(c2, lens, j),
    decreases j,
{
    if j > 0 {
        lemma_pos_prefix(c1, c2, lens, j - 1);
        assert(c1[j - 1] == c2[j - 1]);
    }
}

proof fn lemma_pos_le(cls: Seq<u64>, lens: Seq<usize>, i: int, j: int)
    requires
        0 <= i <= j,
    ensures
        rrr_pos(cls, lens, i) <= rrr_pos(cls, lens, j),
    decreases j - i,
{
    if i < j {
        lemma_pos_le(cls, lens, i, j - 1);
    }
}

/// `v` followed by zeros up to length `m`.
pub open spec fn bitvec_view_padded(v: Seq<bool>, m: nat) -> Seq<bool> {
    v + Seq::new((m - v.len()) as nat, |i: int| false)
}

/// Zeros after a sequence add no ones.
proof fn lemma_padded_rank(v: Seq<bool>, pv: Seq<bool>, x: int)
    requires
        v.len() <= pv.len(),
        pv =~= bitvec_view_padded(v, pv.len()),
        0 <= x <= pv.len(),
    ensures
        rank_of(pv, x) <= v.len(),
    decreases x,
{
    if x <= v.len() {
        lemma_rank_le(pv, x);
    } else {
        lemma_padded_rank(v, pv, x - 1);
        lemma_rank_step(pv, x - 1);
    }
}

/// Block `p` of a sequence cut in blocks of `b` bits.
pub open spec fn block_of(pv: Seq<bool>, b: int, p: int) -> Seq<bool> {
    pv.subrange(p * b, p * b + b)
}

impl RRRBitVec {
    /// Each decoded bit is the bit of the padded input it was encoded from.
    proof fn lemma_built_bit(&self, pv: Seq<bool>, i: int)
        requires
            1 <= self.b <= 64,
            pv.len() == self.classes@.len() * self.b,
            0 <= i < self.classes@.len() * self.b,
            forall|p: int|
                0 <= p < self.classes@.len() ==> {
                    &&& #[trigger] self.classes@[p] == count_ones(block_of(pv, self.b as int, p))
                    &&& self.classes@[p] <= self.b
                    &&& rrr_offset(self.classes@, self.lengths@, self.offsets@, p) == enum_offset(
                        block_of(pv, self.b as int, p),
                        self.classes@[p] as nat,
                    )
                },
        ensures
            self.full_bits()[i] == pv[i],
    {
        let b = self.b as int;
        let nb = self.classes@.len() as int;
        reveal(rrr_bits);
        let q = i / b;
        let t = i % b;
        lemma_fundamental_div_mod(i, b);
        assert(0 <= q < nb) by (nonlinear_arith)
            requires
                i == b * q + t,
                0 <= t < b,
                0 <= i < nb * b,
        ;
        assert(i == q * b + t) by (nonlinear_arith)
            requires
                i == b * q + t,
        ;
        let blk = block_of(pv, b, q);
        assert(0 <= q * b && q * b + b <= nb * b) by (nonlinear_arith)
            requires
                0 <= q < nb,
                b >= 1,
        ;
        assert(blk.len() == b);
        assert(self.classes@[q] == count_ones(blk));
        lemma_enum_round_trip(blk);
        assert(rrr_block(b as nat, self.classes@, self.lengths@, self.offsets@, q) =~= blk);
        assert(blk[t] == pv[q * b + t]);
        assert(self.full_bits()[i] == rrr_block(b as nat, self.classes@, self.lengths@, self.offsets@, q)[t]);
    }

    /// A structure whose parts were made from the padded sequence `pv` of `v` is well formed
    /// and stands for `v`.
    #[verifier::rlimit(60)]
    proof fn lemma_built(&self, v: Seq<bool>, pv: Seq<bool>)
        requires
            1 <= self.b <= 64,
            self.k >= 1,
            self.len == v.len(),
            v.len() <= usize::MAX / 128,
            self.classes@.len() == (v.len() + self.b - 1) / (self.b as int),
            pv.len() == self.classes@.len() * self.b,
            pv =~= v + Seq::new((pv.len() - v.len()) as nat, |i: int| false),
            binomial_table_ok(self.binomials@),
            self.lengths@.len() == self.b + 1,
            forall|cc: int|
                0 <= cc <= self.b ==> {
                    &&& #[trigger] self.lengths@[cc] <= 64
                    &&& fits((binom(self.b as nat, cc as nat) - 1) as u64, self.lengths@[cc] as nat)
                    &&& self.lengths@[cc] > 0 ==> word_bit(
                        (binom(self.b as nat, cc as nat) - 1) as u64,
                        self.lengths@[cc] - 1,
                    )
                },
            self.classes.wf(),
            self.offsets.wf(),
            self.offsets@.len() == rrr_pos(self.classes@, self.lengths@, self.classes@.len() as int),
            forall|p: int|
                0 <= p < self.classes@.len() ==> {
                    &&& #[trigger] self.classes@[p] == count_ones(block_of(pv, self.b as int, p))
                    &&& self.classes@[p] <= self.b
                    &&& rrr_offset(self.classes@, self.lengths@, self.offsets@, p) == enum_offset(
                        block_of(pv, self.b as int, p),
                        self.classes@[p] as nat,
                    )
                },
            self.total_rank == rank_of(pv, self.classes@.len() * self.b),
            self.rank_samples.wf(),
            self.rank_samples@.len() == Self::num_samples(self.classes@.len(), self.k as nat) + 1,
            forall|i: int|
                0 <= i < Self::num_samples(self.classes@.len(), self.k as nat) ==> #[trigger] self.rank_samples@[i]
                    == rank_of(pv, i * self.k * self.b),
            self.rank_samples@[Self::num_samples(self.classes@.len(), self.k as nat) as int] == rank_of(
                pv,
                self.classes@.len() * self.b,
            ),
            self.offset_samples.wf(),
            self.offset_samples@.len() == Self::num_samples(self.classes@.len(), self.k as nat) + (if (
            self.classes@.len() as int) % (self.k as int) == 0 { 1int } else { 0int }),
            forall|i: int|
                0 <= i < Self::num_samples(self.classes@.len(), self.k as nat) ==> #[trigger] self.offset_samples@[i]
                    == rrr_pos(self.classes@, self.lengths@, i * self.k),
            (self.classes@.len() as int) % (self.k as int) == 0 ==> self.offset_samples@[Self::num_samples(
                self.classes@.len(),
                self.k as nat,
            ) as int] == rrr_pos(self.classes@, self.lengths@, self.classes@.len() as int),
        ensures
            self.wf(),
            self@ == v,
    {
        let b = self.b as int;
        let k = self.k as int;
        let nb = self.classes@.len() as int;
        let ns = Self::num_samples(nb as nat, k as nat) as int;
        let full = self.full_bits();
        reveal(rrr_bits);
        assert(full.len() == nb * b);
        assert forall|i: int| 0 <= i < nb * b implies #[trigger] full[i] == pv[i] by {
            self.lemma_built_bit(pv, i);
        }
        assert(full =~= pv);
        crate::util::lemma_ceil_div(nb, k);
        lemma_fundamental_div_mod(v.len() + b - 1, b);
        assert(v.len() <= nb * b) by (nonlinear_arith)
            requires
                nb == (v.len() + b - 1) / b,
                b >= 1,
        ;
        assert(v.len() + 2 * b <= usize::MAX);
        assert forall|j: int| 0 <= j < nb implies {
            &&& #[trigger] self.classes@[j] <= b
            &&& rrr_offset(self.classes@, self.lengths@, self.offsets@, j) < binom(
                b as nat,
                self.classes@[j] as nat,
            )
        } by {
            let blk = block_of(pv, b, j);
            assert(0 <= j * b && j * b + b <= nb * b) by (nonlinear_arith)
                requires
                    0 <= j < nb,
                    b >= 1,
            ;
            assert(blk.len() == b);
            lemma_enum_offset_bound(blk, self.classes@[j] as nat);
        }
        assert forall|i: int|
            0 <= i <= ns implies #[trigger] self.rank_samples@[i] == rank_of(
                full,
                (if i * k <= nb { i * k } else { nb }) * b,
            ) by {
            if i < ns {
                assert(i * k < nb);
            } else {
                assert(i * k >= nb);
                if i * k == nb {
                    assert(i * k * b == nb * b);
                }
            }
        }
        assert forall|i: int|
            0 <= i < self.offset_samples@.len() implies #[trigger] self.offset_samples@[i] == rrr_pos(
                self.classes@,
                self.lengths@,
                if i * k <= nb { i * k } else { nb },
            ) by {
            if i < ns {
                assert(i * k < nb);
            } else {
                assert(nb % k == 0);
                assert(i * k == nb);
            }
        }
        reveal(RRRBitVec::wf);
        assert(self@ =~= v);
    }

    /// Compresses `bitvec` with blocks of `b` bits and a sample every `k` blocks.
    #[verifier::rlimit(100)]
    pub fn new(bitvec: BitVec, b: usize, k: usize) -> (r: Self)
        requires
            bitvec.wf(),
            1 <= b <= 64,
            k >= 1,
            bitvec@.len() <= usize::MAX / 128,
        ensures
            r.wf(),
            r@ == bitvec@,
            r.inv(),
            r.bits() == bitvec@,
            r.b_spec() == b,
            r.k_spec() == k,
            r.classes_spec().len() == (bitvec@.len() + b - 1) / (b as int),
            forall|j: int|
                0 <= j < r.classes_spec().len() ==> #[trigger] r.classes_spec()[j] == count_ones(
                    block_of(bitvec_view_padded(bitvec@, (r.classes_spec().len() * b) as nat), b as int, j),
                ),
            r.lengths_spec().len() == b + 1,
            forall|c: int|
                0 <= c <= b ==> {
                    &&& fits((binom(b as nat, c as nat) - 1) as u64, #[trigger] r.lengths_spec()[c] as nat)
                    &&& r.lengths_spec()[c] > 0 ==> word_bit((binom(b as nat, c as nat) - 1) as u64, r.lengths_spec()[c] - 1)
                },
            r.rank_samples_spec().len() == Self::num_samples(r.classes_spec().len(), k as nat) + 1,
            forall|i: int|
                0 <= i < Self::num_samples(r.classes_spec().len(), k as nat) ==> #[trigger] r.rank_samples_spec()[i]
                    == rank_of(bitvec_view_padded(bitvec@, (r.classes_spec().len() * b) as nat), i * k * b),
            r.rank_samples_spec()[Self::num_samples(r.classes_spec().len(), k as nat) as int] == rank_of(
                bitvec_view_padded(bitvec@, (r.classes_spec().len() * b) as nat),
                r.classes_spec().len() * b,
            ),
            r.offset_samples_spec().len() == Self::num_samples(r.classes_spec().len(), k as nat) + (if (
            r.classes_spec().len() as int) % (k as int) == 0 { 1int } else { 0int }),
            forall|i: int|
                0 <= i < r.offset_samples_spec().len() ==> #[trigger] r.offset_samples_spec()[i] == rrr_pos(
                    r.classes_spec(),
                    r.lengths_spec(),
                    if i * k <= r.classes_spec().len() { i * k } else { r.classes_spec().len() as int },
                ),
    {
        let ghost v = bitvec@;
        let n = bitvec.len();
        let binomials = get_binomial_table();
        let mut lengths: Vec<usize> = Vec::new();
        let mut c: usize = 0;
        while c <= b
            invariant
                1 <= b <= 64,
                c <= b + 1,
                binomial_table_ok(binomials@),
                lengths@.len() == c,
                forall|cc: int|
                    0 <= cc < c ==> {
                        &&& #[trigger] lengths@[cc] <= 64
                        &&& fits((binom(b as nat, cc as nat) - 1) as u64, lengths@[cc] as nat)
                        &&& lengths@[cc] > 0 ==> word_bit((binom(b as nat, cc as nat) - 1) as u64, lengths@[cc] - 1)
                    },
            decreases b + 1 - c,
        {
            proof {
                lemma_binom_pos(b as nat, c as nat);
            }
            let l = bit_length(binomials[b][c] - 1) as usize;
            lengths.push(l);
            c = c + 1;
        }
        let blocks = CompactIntVec::from_raw_parts(bitvec, b);
        let nb = blocks.len();
        let raw = blocks.raw_data();
        let ghost pv = raw@;
        proof {
            blocks.lemma_bits_len();
            assert(nb <= n + 1) by (nonlinear_arith)
                requires
                    nb == (n + b - 1) / (b as int),
                    b >= 1,
            ;
            assert(nb * b <= 64 * (n + 1)) by (nonlinear_arith)
                requires
                    nb <= n + 1,
                    b <= 64,
            ;
            assert(pv.len() == nb * b);
        }
        let wc = bit_length(b as u64) as usize;
        let wr = bit_length(n as u64) as usize;
        let wo = bit_length((64 * nb) as u64) as usize;
        let mut classes = CompactIntVec::with_capacity(wc, nb);
        let mut offsets = BitVec::new();
        let mut rank_samples = CompactIntVec::with_capacity(wr, nb / k + 1);
        let mut offset_samples = CompactIntVec::with_capacity(wo, nb / k + 1);
        let mut rank: usize = 0;
        let mut pos: usize = 0;
        let mut j: usize = 0;
        proof {
            assert(pv.take(0) =~= Seq::<bool>::empty());
            assert(rrr_pos(classes@, lengths@, 0) == 0);
            crate::util::lemma_ceil_div(0, k as int);
        }
        while j < nb
            invariant
                1 <= b <= 64,
                k >= 1,
                n <= usize::MAX / 128,
                nb <= n + 1,
                pv.len() == nb * b,
                nb * b <= 64 * (n + 1),
                raw@ == pv,
                raw.wf(),
                binomial_table_ok(binomials@),
                lengths@.len() == b + 1,
                forall|cc: int|
                    0 <= cc <= b ==> {
                        &&& #[trigger] lengths@[cc] <= 64
                        &&& fits((binom(b as nat, cc as nat) - 1) as u64, lengths@[cc] as nat)
                        &&& lengths@[cc] > 0 ==> word_bit((binom(b as nat, cc as nat) - 1) as u64, lengths@[cc] - 1)
                    },
                fits(b as u64, wc as nat),
                fits(n as u64, wr as nat),
                fits((64 * nb) as u64, wo as nat),
                wc <= 64,
                wr <= 64,
                wo <= 64,
                j <= nb,
                classes.wf(),
                classes.width_spec() == wc,
                classes@.len() == j,
                offsets.wf(),
                offsets@.len() == pos,
                pos == rrr_pos(classes@, lengths@, j as int),
                pos <= 64 * j,
                rank == rank_of(pv, j * b),
                rank <= j * b,
                rank <= n,
                pv =~= bitvec_view_padded(v, pv.len()),
                v.len() == n,
                forall|p: int|
                    0 <= p < j ==> {
                        &&& #[trigger] classes@[p] == count_ones(block_of(pv, b as int, p))
                        &&& classes@[p] <= b
                        &&& rrr_offset(classes@, lengths@, offsets@, p) == enum_offset(
                            block_of(pv, b as int, p),
                            classes@[p] as nat,
                        )
                    },
                rank_samples.wf(),
                rank_samples.width_spec() == wr,
                rank_samples@.len() == Self::num_samples(j as nat, k as nat),
                forall|i: int|
                    0 <= i < rank_samples@.len() ==> #[trigger] rank_samples@[i] == rank_of(pv, i * k * b),
                offset_samples.wf(),
                offset_samples.width_spec() == wo,
                offset_samples@.len() == Self::num_samples(j as nat, k as nat),
                forall|i: int|
                    0 <= i < offset_samples@.len() ==> #[trigger] offset_samples@[i] == rrr_pos(
                        classes@,
                        lengths@,
                        i * k,
                    ),
            decreases nb - j,
        {
            proof {
                crate::util::lemma_ceil_div(j as int, k as int);
                crate::util::lemma_ceil_div((j + 1) as int, k as int);
                crate::util::lemma_ceil_div_step(j as int, k as int);
                assert((j + 1) * b <= nb * b) by (nonlinear_arith)
                    requires
                        j + 1 <= nb,
                        b >= 1,
                ;
                assert(j * b + b == (j + 1) * b) by (nonlinear_arith);
                lemma_rank_le(pv, j * b);
            }
            if j % k == 0 {
                proof {
                    lemma_fits_mono(rank as u64, n as u64, wr as nat);
                    assert(pos <= 64 * nb);
                    lemma_fits_mono(pos as u64, (64 * nb) as u64, wo as nat);
                    rank_samples.lemma_bits_len();
                    offset_samples.lemma_bits_len();
                    assert(rank_samples@.len() * wr <= (j + 1) * 64) by (nonlinear_arith)
                        requires
                            rank_samples@.len() <= j + 1,
                            wr <= 64,
                    ;
                    assert(offset_samples@.len() * wo <= (j + 1) * 64) by (nonlinear_arith)
                        requires
                            offset_samples@.len() <= j + 1,
                            wo <= 64,
                    ;
                }
                rank_samples.push(rank as u64);
                offset_samples.push(pos as u64);
            }
            let block = raw.read_bits(j * b, b);
            proof {
                assert forall|t: int| 0 <= t < 64 implies #[trigger] word_bit(block, t) == (t < b
                    && block_of(pv, b as int, j as int)[t]) by {}
                assert(bits_of(block, b as nat) =~= block_of(pv, b as int, j as int));
            }
            let (cls, off) = encode_with(&binomials, block, b);
            proof {
                crate::util::lemma_count_ones_le(bits_of(block, b as nat));
            }
            let l = lengths[cls];
            proof {
                lemma_padded_rank(v, pv, (j + 1) * b);
                lemma_enum_offset_bound(block_of(pv, b as int, j as int), cls as nat);
                lemma_binom_pos(b as nat, cls as nat);
                lemma_binom_fits_word(b as nat, cls as nat);
                crate::util::lemma_count_ones_le(block_of(pv, b as int, j as int));
                lemma_fits_mono(off, (binom(b as nat, cls as nat) - 1) as u64, l as nat);
                lemma_fits_mono(cls as u64, b as u64, wc as nat);
                classes.lemma_bits_len();
                assert(classes@.len() * wc + wc <= (j + 1) * 64) by (nonlinear_arith)
                    requires
                        classes@.len() == j,
                        wc <= 64,
                ;
                lemma_count_subrange(pv, j * b, b as int);
            }
            let ghost old_classes = classes@;
            let ghost old_offsets = offsets@;
            classes.push(cls as u64);
            offsets.push_bits(off, l);
            proof {
                let c2 = classes@;
                assert(old_classes =~= c2.take(j as int));
                assert forall|q: int| 0 <= q <= j implies #[trigger] rrr_pos(c2, lengths@, q) == rrr_pos(
                    old_classes,
                    lengths@,
                    q,
                ) by {
                    lemma_pos_prefix(old_classes, c2, lengths@, q);
                }
                assert(c2[j as int] == cls as u64);
                assert(rrr_pos(c2, lengths@, j as int) == pos);
                assert(rrr_pos(c2, lengths@, j + 1) == rrr_pos(c2, lengths@, j as int) + lengths@[c2[j as int] as int]);
                assert(rrr_pos(c2, lengths@, j + 1) == pos + l);
                assert forall|p: int| 0 <= p < j + 1 implies {
                    &&& #[trigger] c2[p] == count_ones(block_of(pv, b as int, p))
                    &&& c2[p] <= b
                    &&& rrr_offset(c2, lengths@, offsets@, p) == enum_offset(
                        block_of(pv, b as int, p),
                        c2[p] as nat,
                    )
                } by {
                    if p < j {
                        let start = rrr_pos(c2, lengths@, p);
                        let lp = lengths@[c2[p] as int];
                        assert(c2[p] == old_classes[p]);
                        lemma_pos_le(old_classes, lengths@, p + 1, j as int);
                        assert forall|t: int| 0 <= t < lp implies #[trigger] offsets@[start + t] == old_offsets[start + t] by {}
                        lemma_value_of_agree(offsets@, old_offsets, start as int, lp as nat);
                    } else {
                        assert forall|t: int| 0 <= t < 64 implies #[trigger] word_bit(off, t) == (t < l
                            && offsets@[pos + t]) by {
                            if t < l {
                                assert(offsets@[pos + t] == bits_of(off, l as nat)[t]);
                            }
                        }
                        lemma_word_holds_value(off, offsets@, pos as int, l as nat);
                    }
                }
                assert forall|i: int| 0 <= i < offset_samples@.len() implies #[trigger] offset_samples@[i]
                    == rrr_pos(c2, lengths@, i * k) by {
                    if i * k <= j {
                    } else {
                        assert(i * k == j);
                    }
                }
            }
            rank = rank + cls;
            pos = pos + l;
            j = j + 1;
        }
        proof {
            crate::util::lemma_ceil_div(nb as int, k as int);
            lemma_rank_le(pv, nb * b);
            lemma_fits_mono(rank as u64, n as u64, wr as nat);
            rank_samples.lemma_bits_len();
            assert(rank_samples@.len() * wr + wr <= (nb + 1) * 64) by (nonlinear_arith)
                requires
                    rank_samples@.len() <= nb,
                    wr <= 64,
            ;
        }
        rank_samples.push(rank as u64);
        if nb % k == 0 {
            proof {
                lemma_fits_mono(pos as u64, (64 * nb) as u64, wo as nat);
                offset_samples.lemma_bits_len();
                assert(offset_samples@.len() * wo + wo <= (nb + 1) * 64) by (nonlinear_arith)
                    requires
                        offset_samples@.len() <= nb,
                        wo <= 64,
                ;
            }
            offset_samples.push(pos as u64);
        }
        let r = RRRBitVec {
            b,
            k,
            classes,
            lengths,
            offsets,
            offset_samples,
            rank_samples,
            total_rank: rank,
            len: n,
            binomials,
        };
        proof {
            r.lemma_built(v, pv);
            r.lemma_wf();
            assert(pv =~= bitvec_view_padded(v, (nb * b) as nat));
            assert forall|i: int| 0 <= i < r.offset_samples@.len() implies #[trigger] r.offset_samples@[i] == rrr_pos(
                r.classes@,
                r.lengths@,
                if i * k <= nb { i * k } else { nb as int },
            ) by {
                r.lemma_wf_offset_sample(i);
            }
        }
        r
    }
}

impl RRRBitVec {
    /// The class (number of ones) and the enumerative number of a block of `b` bits.
    pub fn encode(block: u64, b: usize) -> (r: (usize, u64))
        requires
            1 <= b <= 64,
            fits(block, b as nat),
        ensures
            r.0 == count_ones(bits_of(block, b as nat)),
            r.1 == enum_offset(bits_of(block, b as nat), r.0 as nat),
    {
        let table = get_binomial_table();
        encode_with(&table, block, b)
    }

    /// The first `len` bits of the block of `b` bits with `class` ones and number `offset`.
    pub fn decode(class: usize, offset: u64, b: usize, len: usize) -> (r: u64)
        requires
            1 <= b <= 64,
            class <= b,
            offset < binom(b as nat, class as nat),
            len <= b,
        ensures
            word_holds(r, enum_block(b as nat, class as nat, offset as nat), 0, len as int),
    {
        let table = get_binomial_table();
        decode_with(&table, class, offset, b, len)
    }

    /// The builder of RRR sequences with blocks of `b` bits sampled every `k` blocks.
    pub fn spec(b: usize, k: usize) -> (r: RRRBitVecSpec)
        ensures
            r.b == b,
            r.k == k,
    {
        RRRBitVecSpec::new(b, k)
    }
}

/// Decoding the code of a block gives the block back: for every block `x` of `b` bits,
/// the word that `decode` returns for the class and offset of `x`, at full length, is `x`.
pub proof fn law_decode_encode(x: u64, b: nat, r: u64)
    requires
        1 <= b <= 64,
        fits(x, b),
        word_holds(
            r,
            enum_block(b, count_ones(bits_of(x, b)), enum_offset(bits_of(x, b), count_ones(bits_of(x, b)))),
            0,
            b as int,
        ),
    ensures
        r == x,
{
    lemma_enum_round_trip(bits_of(x, b));
    assert forall|t: int| 0 <= t < 64 implies #[trigger] word_bit(x, t) == (t < b && bits_of(x, b)[t]) by {}
    assert forall|t: int| 0 <= t < 64 implies #[trigger] word_bit(r, t) == (t < b && bits_of(x, b)[t]) by {
        if t < b {
            assert(enum_block(b, count_ones(bits_of(x, b)), enum_offset(bits_of(x, b), count_ones(bits_of(x, b))))[0 + t]
                == bits_of(x, b)[t]);
        }
    }
    crate::util::lemma_word_holds_unique(r, x, bits_of(x, b), 0, b as int);
}

impl HeapSize for RRRBitVec {
    /// The classes, the offsets, both sample arrays, and a word per offset length.
    open spec fn heap_bits(&self) -> nat {
        self.classes_vec().heap_bits() + self.offsets_vec().heap_bits() + self.rank_samples_vec().heap_bits()
            + self.offset_samples_vec().heap_bits() + 64 * self.lengths_spec().len()
    }

    fn heap_size_in_bits(&self) -> (r: usize) {
        let a = self.classes.heap_size_in_bits();
        let b = self.offsets.heap_size_in_bits();
        let c = self.rank_samples.heap_size_in_bits();
        let d = self.offset_samples.heap_size_in_bits();
        let e = crate::profiling::mul_capped(self.lengths.len(), 64);
        let ghost (ha, hb, hc, hd, he) = (
            self.classes.heap_bits(),
            self.offsets.heap_bits(),
            self.rank_samples.heap_bits(),
            self.offset_samples.heap_bits(),
            64 * self.lengths@.len(),
        );
        let ab = crate::profiling::add_capped(a, b);
        let abc = crate::profiling::add_capped(ab, c);
        let abcd = crate::profiling::add_capped(abc, d);
        proof {
            crate::profiling::lemma_capped_add(ha, hb);
            crate::profiling::lemma_capped_add(ha + hb, hc);
            crate::profiling::lemma_capped_add(ha + hb + hc, hd);
            crate::profiling::lemma_capped_add(ha + hb + hc + hd, he);
        }
        crate::profiling::add_capped(abcd, e)
    }
}

/// Parameters of an RRR sequence: block width `b` and sampling period `k`.
pub struct RRRBitVecSpec {
    pub b: usize,
    pub k: usize,
}

impl RRRBitVecSpec {
    pub fn new(b: usize, k: usize) -> (r: Self)
        ensures
            r.b == b,
            r.k == k,
    {
        RRRBitVecSpec { b, k }
    }
}

impl Build<BitVec, RRRBitVec> for RRRBitVecSpec {
    open spec fn accepts(&self, data: &BitVec) -> bool {
        &&& 1 <= self.b <= 64
        &&& self.k >= 1
        &&& data.wf()
        &&& data@.len() <= usize::MAX / 128
    }

    open spec fn builds(&self, data: &BitVec, out: &RRRBitVec) -> bool {
        out.wf() && out@ == data@
    }

    fn build(&self, data: BitVec) -> (r: RRRBitVec) {
        RRRBitVec::new(data, self.b, self.k)
    }
}

impl BitBuilder<RRRBitVec> for RRRBitVecSpec {
    open spec fn ready(&self) -> bool {
        1 <= self.b <= 64 && self.k >= 1
    }

    fn build_bits(&self, data: BitVec) -> (r: RRRBitVec) {
        RRRBitVec::new(data, self.b, self.k)
    }
}

} // verus!
