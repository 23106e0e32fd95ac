//! Rank directory with superblocks and a per-word offset inside each superblock:
//! constant-time rank, binary-search select.
use vstd::prelude::*;
use vstd::arithmetic::div_mod::{lemma_div_denominator, lemma_fundamental_div_mod_converse};
use crate::util::{rank_of, fits, ceil_div_spec, bit_length, lemma_rank_mono, lemma_rank_le, lemma_fits_mono};
use crate::bitvec::BitVec;
use crate::compact_int_vec::CompactIntVec;
use crate::rank_select::{RankSupport, SelectSupport, RankStructure, BitBuilder, BitModel, rank_by, is_select_by, word_end};
use crate::Build;
use crate::profiling::HeapSize;

verus! {

/// Superblocks of `k` words store the rank at their start; every word stores the
/// ones between the start of its superblock and itself.
pub struct DenseSamplingRank {
    superblocks: Vec<usize>,
    superblock_size: usize,
    blocks: CompactIntVec,
    k: usize,
    total_rank: usize,
}

impl DenseSamplingRank {
    /// The directory describes `v`: each superblock sample is the rank at the start of its
    /// superblock, a partial last superblock adds the total, and each word sample is the rank since the start of its superblock.
    pub open spec fn built_for(&self, v: Seq<bool>) -> bool {
        let s = self.superblock_size_spec() as int;
        let k = self.k_spec() as int;
        let n = v.len() as int;
        &&& k > 0 && s == 64 * k
        &&& n <= usize::MAX
        &&& self.total_rank_spec() == rank_of(v, n)
        &&& self.superblocks_spec().len() == n / s + 1 + (if n % s != 0 { 1int } else { 0int })
        &&& forall|i: int| 0 <= i <= n / s ==> #[trigger] self.superblocks_spec()[i] == rank_of(v, s * i)
        &&& n % s != 0 ==> self.superblocks_spec()[n / s + 1] == rank_of(v, n)
        &&& self.blocks_wf()
        &&& self.blocks_spec().len() == n / 64 + 1
        &&& forall|j: int|
            0 <= j <= n / 64 ==> #[trigger] self.blocks_spec()[j] == rank_of(v, 64 * j) - rank_of(
                v,
                s * (j / k),
            )
    }

    /// Bits per superblock.
    pub closed spec fn superblock_size_spec(&self) -> nat {
        self.superblock_size as nat
    }

    /// Number of ones in the whole sequence.
    pub closed spec fn total_rank_spec(&self) -> nat {
        self.total_rank as nat
    }

    /// The per-word samples.
    pub closed spec fn blocks_vec(&self) -> CompactIntVec {
        self.blocks
    }

    /// The per-word samples are well formed.
    pub closed spec fn blocks_wf(&self) -> bool {
        self.blocks.wf()
    }

    /// The superblock samples.
    pub closed spec fn superblocks_spec(&self) -> Seq<usize> {
        self.superblocks@
    }

    /// The per-word samples.
    pub closed spec fn blocks_spec(&self) -> Seq<u64> {
        self.blocks@
    }

    pub closed spec fn k_spec(&self) -> nat {
        self.k as nat
    }

    /// Builds the directory for `data` with superblocks of `k` words.
    pub fn new(data: &BitVec, k: usize) -> (r: Self)
        requires
            data.wf(),
            0 < k <= usize::MAX / 64,
            data@.len() + 128 <= usize::MAX,
        ensures
            r.built_for(data@),
            r.supports(data@),
            r.built_for_some(),
            r.k_spec() == k,
    {
        let ghost v = data@;
        let s = k * 64;
        let n = data.len();
        let nb = n / 64;
        let max_off = ((k - 1) * 64) as u64;
        let width = bit_length(max_off) as usize;
        let mut superblocks: Vec<usize> = Vec::new();
        superblocks.push(0);
        let mut blocks = CompactIntVec::with_capacity(width, nb + 1);
        proof {
            crate::util::lemma_bit_small();
            assert(v.take(0) =~= Seq::<bool>::empty());
            blocks.lemma_bits_len();
            data.lemma_len();
        }
        blocks.push(0);
        let mut rank: usize = 0;
        let mut offset: usize = 0;
        let mut i: usize = 0;
        let mut c: usize = 0;
        let mut j: usize = 0;
        proof {
            assert(0int / (k as int) == 0);
        }
        while j < nb
            invariant
                data.wf(),
                v == data@,
                n == v.len(),
                nb == n / 64,
                data.words().len() == ceil_div_spec(n as int, 64),
                n + 128 <= usize::MAX,
                0 < k,
                s == 64 * k,
                max_off == (k - 1) * 64,
                fits(max_off, width as nat),
                width <= 64,
                j <= nb,
                j == i * k + c,
                0 <= c < k,
                s * i == 64 * (j - c),
                rank == rank_of(v, s * i),
                offset == rank_of(v, 64 * j) - rank_of(v, s * i),
                superblocks@.len() == i + 1,
                forall|ii: int| 0 <= ii <= i ==> #[trigger] superblocks@[ii] == rank_of(v, s * ii),
                blocks.wf(),
                blocks.width_spec() == width,
                blocks@.len() == j + 1,
                forall|p: int|
                    0 <= p <= j ==> #[trigger] blocks@[p] == rank_of(v, 64 * p) - rank_of(
                        v,
                        s * (p / (k as int)),
                    ),
            decreases nb - j,
        {
            proof {
                assert(64 * (j + 1) <= n);
                assert(word_end(n as nat, j as int) == 64 * (j + 1));
                lemma_rank_mono(v, s * i, 64 * (j + 1));
                lemma_rank_le(v, 64 * (j + 1));
                assert(s * i <= 64 * j);
            }
            let cnt = data.word_count(j, true);
            offset = offset + cnt;
            let ghost bits_len = blocks.bits().len();
            proof {
                assert(blocks.bits().len() == blocks@.len() * blocks.width_spec()) by {
                    blocks.lemma_bits_len();
                }
                assert((j + 2) * width <= (nb + 1) * 64) by (nonlinear_arith)
                    requires
                        j + 2 <= nb + 1,
                        width <= 64,
                ;
                assert((j + 1) * width + width == (j + 2) * width) by (nonlinear_arith);
            }
            if c + 1 == k {
                rank = rank + offset;
                superblocks.push(rank);
                proof {
                    lemma_fits_mono(0, max_off, width as nat);
                }
                blocks.push(0);
                proof {
                    assert(s * (i + 1) == s * i + s) by (nonlinear_arith);
                    assert(j + 1 == (i + 1) * k) by (nonlinear_arith)
                        requires
                            j == i * k + c,
                            c + 1 == k,
                    ;
                    lemma_fundamental_div_mod_converse((j + 1) as int, k as int, (i + 1) as int, 0);
                }
                i = i + 1;
                c = 0;
                offset = 0;
            } else {
                proof {
                    assert(offset <= 64 * (c + 1)) by {
                        lemma_rank_mono(v, s * i, 64 * (j + 1));
                    }
                    assert(offset <= max_off);
                    lemma_fits_mono(offset as u64, max_off, width as nat);
                    lemma_fundamental_div_mod_converse((j + 1) as int, k as int, i as int, (c + 1) as int);
                }
                blocks.push(offset as u64);
                c = c + 1;
            }
            j = j + 1;
        }
        let tail = data.word_prefix_ones(n);
        proof {
            lemma_rank_le(v, n as int);
            assert(64 * (n as int / 64) == 64 * j);
        }
        let total = rank + offset + tail;
        proof {
            lemma_fundamental_div_mod_converse(nb as int, k as int, i as int, c as int);
            lemma_div_denominator(n as int, 64, k as int);
            assert(64 * (n / 64) == 64 * j);
        }
        if n % s != 0 {
            superblocks.push(total);
        }
        DenseSamplingRank { superblocks, superblock_size: s, blocks, k, total_rank: total }
    }

    /// Ones (or zeros) before superblock `i`; past the last sampled superblock, in the
    /// whole sequence.
    fn superblock_count(&self, data: &BitVec, i: usize, ones: bool) -> (r: usize)
        requires
            data.wf(),
            self.built_for(data@),
            i < self.superblocks@.len(),
        ensures
            i <= (data@.len() as int) / (self.superblock_size as int) ==> r == rank_by(
                data@,
                self.superblock_size * i,
                ones,
            ),
            i > (data@.len() as int) / (self.superblock_size as int) ==> r == rank_by(
                data@,
                data@.len() as int,
                ones,
            ),
    {
        let ghost n = data@.len() as int;
        let ghost s = self.superblock_size as int;
        let v = self.superblocks[i];
        proof {
            assert(i * self.superblock_size == self.superblock_size * i) by (nonlinear_arith);
        }
        if ones {
            return v;
        }
        proof {
            if i <= n / s {
                assert(s * i <= s * (n / s)) by (nonlinear_arith)
                    requires
                        i <= n / s,
                        s > 0,
                ;
                assert(s * (n / s) <= n) by (nonlinear_arith)
                    requires
                        s > 0,
                        n >= 0,
                ;
                lemma_rank_le(data@, s * i);
            } else {
                lemma_rank_le(data@, n);
            }
        }
        if i <= data.len() / self.superblock_size {
            proof {
                assert(i * self.superblock_size <= n) by (nonlinear_arith)
                    requires
                        s * i <= n,
                        s == self.superblock_size,
                ;
            }
            i * self.superblock_size - v
        } else {
            data.len() - self.total_rank
        }
    }

    /// Ones (or zeros) from the start of the superblock of word `j` to word `j`.
    fn block_count(&self, data: &BitVec, j: usize, first: usize, ones: bool) -> (r: usize)
        requires
            data.wf(),
            self.built_for(data@),
            j <= data@.len() / 64,
            first == (j as int / self.k as int) * self.k,
        ensures
            r == rank_by(data@, 64 * j, ones) - rank_by(data@, 64 * first, ones),
    {
        let ghost v = data@;
        let ghost k = self.k as int;
        proof {
            assert(64 * first == self.superblock_size * (j as int / k)) by (nonlinear_arith)
                requires
                    first == (j as int / k) * k,
                    self.superblock_size == 64 * k,
            ;
            assert(first <= j) by (nonlinear_arith)
                requires
                    first == (j as int / k) * k,
                    k > 0,
            ;
            lemma_rank_mono(v, 64 * first, 64 * j);
            lemma_rank_le(v, 64 * j);
            assert(self.blocks@[j as int] == rank_of(v, 64 * j) - rank_of(
                v,
                self.superblock_size * (j as int / k),
            ));
        }
        let b = match self.blocks.get(j) {
            Some(x) => x,
            None => 0,
        };
        if ones {
            b as usize
        } else {
            (j - first) * 64 - b as usize
        }
    }

    /// `select` (ones) or `select0` (zeros): a binary search over the superblocks,
    /// one over the words of the superblock found, then a scan of one word.
    fn select_by(&self, data: &BitVec, target: usize, ones: bool) -> (r: Option<usize>)
        requires
            data.wf(),
            self.built_for(data@),
        ensures
            target <= rank_by(data@, data@.len() as int, ones) <==> r.is_some(),
            r.is_some() ==> is_select_by(data@, target as int, r.unwrap() as int, ones),
    {
        let ghost v = data@;
        let ghost n = v.len() as int;
        let ghost s = self.superblock_size as int;
        let ghost k = self.k as int;
        proof {
            lemma_rank_le(v, n);
            assert(v.take(0) =~= Seq::<bool>::empty());
            data.lemma_len();
        }
        if target == 0 {
            return Some(0);
        }
        let total = if ones { self.total_rank } else { data.len() - self.total_rank };
        if target > total {
            return None;
        }
        let last = self.superblocks.len() - 1;
        proof {
            if n % s == 0 {
                assert(s * (n / s) == n) by (nonlinear_arith)
                    requires
                        n % s == 0,
                        s > 0,
                ;
            }
            if last == 0 {
                assert(n == 0) by (nonlinear_arith)
                    requires
                        n / s == 0,
                        n % s == 0,
                        s > 0,
                        n >= 0,
                ;
            }
            assert(self.superblocks@[0] == rank_of(v, s * 0));
        }
        proof {
            vstd::arithmetic::div_mod::lemma_fundamental_div_mod(n, s);
        }
        let mut left: usize = 0;
        let mut right: usize = last;
        let c0 = self.superblock_count(data, 0, ones);
        let cl = self.superblock_count(data, last, ones);
        while right - left > 1
            invariant
                data.wf(),
                self.built_for(data@),
                v == data@,
                last == self.superblocks@.len() - 1,
                target <= rank_by(v, n, ones),
                n == v.len(),
                s == self.superblock_size,
                s > 0,
                n == s * (n / s) + n % s,
                0 <= n % s < s,
                left < right <= last,
                left <= n / s,
                rank_by(v, s * left, ones) < target,
                right <= n / s ==> target <= rank_by(v, s * right, ones),
                right > n / s ==> target <= rank_by(v, n, ones),
            decreases right - left,
        {
            let mid = left + (right - left) / 2;
            let c = self.superblock_count(data, mid, ones);
            if c < target {
                proof {
                    if mid > n / s {
                        assert(false);
                    }
                }
                left = mid;
            } else {
                right = mid;
            }
        }
        let ghost p0 = s * left;
        let ghost e0 = if s * (left + 1) <= n { s * (left + 1) } else { n };
        proof {
            assert(s * (left + 1) == s * left + s) by (nonlinear_arith);
            assert(s * left <= n) by (nonlinear_arith)
                requires
                    left <= n / s,
                    s > 0,
                    n == s * (n / s) + n % s,
                    0 <= n % s,
            ;
            if right <= n / s {
                assert(s * right <= n) by (nonlinear_arith)
                    requires
                        right <= n / s,
                        s > 0,
                        n == s * (n / s) + n % s,
                        0 <= n % s,
                ;
            } else {
                assert(s * right > n) by (nonlinear_arith)
                    requires
                        right > n / s,
                        s > 0,
                        n == s * (n / s) + n % s,
                        n % s < s,
                ;
                if s * right <= n {
                    lemma_rank_mono(v, s * right, n);
                }
            }
            assert(target <= rank_by(v, e0, ones));
            lemma_rank_mono(v, p0, n);
            assert(p0 < n);
        }
        let base = self.superblock_count(data, left, ones);
        proof {
            assert(left * k <= p0) by (nonlinear_arith)
                requires
                    p0 == s * left,
                    s == 64 * k,
                    left >= 0,
                    k >= 0,
            ;
            assert(k <= usize::MAX / 64);
        }
        let remaining = target - base;
        let first = left * self.k;
        let raw_len = data.raw_data().len();
        proof {
            assert(64 * first == p0) by (nonlinear_arith)
                requires
                    first == left * k,
                    s == 64 * k,
                    p0 == s * left,
            ;
        }
        proof {
            assert(raw_len == ceil_div_spec(n, 64));
            assert(first < raw_len);
        }
        let end = if first + self.k - 1 < raw_len - 1 { first + self.k - 1 } else { raw_len - 1 };
        let mut lb = first;
        let mut rb = end;
        proof {
            assert forall|j: int| first <= j <= end implies #[trigger] (j / k) == left by {
                lemma_fundamental_div_mod_converse(j, k, left as int, j - first);
            }
            assert(first as int / k == left);
            assert(end <= n / 64);
        }
        while rb - lb > 1
            invariant
                data.wf(),
                self.built_for(data@),
                v == data@,
                first <= lb <= rb <= end,
                n == v.len(),
                k == self.k,
                end <= n / 64,
                first == left * k,
                forall|j: int| first <= j <= end ==> #[trigger] (j / k) == left,
                rank_by(v, 64 * lb, ones) - rank_by(v, 64 * first, ones) < remaining,
                rb == end || remaining <= rank_by(v, 64 * rb, ones) - rank_by(v, 64 * first, ones),
            decreases rb - lb,
        {
            let mid = lb + (rb - lb) / 2;
            proof {
                assert(mid as int / k == left);
            }
            let c = self.block_count(data, mid, first, ones);
            if c < remaining {
                lb = mid;
            } else {
                rb = mid;
            }
        }
        proof {
            assert(rb as int / k == left);
            assert(lb as int / k == left);
        }
        let crb = self.block_count(data, rb, first, ones);
        let t = if crb < remaining { rb } else { lb };
        proof {
            assert(t as int / k == left);
        }
        let clb = self.block_count(data, t, first, ones);
        proof {
            assert(word_end(n as nat, t as int) == if 64 * (t + 1) <= n { 64 * (t + 1) } else { n });
            if t == end {
                if end == raw_len - 1 {
                    assert(64 * (t + 1) >= n);
                } else {
                    assert(64 * (t + 1) == s * (left + 1)) by (nonlinear_arith)
                        requires
                            t == first + k - 1,
                            first == left * k,
                            s == 64 * k,
                    ;
                }
            } else {
                assert(rb == lb + 1 || rb == lb);
            }
            assert(target <= rank_by(v, word_end(n as nat, t as int), ones));
        }
        Some(data.scan_word(t, base + clb, target, ones))
    }
}

impl RankSupport for DenseSamplingRank {
    open spec fn supports(&self, data: Seq<bool>) -> bool {
        self.built_for(data)
    }

    fn rank(&self, data: &BitVec, index: usize) -> (r: Option<usize>) {
        if index > data.len() {
            return None;
        }
        let ghost v = data@;
        let ghost k = self.k as int;
        let is = index / self.superblock_size;
        let iw = index / 64;
        proof {
            lemma_div_denominator(index as int, 64, k);
            assert(is <= (v.len() as int) / (self.superblock_size as int)) by (nonlinear_arith)
                requires
                    index <= v.len(),
                    is == index as int / (self.superblock_size as int),
                    self.superblock_size > 0,
            ;
            assert(iw <= v.len() as int / 64);
            assert((iw as int / k) * k == is * k);
            assert((iw as int / k) * k <= iw) by (nonlinear_arith)
                requires
                    k > 0,
                    iw >= 0,
            ;
        }
        let sb = self.superblocks[is];
        let b = self.block_count(data, iw, is * self.k, true);
        let tail = data.word_prefix_ones(index);
        proof {
            assert(self.superblock_size * is == 64 * (is * k)) by (nonlinear_arith)
                requires
                    self.superblock_size == 64 * k,
            ;
            lemma_rank_le(v, index as int);
            lemma_rank_mono(v, 64 * iw, index as int);
        }
        Some(sb + b + tail)
    }

    fn rank0(&self, data: &BitVec, index: usize) -> (r: Option<usize>) {
        match self.rank(data, index) {
            Some(r) => {
                proof {
                    lemma_rank_le(data@, index as int);
                }
                Some(index - r)
            },
            None => None,
        }
    }
}

impl SelectSupport for DenseSamplingRank {
    fn select(&self, data: &BitVec, rank: usize) -> (r: Option<usize>) {
        self.select_by(data, rank, true)
    }

    fn select0(&self, data: &BitVec, rank0: usize) -> (r: Option<usize>) {
        self.select_by(data, rank0, false)
    }
}

impl DenseSamplingRank {
    /// Rank at the start of each superblock, then the total when the last one is partial.
    pub fn superblocks(&self) -> (r: &[usize])
        ensures
            r@ == self.superblocks_spec(),
    {
        self.superblocks.as_slice()
    }

    /// Bits per superblock.
    pub fn superblock_size(&self) -> (r: usize)
        ensures
            r == self.superblock_size_spec(),
            self.built_for_some() ==> r == 64 * self.k_spec(),
    {
        self.superblock_size
    }

    /// Ones between the start of its superblock and each word.
    pub fn blocks(&self) -> (r: &CompactIntVec)
        ensures
            r@ == self.blocks_spec(),
            *r == self.blocks_vec(),
            self.blocks_wf() ==> r.wf(),
    {
        &self.blocks
    }

    /// Words per superblock.
    pub fn k(&self) -> (r: usize)
        ensures
            r == self.k_spec(),
    {
        self.k
    }

    /// The builder of this directory with superblocks of `k` words.
    pub fn spec(k: usize) -> (r: DenseSamplingRankSpec)
        ensures
            r.k == k,
    {
        DenseSamplingRankSpec::new(k)
    }

    /// The directory is consistent in its own sizes.
    pub open spec fn built_for_some(&self) -> bool {
        self.k_spec() > 0 && self.superblock_size_spec() == 64 * self.k_spec()
    }
}

/// Parameters of the directory: superblocks of `k` words.
pub struct DenseSamplingRankSpec {
    pub k: usize,
}

impl DenseSamplingRankSpec {
    pub fn new(k: usize) -> (r: Self)
        ensures
            r.k == k,
    {
        DenseSamplingRankSpec { k }
    }
}

impl Build<BitVec, RankStructure<DenseSamplingRank>> for DenseSamplingRankSpec {
    open spec fn accepts(&self, data: &BitVec) -> bool {
        &&& 0 < self.k <= usize::MAX / 64
        &&& data.wf()
        &&& data@.len() + 128 <= usize::MAX
    }

    open spec fn builds(&self, data: &BitVec, out: &RankStructure<DenseSamplingRank>) -> bool {
        out.inv() && out.bits() == data@
    }

    fn build(&self, data: BitVec) -> (r: RankStructure<DenseSamplingRank>) {
        let support = DenseSamplingRank::new(&data, self.k);
        RankStructure::new(data, support)
    }
}

impl Build<&BitVec, DenseSamplingRank> for DenseSamplingRankSpec {
    open spec fn accepts(&self, data: &&BitVec) -> bool {
        &&& 0 < self.k <= usize::MAX / 64
        &&& data.wf()
        &&& data@.len() + 128 <= usize::MAX
    }

    open spec fn builds(&self, data: &&BitVec, out: &DenseSamplingRank) -> bool {
        out.supports(data@)
    }

    fn build(&self, data: &BitVec) -> (r: DenseSamplingRank) {
        DenseSamplingRank::new(data, self.k)
    }
}

impl BitBuilder<RankStructure<DenseSamplingRank>> for DenseSamplingRankSpec {
    open spec fn ready(&self) -> bool {
        0 < self.k <= usize::MAX / 64
    }

    fn build_bits(&self, data: BitVec) -> (r: RankStructure<DenseSamplingRank>) {
        let support = DenseSamplingRank::new(&data, self.k);
        RankStructure::new(data, support)
    }
}

impl HeapSize for DenseSamplingRank {
    /// A word per superblock sample, then the per-word samples.
    open spec fn heap_bits(&self) -> nat {
        64 * self.superblocks_spec().len() + self.blocks_vec().heap_bits()
    }

    fn heap_size_in_bits(&self) -> (r: usize) {
        let s = crate::profiling::mul_capped(self.superblocks.len(), 64);
        let b = self.blocks.heap_size_in_bits();
        proof {
            crate::profiling::lemma_capped_add(64 * self.superblocks@.len(), self.blocks.heap_bits());
        }
        crate::profiling::add_capped(s, b)
    }
}

} // verus!