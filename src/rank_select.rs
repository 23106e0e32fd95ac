//! The operations shared by bit sequences: access, rank and select.
use vstd::prelude::*;
use crate::util::{rank_of, rank0_of, count_ones, lemma_rank_step};
use crate::bitvec::BitVec;
use crate::profiling::HeapSize;
pub use crate::Build;

verus! {

/// A structure that stands for a sequence of bits.
pub trait BitModel {
    /// The bits the structure stands for.
    spec fn bits(&self) -> Seq<bool>;

    /// The structure is well formed.
    spec fn inv(&self) -> bool;
}

/// The position `p` is where `r` ones have been seen: `select(r)`.
pub open spec fn is_select(s: Seq<bool>, r: int, p: int) -> bool {
    &&& 0 <= p <= s.len()
    &&& rank_of(s, p) == r
    &&& r > 0 ==> s[p - 1]
    &&& r == 0 ==> p == 0
}

/// The position `p` is where `r` zeros have been seen: `select0(r)`.
pub open spec fn is_select0(s: Seq<bool>, r: int, p: int) -> bool {
    &&& 0 <= p <= s.len()
    &&& rank0_of(s, p) == r
    &&& r > 0 ==> !s[p - 1]
    &&& r == 0 ==> p == 0
}

/// Ones (when `ones`) or zeros in the first `i` bits.
pub open spec fn rank_by(s: Seq<bool>, i: int, ones: bool) -> int {
    if ones { rank_of(s, i) as int } else { rank0_of(s, i) }
}

/// `p` is `select(r)` (when `ones`) or `select0(r)`.
pub open spec fn is_select_by(s: Seq<bool>, r: int, p: int, ones: bool) -> bool {
    if ones { is_select(s, r, p) } else { is_select0(s, r, p) }
}

/// End of the bits held by word `q` of a sequence of `len` bits.
pub open spec fn word_end(len: nat, q: int) -> int {
    if 64 * (q + 1) <= len { 64 * (q + 1) } else { len as int }
}

/// Rank and access agree: going one position further adds the bit at that position.
pub proof fn law_rank_access(s: Seq<bool>, i: int)
    requires
        0 <= i < s.len(),
    ensures
        rank_of(s, i + 1) - rank_of(s, i) == if s[i] { 1int } else { 0int },
        rank0_of(s, i + 1) - rank0_of(s, i) == if s[i] { 0int } else { 1int },
{
    lemma_rank_step(s, i);
}

/// Rank is zero at the start and the number of ones at the end.
pub proof fn law_rank_bounds(s: Seq<bool>)
    ensures
        rank_of(s, 0) == 0,
        rank_of(s, s.len() as int) == count_ones(s),
        rank0_of(s, s.len() as int) == s.len() - count_ones(s),
{
    assert(s.take(0) =~= Seq::<bool>::empty());
    assert(s.take(s.len() as int) =~= s);
}

/// Select inverts rank: the rank at `select(r)` is `r`, and the rank of zeros at
/// `select0(r)` is `r`.
pub proof fn law_select_rank(s: Seq<bool>, r: int, p: int, p0: int)
    requires
        is_select(s, r, p),
        is_select0(s, r, p0),
    ensures
        rank_of(s, p) == r,
        rank0_of(s, p0) == r,
{
}

/// The position found by select is the only one that qualifies.
pub proof fn law_select_unique(s: Seq<bool>, r: int, p: int, q: int, ones: bool)
    requires
        is_select_by(s, r, p, ones),
        is_select_by(s, r, q, ones),
    ensures
        p == q,
{
    crate::util::lemma_rank_le(s, p);
    crate::util::lemma_rank_le(s, q);
    if r > 0 && p < q {
        crate::util::lemma_rank_mono(s, p, q - 1);
        lemma_rank_step(s, q - 1);
        if ones {
            assert(s[q - 1]);
            assert(rank_of(s, q) >= rank_of(s, p) + 1);
        } else {
            assert(!s[q - 1]);
            assert(rank0_of(s, q) >= rank0_of(s, p) + 1);
        }
    } else if r > 0 && q < p {
        crate::util::lemma_rank_mono(s, q, p - 1);
        lemma_rank_step(s, p - 1);
        if ones {
            assert(s[p - 1]);
            assert(rank_of(s, p) >= rank_of(s, q) + 1);
        } else {
            assert(!s[p - 1]);
            assert(rank0_of(s, p) >= rank0_of(s, q) + 1);
        }
    }
}

/// Everything is zero at zero: `rank(0) = rank0(0) = select(0) = select0(0) = 0`.
pub proof fn law_zero_convention(s: Seq<bool>)
    ensures
        rank_of(s, 0) == 0,
        rank0_of(s, 0) == 0,
        is_select(s, 0, 0),
        is_select0(s, 0, 0),
        forall|p: int| is_select(s, 0, p) ==> p == 0,
        forall|p: int| is_select0(s, 0, p) ==> p == 0,
{
    assert(s.take(0) =~= Seq::<bool>::empty());
}

/// Reads one bit.
pub trait Access: BitModel {
    fn access(&self, index: usize) -> (r: Option<bool>)
        requires
            self.inv(),
        ensures
            r == if index < self.bits().len() { Some(self.bits()[index as int]) } else { None::<bool> },
    ;
}

/// Counts ones and zeros before a position.
pub trait Rank: BitModel {
    /// Ones in `[0, index)`; absent when `index` is past the end.
    fn rank(&self, index: usize) -> (r: Option<usize>)
        requires
            self.inv(),
        ensures
            r == if index <= self.bits().len() {
                Some(rank_of(self.bits(), index as int) as usize)
            } else {
                None::<usize>
            },
    ;

    /// Zeros in `[0, index)`; absent when `index` is past the end.
    fn rank0(&self, index: usize) -> (r: Option<usize>)
        requires
            self.inv(),
        ensures
            r == if index <= self.bits().len() {
                Some(rank0_of(self.bits(), index as int) as usize)
            } else {
                None::<usize>
            },
    ;
}

/// Finds the position after the `r`-th one or zero.
pub trait Select: BitModel {
    /// The position `p` with `rank(p) == r` whose previous bit is a one; absent when there
    /// are fewer than `r` ones.
    fn select(&self, rank: usize) -> (r: Option<usize>)
        requires
            self.inv(),
        ensures
            rank <= rank_of(self.bits(), self.bits().len() as int) <==> r.is_some(),
            r.is_some() ==> is_select(self.bits(), rank as int, r.unwrap() as int),
    ;

    /// The position `p` with `rank0(p) == r` whose previous bit is a zero; absent when there
    /// are fewer than `r` zeros.
    fn select0(&self, rank0: usize) -> (r: Option<usize>)
        requires
            self.inv(),
        ensures
            rank0 <= rank0_of(self.bits(), self.bits().len() as int) <==> r.is_some(),
            r.is_some() ==> is_select0(self.bits(), rank0 as int, r.unwrap() as int),
    ;
}

/// Builds a structure that stands for a given bit sequence.
pub trait BitBuilder<T: BitModel> {
    /// The builder's parameters are valid.
    spec fn ready(&self) -> bool;

    fn build_bits(&self, data: BitVec) -> (r: T)
        requires
            self.ready(),
            data.wf(),
            data@.len() <= usize::MAX / 128,
        ensures
            r.inv(),
            r.bits() == data@,
    ;
}

/// Rank over a bit sequence kept elsewhere, with the directory built for it.
pub trait RankSupport {
    /// The directory was built for `data`.
    spec fn supports(&self, data: Seq<bool>) -> bool;

    fn rank(&self, data: &BitVec, index: usize) -> (r: Option<usize>)
        requires
            data.wf(),
            self.supports(data@),
        ensures
            r == if index <= data@.len() {
                Some(rank_of(data@, index as int) as usize)
            } else {
                None::<usize>
            },
    ;

    fn rank0(&self, data: &BitVec, index: usize) -> (r: Option<usize>)
        requires
            data.wf(),
            self.supports(data@),
        ensures
            r == if index <= data@.len() {
                Some(rank0_of(data@, index as int) as usize)
            } else {
                None::<usize>
            },
    ;
}

/// Select over a bit sequence kept elsewhere, with the directory built for it.
pub trait SelectSupport: RankSupport {
    fn select(&self, data: &BitVec, rank: usize) -> (r: Option<usize>)
        requires
            data.wf(),
            self.supports(data@),
        ensures
            rank <= rank_of(data@, data@.len() as int) <==> r.is_some(),
            r.is_some() ==> is_select(data@, rank as int, r.unwrap() as int),
    ;

    fn select0(&self, data: &BitVec, rank0: usize) -> (r: Option<usize>)
        requires
            data.wf(),
            self.supports(data@),
        ensures
            rank0 <= rank0_of(data@, data@.len() as int) <==> r.is_some(),
            r.is_some() ==> is_select0(data@, rank0 as int, r.unwrap() as int),
    ;
}

/// A bit sequence together with a rank directory built for it.
pub struct RankStructure<R> {
    data: BitVec,
    rank_support: R,
}

impl<R: RankSupport> RankStructure<R> {
    /// The bit sequence.
    pub closed spec fn data_vec(&self) -> BitVec {
        self.data
    }

    /// Pairs `data` with a directory built for it.
    pub fn new(data: BitVec, rank_support: R) -> (r: Self)
        requires
            data.wf(),
            rank_support.supports(data@),
        ensures
            r.bits() == data@,
            r.inv(),
    {
        RankStructure { data, rank_support }
    }

    pub fn data(&self) -> (r: &BitVec)
        ensures
            r@ == self.bits(),
            *r == self.data_vec(),
    {
        &self.data
    }

    /// The directory.
    pub closed spec fn support(&self) -> R {
        self.rank_support
    }

    pub fn rank_support(&self) -> (r: &R)
        ensures
            *r == self.support(),
    {
        &self.rank_support
    }
}

impl<R: RankSupport> BitModel for RankStructure<R> {
    closed spec fn bits(&self) -> Seq<bool> {
        self.data@
    }

    closed spec fn inv(&self) -> bool {
        self.data.wf() && self.rank_support.supports(self.data@)
    }
}

impl<R: RankSupport> Access for RankStructure<R> {
    fn access(&self, index: usize) -> (r: Option<bool>) {
        self.data.access(index)
    }
}

impl<R: RankSupport> Rank for RankStructure<R> {
    fn rank(&self, index: usize) -> (r: Option<usize>) {
        self.rank_support.rank(&self.data, index)
    }

    fn rank0(&self, index: usize) -> (r: Option<usize>) {
        self.rank_support.rank0(&self.data, index)
    }
}

impl<R: SelectSupport> Select for RankStructure<R> {
    fn select(&self, rank: usize) -> (r: Option<usize>) {
        self.rank_support.select(&self.data, rank)
    }

    fn select0(&self, rank0: usize) -> (r: Option<usize>) {
        self.rank_support.select0(&self.data, rank0)
    }
}

/// A bit sequence together with a select directory built for it.
pub struct SelectStructure<S> {
    data: BitVec,
    select_support: S,
}

impl<S: SelectSupport> SelectStructure<S> {
    /// Pairs `data` with a directory built for it.
    pub fn new(data: BitVec, select_support: S) -> (r: Self)
        requires
            data.wf(),
            select_support.supports(data@),
        ensures
            r.bits() == data@,
            r.inv(),
    {
        SelectStructure { data, select_support }
    }

    pub fn data(&self) -> (r: &BitVec)
        ensures
            r@ == self.bits(),
    {
        &self.data
    }

    /// The directory.
    pub closed spec fn support(&self) -> S {
        self.select_support
    }

    pub fn select_support(&self) -> (r: &S)
        ensures
            *r == self.support(),
    {
        &self.select_support
    }
}

impl<S: SelectSupport> BitModel for SelectStructure<S> {
    closed spec fn bits(&self) -> Seq<bool> {
        self.data@
    }

    closed spec fn inv(&self) -> bool {
        self.data.wf() && self.select_support.supports(self.data@)
    }
}

impl<S: SelectSupport> Access for SelectStructure<S> {
    fn access(&self, index: usize) -> (r: Option<bool>) {
        self.data.access(index)
    }
}

impl<S: SelectSupport> Select for SelectStructure<S> {
    fn select(&self, rank: usize) -> (r: Option<usize>) {
        self.select_support.select(&self.data, rank)
    }

    fn select0(&self, rank0: usize) -> (r: Option<usize>) {
        self.select_support.select0(&self.data, rank0)
    }
}

impl<S: SelectSupport> Rank for SelectStructure<S> {
    fn rank(&self, index: usize) -> (r: Option<usize>) {
        self.select_support.rank(&self.data, index)
    }

    fn rank0(&self, index: usize) -> (r: Option<usize>) {
        self.select_support.rank0(&self.data, index)
    }
}

/// A bit sequence with one directory for rank and another for select.
pub struct RankSelectStructure<R, S> {
    data: BitVec,
    rank_support: R,
    select_support: S,
}

impl<R: RankSupport, S: SelectSupport> RankSelectStructure<R, S> {
    /// Pairs `data` with two directories built for it.
    pub fn new(data: BitVec, rank_support: R, select_support: S) -> (r: Self)
        requires
            data.wf(),
            rank_support.supports(data@),
            select_support.supports(data@),
        ensures
            r.bits() == data@,
            r.inv(),
    {
        RankSelectStructure { data, rank_support, select_support }
    }

    pub fn data(&self) -> (r: &BitVec)
        ensures
            r@ == self.bits(),
    {
        &self.data
    }

    /// The rank directory.
    pub closed spec fn rank_part(&self) -> R {
        self.rank_support
    }

    /// The select directory.
    pub closed spec fn select_part(&self) -> S {
        self.select_support
    }

    pub fn rank_support(&self) -> (r: &R)
        ensures
            *r == self.rank_part(),
    {
        &self.rank_support
    }

    pub fn select_support(&self) -> (r: &S)
        ensures
            *r == self.select_part(),
    {
        &self.select_support
    }
}

impl<R: RankSupport, S: SelectSupport> BitModel for RankSelectStructure<R, S> {
    closed spec fn bits(&self) -> Seq<bool> {
        self.data@
    }

    closed spec fn inv(&self) -> bool {
        self.data.wf() && self.rank_support.supports(self.data@) && self.select_support.supports(self.data@)
    }
}

impl<R: RankSupport, S: SelectSupport> Access for RankSelectStructure<R, S> {
    fn access(&self, index: usize) -> (r: Option<bool>) {
        self.data.access(index)
    }
}

impl<R: RankSupport, S: SelectSupport> Rank for RankSelectStructure<R, S> {
    fn rank(&self, index: usize) -> (r: Option<usize>) {
        self.rank_support.rank(&self.data, index)
    }

    fn rank0(&self, index: usize) -> (r: Option<usize>) {
        self.rank_support.rank0(&self.data, index)
    }
}

impl<R: RankSupport, S: SelectSupport> Select for RankSelectStructure<R, S> {
    fn select(&self, rank: usize) -> (r: Option<usize>) {
        self.select_support.select(&self.data, rank)
    }

    fn select0(&self, rank0: usize) -> (r: Option<usize>) {
        self.select_support.select0(&self.data, rank0)
    }
}

impl<R: RankSupport + HeapSize> HeapSize for RankStructure<R> {
    /// The bits and the directory.
    open spec fn heap_bits(&self) -> nat {
        self.data_vec().heap_bits() + self.support().heap_bits()
    }

    fn heap_size_in_bits(&self) -> (r: usize) {
        let a = self.data.heap_size_in_bits();
        let b = self.rank_support.heap_size_in_bits();
        proof {
            crate::profiling::lemma_capped_add(self.data.heap_bits(), self.rank_support.heap_bits());
        }
        crate::profiling::add_capped(a, b)
    }
}

} // verus!
