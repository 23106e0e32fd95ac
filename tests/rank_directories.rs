use faex::bitvec::BitVec;
use faex::compact_int_vec::CompactIntVec;
use faex::dense_sampling_rank::{DenseSamplingRank, DenseSamplingRankSpec};
use faex::rank_select::{Access, Rank, Select};
use faex::sparse_sampling_rank::{SparseSamplingRank, SparseSamplingRankSpec};
use faex::Build;

fn collect(v: &CompactIntVec) -> Vec<u64> {
    let mut it = v.iter();
    let mut out = Vec::new();
    while let Some(x) = it.next() {
        out.push(x);
    }
    out
}

#[test]
fn tests_new() {
    const TEST_DATA: [u64; 10] = [
        0b1000, 0b0010, 0b0000, 0b0110, 0b0000, 0b1010, 0b0000, 0b1011, 0b0100, 0b0001,
    ];
    let bv = BitVec::from_words(&TEST_DATA);

    let rs = DenseSamplingRank::new(&bv, 4);

    assert_eq!(rs.superblocks().len(), 4);
    assert_eq!(rs.superblock_size(), 4 * 64);
    assert_eq!(rs.k(), 4);

    assert_eq!(rs.superblocks(), &[0, 4, 9, 11]);
    assert_eq!(collect(rs.blocks()), vec![0, 1, 2, 2, 0, 0, 2, 2, 0, 1, 2]);
}

#[test]
fn tests_new_when_fully_sampled() {
    const TEST_DATA: [u64; 8] = [
        0b1000, 0b0010, 0b0000, 0b0110, 0b0000, 0b1010, 0b0000, 0b1011,
    ];
    let bv = BitVec::from_words(&TEST_DATA);
    let rs = DenseSamplingRank::new(&bv, 4);

    assert_eq!(rs.superblocks().len(), 3);
    assert_eq!(rs.superblock_size(), 4 * 64);
    assert_eq!(rs.k(), 4);

    assert_eq!(rs.superblocks(), &[0, 4, 9]);
    assert_eq!(collect(rs.blocks()), vec![0, 1, 2, 2, 0, 0, 2, 2, 0]);
}

#[test]
fn dense_new_when_len_is_multiple_of_superblock_size() {
    for k in [1usize, 2, 3, 4, 8] {
        let bv = BitVec::from_value(true, k * 6 * 64);
        let rs = DenseSamplingRank::new(&bv, k);
        assert_eq!(rs.superblocks().len(), 7);
        assert_eq!(rs.blocks().len(), k * 6 + 1);
    }
}

#[test]
fn sparse_superblocks_match_dense_ones() {
    const TEST_DATA: [u64; 10] = [
        0b1000, 0b0010, 0b0000, 0b0110, 0b0000, 0b1010, 0b0000, 0b1011, 0b0100, 0b0001,
    ];
    let bv = BitVec::from_words(&TEST_DATA);
    let rs = SparseSamplingRank::new(&bv, 4);
    assert_eq!(rs.superblocks(), &[0, 4, 9, 11]);
    assert_eq!(rs.superblock_size(), 256);
    assert_eq!(rs.k(), 4);
}

#[test]
fn tail_of_zeros_still_gets_a_trailing_sample() {
    let mut bv = BitVec::from_value(true, 64);
    for _ in 0..10 {
        bv.push(false);
    }
    let dense = DenseSamplingRank::new(&bv, 1);
    assert_eq!(dense.superblocks(), &[0, 64, 64]);
    let structure = DenseSamplingRankSpec::new(1).build(bv);
    assert_eq!(structure.select0(10), Some(74));
    assert_eq!(structure.select0(11), None);
    assert_eq!(structure.select(64), Some(64));
}

fn pseudo_random_bits(n: usize, seed: u64) -> BitVec {
    let mut state = seed;
    let mut bv = BitVec::new();
    for _ in 0..n {
        state ^= state << 13;
        state ^= state >> 7;
        state ^= state << 17;
        bv.push(state & 1 == 1);
    }
    bv
}

#[test]
fn sparse_and_dense_agree_with_plain_bits() {
    let plain = pseudo_random_bits(10_000, 0x2545_f491_4f6c_dd1d);
    let n = plain.len();
    for k in [1usize, 3, 4, 16] {
        let dense = DenseSamplingRankSpec::new(k).build(plain.clone());
        let sparse = SparseSamplingRankSpec::new(k).build(plain.clone());
        for i in 0..=n + 1 {
            let expected = plain.rank(i);
            assert_eq!(dense.rank(i), expected);
            assert_eq!(sparse.rank(i), expected);
            assert_eq!(dense.rank0(i), plain.rank0(i));
            assert_eq!(sparse.rank0(i), plain.rank0(i));
        }
        for i in 0..=n {
            assert_eq!(dense.access(i), plain.access(i));
            assert_eq!(sparse.access(i), plain.access(i));
        }
        let ones = plain.rank(n).unwrap();
        for r in 0..=ones + 1 {
            let expected = plain.select(r);
            assert_eq!(dense.select(r), expected);
            assert_eq!(sparse.select(r), expected);
        }
        for r in 0..=(n - ones) + 1 {
            let expected = plain.select0(r);
            assert_eq!(dense.select0(r), expected);
            assert_eq!(sparse.select0(r), expected);
        }
    }
}

#[test]
fn directories_on_empty_bits() {
    let bv = BitVec::new();
    let dense = DenseSamplingRankSpec::new(2).build(bv.clone());
    let sparse = SparseSamplingRankSpec::new(2).build(bv);
    assert_eq!(dense.rank(0), Some(0));
    assert_eq!(sparse.rank(0), Some(0));
    assert_eq!(dense.select(0), Some(0));
    assert_eq!(sparse.select0(0), Some(0));
    assert_eq!(dense.select(1), None);
    assert_eq!(sparse.select0(1), None);
}
