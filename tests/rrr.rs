use faex::bitvec::BitVec;
use faex::rank_select::{Access, Rank, Select};
use faex::rrr_bitvec::RRRBitVec;

fn collect(v: &faex::compact_int_vec::CompactIntVec) -> Vec<u64> {
    let mut it = v.iter();
    let mut out = Vec::new();
    while let Some(x) = it.next() {
        out.push(x);
    }
    out
}

#[test]
fn encode() {
    let block = 0b0010;
    let (class, offset) = RRRBitVec::encode(block, 4);
    assert_eq!(1, class);
    assert_eq!(2, offset);

    let block = 0b1101;
    let (class, offset) = RRRBitVec::encode(block, 4);
    assert_eq!(3, class);
    assert_eq!(1, offset);
}

#[test]
fn decode() {
    let (class, offset) = (1, 2);
    let block = RRRBitVec::decode(class, offset, 4, 4);
    assert_eq!(0b0010, block);

    let (class, offset) = (3, 1);
    let block = RRRBitVec::decode(class, offset, 4, 4);
    assert_eq!(0b1101, block);
}

#[test]
fn decode_is_the_inverse_of_encode() {
    let mut block: u64 = 0;
    for b in 1..=64usize {
        block |= (1 << (b - 1)) * (b as u64 % 2);
        let (class, offset) = RRRBitVec::encode(block, b);
        let decoded_block = RRRBitVec::decode(class, offset, b, b);
        assert_eq!(block, decoded_block);
    }
}

#[test]
fn decode_of_a_prefix_keeps_the_low_bits() {
    let (class, offset) = RRRBitVec::encode(0b1011_0110, 8);
    assert_eq!(class, 5);
    assert_eq!(RRRBitVec::decode(class, offset, 8, 3), 0b110);
    assert_eq!(RRRBitVec::decode(class, offset, 8, 0), 0);
}

#[test]
fn rrr_new() {
    let b = 4;
    let data: [u8; 5] = [0b01000001, 0b01100000, 0b01010000, 0b11010000, 0b10000001];
    let bv = BitVec::from_bytes(&data);
    let rrr = RRRBitVec::new(bv, b, 4);

    let expected_classes = [1u64, 1, 0, 2, 0, 2, 0, 3, 1, 1];
    assert_eq!(&expected_classes[..], collect(rrr.classes()).as_slice());

    let expected_lengths = [0usize, 2, 3, 2, 0];
    assert_eq!(&expected_lengths[..], rrr.lengths());

    let offsets = rrr.offsets();
    assert_eq!(offsets.read_bits(0, 2), 0b11);
    assert_eq!(offsets.read_bits(2, 2), 0b01);
    assert_eq!(offsets.read_bits(4, 0), 0b0);
    assert_eq!(offsets.read_bits(4, 3), 0b010);
    assert_eq!(offsets.read_bits(7, 0), 0b0);
    assert_eq!(offsets.read_bits(7, 3), 0b100);
    assert_eq!(offsets.read_bits(10, 0), 0b0);
    assert_eq!(offsets.read_bits(10, 2), 0b01);
    assert_eq!(offsets.read_bits(12, 2), 0b11);
    assert_eq!(offsets.read_bits(14, 2), 0b00);

    assert_eq!(&[0u64, 7, 12][..], collect(rrr.offset_samples()).as_slice());
    assert_eq!(&[0u64, 4, 9, 11][..], collect(rrr.rank_samples()).as_slice());

    assert_eq!(rrr.total_rank(), 11);
    assert_eq!(rrr.len(), 40);
    assert_eq!(rrr.b(), 4);
    assert_eq!(rrr.k(), 4);
}

#[test]
fn mod_new_when_fully_sampled() {
    let b = 4;
    let data: [u8; 6] = [
        0b01000001, 0b01100000, 0b01010000, 0b11010000, 0b10000001, 0b10000001,
    ];
    let bv = BitVec::from_bytes(&data);
    let rrr = RRRBitVec::new(bv, b, 4);

    let expected_classes = [1u64, 1, 0, 2, 0, 2, 0, 3, 1, 1, 1, 1];
    assert_eq!(&expected_classes[..], collect(rrr.classes()).as_slice());

    let expected_lengths = [0usize, 2, 3, 2, 0];
    assert_eq!(&expected_lengths[..], rrr.lengths());

    let offsets = rrr.offsets();
    assert_eq!(offsets.read_bits(0, 2), 0b11);
    assert_eq!(offsets.read_bits(2, 2), 0b01);
    assert_eq!(offsets.read_bits(4, 0), 0b0);
    assert_eq!(offsets.read_bits(4, 3), 0b010);
    assert_eq!(offsets.read_bits(7, 0), 0b0);
    assert_eq!(offsets.read_bits(7, 3), 0b100);
    assert_eq!(offsets.read_bits(10, 0), 0b0);
    assert_eq!(offsets.read_bits(10, 2), 0b01);
    assert_eq!(offsets.read_bits(12, 2), 0b11);
    assert_eq!(offsets.read_bits(14, 2), 0b00);
    assert_eq!(offsets.read_bits(16, 2), 0b11);
    assert_eq!(offsets.read_bits(18, 2), 0b00);

    assert_eq!(&[0u64, 7, 12, 20][..], collect(rrr.offset_samples()).as_slice());
    assert_eq!(&[0u64, 4, 9, 13][..], collect(rrr.rank_samples()).as_slice());

    assert_eq!(rrr.total_rank(), 13);
    assert_eq!(rrr.len(), 48);
    assert_eq!(rrr.b(), 4);
    assert_eq!(rrr.k(), 4);
}

fn pseudo_random_bits(n: usize, seed: u64) -> BitVec {
    let mut state = seed;
    let mut bv = BitVec::new();
    for _ in 0..n {
        state ^= state << 13;
        state ^= state >> 7;
        state ^= state << 17;
        bv.push(state % 3 == 0);
    }
    bv
}

fn check_against_plain(plain: &BitVec, b: usize, k: usize) {
    let rrr = RRRBitVec::new(plain.clone(), b, k);
    let n = plain.len();
    assert_eq!(rrr.len(), n);
    for i in 0..=n {
        assert_eq!(rrr.rank(i), plain.rank(i));
        assert_eq!(rrr.rank0(i), plain.rank0(i));
    }
    assert_eq!(rrr.rank(n + 1), None);
    for i in 0..n {
        assert_eq!(rrr.access(i), plain.access(i));
    }
    assert_eq!(rrr.access(n), None);
    let ones = plain.rank(n).unwrap();
    for r in 0..=ones + 1 {
        assert_eq!(rrr.select(r), plain.select(r));
    }
    for r in 0..=(n - ones) + 1 {
        assert_eq!(rrr.select0(r), plain.select0(r));
    }
}

#[test]
fn rrr_agrees_with_plain_bits_for_many_block_widths() {
    let plain = pseudo_random_bits(700, 0x9e37_79b9_7f4a_7c15);
    for b in [1usize, 2, 3, 4, 15, 16, 20, 31, 32, 63, 64] {
        for k in [1usize, 4, 16] {
            check_against_plain(&plain, b, k);
        }
    }
}

#[test]
fn rrr_handles_all_ones_and_all_zeros() {
    for value in [true, false] {
        let plain = BitVec::from_value(value, 301);
        check_against_plain(&plain, 7, 3);
        check_against_plain(&plain, 64, 2);
    }
}

#[test]
fn rrr_on_empty_input() {
    let rrr = RRRBitVec::new(BitVec::new(), 5, 2);
    assert_eq!(rrr.len(), 0);
    assert!(rrr.is_empty());
    assert_eq!(rrr.rank(0), Some(0));
    assert_eq!(rrr.select(0), Some(0));
    assert_eq!(rrr.select0(0), Some(0));
    assert_eq!(rrr.select(1), None);
    assert_eq!(rrr_total(&rrr), 0);
}

fn rrr_total(rrr: &RRRBitVec) -> usize {
    rrr.total_rank()
}
