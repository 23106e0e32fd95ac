use faex::bitvec::BitVec;
use faex::profiling::HeapSize;
use faex::rank_select::{Access, Rank, Select};

#[test]
fn into_iter() {
    let mut bitvec = BitVec::new();
    let dummy_data = 0b11110000u8;

    bitvec.push_bits(dummy_data as u64, 8);

    let mut iter = bitvec.into_iter();
    assert_eq!(iter.next(), Some(false));
    assert_eq!(iter.next(), Some(false));
    assert_eq!(iter.next(), Some(false));
    assert_eq!(iter.next(), Some(false));
    assert_eq!(iter.next(), Some(true));
    assert_eq!(iter.next(), Some(true));
    assert_eq!(iter.next(), Some(true));
    assert_eq!(iter.next(), Some(true));
    assert_eq!(iter.next(), None);
}

#[test]
fn iter() {
    let mut bitvec = BitVec::new();
    let dummy_data = 0b11110000u8;

    bitvec.push_bits(dummy_data as u64, 8);

    let mut iter = bitvec.iter();
    assert_eq!(iter.next(), Some(false));
    assert_eq!(iter.next(), Some(false));
    assert_eq!(iter.next(), Some(false));
    assert_eq!(iter.next(), Some(false));
    assert_eq!(iter.next(), Some(true));
    assert_eq!(iter.next(), Some(true));
    assert_eq!(iter.next(), Some(true));
    assert_eq!(iter.next(), Some(true));
    assert_eq!(iter.next(), None);
}

#[test]
fn for_loop() {
    let mut bitvec = BitVec::new();
    let dummy_data = u8::MAX;

    bitvec.push_bits(dummy_data as u64, 8);

    let mut iter = bitvec.into_iter();
    let mut seen = 0;
    while let Some(bit) = iter.next() {
        assert!(bit);
        seen += 1;
    }
    assert_eq!(seen, 8);
}

#[test]
fn from_bool_slice() {
    let bools = [false, true, false, true, false, true, false, true];
    let bitvec = BitVec::from_bools(&bools[..]);

    assert_eq!(bitvec.len(), 8);
    assert_eq!(bitvec.raw_data().len(), 1);

    assert_eq!(bitvec.read_bits(0, 8), 0b10101010);
}

#[test]
fn from_empty_bool_slice() {
    let bools: [bool; 0] = [];
    let bitvec = BitVec::from_bools(&bools[..]);

    assert_eq!(bitvec.len(), 0);
    assert_eq!(bitvec.raw_data().len(), 0);
}

#[test]
fn from_bool_vec() {
    let bools = vec![false, true, false, true, false, true, false, true];
    let bitvec = BitVec::from_bools(&bools);

    assert_eq!(bitvec.len(), 8);
    assert_eq!(bitvec.raw_data().len(), 1);

    assert_eq!(bitvec.read_bits(0, 8), 0b10101010);
}

#[test]
fn from_empty_bool_vec() {
    let bools: Vec<bool> = vec![];
    let bitvec = BitVec::from_bools(&bools);

    assert_eq!(bitvec.len(), 0);
    assert_eq!(bitvec.raw_data().len(), 0);
}

#[test]
fn from_bool_array() {
    let bools = [false, true, false, true, false, true, false, true];
    let bitvec = BitVec::from_bools(&bools);

    assert_eq!(bitvec.len(), 8);
    assert_eq!(bitvec.raw_data().len(), 1);

    assert_eq!(bitvec.read_bits(0, 8), 0b10101010);
}

#[test]
fn from_empty_bool_array() {
    let bools: [bool; 0] = [];
    let bitvec = BitVec::from_bools(&bools);

    assert_eq!(bitvec.len(), 0);
    assert_eq!(bitvec.raw_data().len(), 0);
}

#[test]
fn from_bool_iterator() {
    let bools = [false, true, false, true, false, true, false, true];
    let collected: Vec<bool> = bools.into_iter().collect();
    let bitvec = BitVec::from_bools(&collected);

    assert_eq!(bitvec.len(), 8);
    assert_eq!(bitvec.raw_data().len(), 1);

    assert_eq!(bitvec.read_bits(0, 8), 0b10101010);
}

#[test]
fn from_empty_bool_iterator() {
    let bools: [bool; 0] = [];
    let collected: Vec<bool> = bools.into_iter().collect();
    let bitvec = BitVec::from_bools(&collected);

    assert_eq!(bitvec.len(), 0);
    assert_eq!(bitvec.raw_data().len(), 0);
}

#[test]
fn mod_new() {
    let bitvec = BitVec::new();
    assert_eq!(bitvec.len(), 0);
    assert_eq!(bitvec.raw_data().len(), 0);
}

#[test]
fn with_capacity() {
    let capacity = BitVec::CONTAINER_WIDTH * 4;
    let bitvec = BitVec::with_capacity(capacity);
    assert_eq!(bitvec.len(), 0);
    assert_eq!(bitvec.capacity(), capacity);
}

#[test]
fn with_capacity_when_capacity_is_not_multiple() {
    let capacity = 8;
    let bitvec = BitVec::with_capacity(capacity);
    assert_eq!(bitvec.len(), 0);
    assert_eq!(bitvec.raw_data().len(), 0);
    assert!(bitvec.capacity() >= capacity);
}

#[test]
fn mod_push() {
    let mut bitvec = BitVec::new();
    bitvec.push(true);
    bitvec.push(false);

    assert_eq!(bitvec.len(), 2);
    assert_eq!(bitvec.raw_data().len(), 1);

    assert!(bitvec.read(0));
    assert!(!bitvec.read(1));
}

#[test]
fn push_bits() {
    let mut bitvec = BitVec::new();
    let dummy_data = 0b10101010u8;
    for _ in 0..8 {
        bitvec.push_bits(dummy_data as u64, 8);
    }

    bitvec.push_bits(u64::MAX, 64);

    assert_eq!(bitvec.len(), 8 * 8 + 64);
    assert_eq!(bitvec.raw_data().len(), 2);
}

#[test]
fn push_bits_when_value_spans_two_words() {
    let mut bitvec = BitVec::new();
    let dummy_data = 0b10101010u8;
    bitvec.push_bits(dummy_data as u64, 8);

    bitvec.push_bits(u64::MAX, 64);

    assert_eq!(bitvec.len(), 8 + 64);
    assert_eq!(bitvec.raw_data().len(), 2);

    assert_eq!(bitvec.read_bits(0, 8), dummy_data as u64);
    assert_eq!(bitvec.read_bits(8, 64), u64::MAX);
}

#[test]
fn push_bits_with_no_width() {
    let mut bitvec = BitVec::new();
    bitvec.push_bits(0, 0);
    assert_eq!(bitvec.len(), 0);
    assert_eq!(bitvec.raw_data().len(), 0);
}

#[test]
fn push_bits_when_width_overflows_value() {
    let mut bitvec = BitVec::new();
    bitvec.push_bits(u8::MAX as u64, 9);
    assert_eq!(bitvec.read_bits(0, 9), 0b011111111);
}

#[test]
fn push_bits_when_value_does_not_fit_in_width() {
    let mut bitvec = BitVec::new();
    bitvec.push_bits(0b10101010, 4);
    assert_eq!(bitvec.len(), 4);
    assert_eq!(bitvec.read_bits(0, 4), 0b1010);
}

#[test]
fn mod_pop() {
    let mut bitvec = BitVec::new();
    bitvec.push(true);
    bitvec.push(false);

    assert_eq!(bitvec.len(), 2);
    assert_eq!(bitvec.raw_data().len(), 1);

    assert!(!bitvec.pop());
    assert_eq!(bitvec.len(), 1);
    assert_eq!(bitvec.raw_data().len(), 1);

    assert!(bitvec.pop());
    assert_eq!(bitvec.len(), 0);
    assert_eq!(bitvec.raw_data().len(), 0);
}

#[test]
fn pop_bits() {
    let mut bitvec = BitVec::new();
    bitvec.push(true);
    bitvec.push(false);

    assert_eq!(bitvec.len(), 2);
    assert_eq!(bitvec.raw_data().len(), 1);

    assert_eq!(bitvec.pop_bits(2), 0b01);
    assert_eq!(bitvec.len(), 0);
    assert_eq!(bitvec.raw_data().len(), 0);
}

#[test]
fn pop_bits_across_words_clears_the_rest() {
    let mut bitvec = BitVec::new();
    bitvec.push_bits(u64::MAX, 64);
    bitvec.push_bits(0b1011, 4);
    assert_eq!(bitvec.pop_bits(8), 0b10111111);
    assert_eq!(bitvec.len(), 60);
    assert_eq!(bitvec.raw_data(), &[u64::MAX >> 4]);
}

#[test]
fn read() {
    let mut bitvec = BitVec::new();
    bitvec.push(true);
    bitvec.push(false);

    assert!(bitvec.read(0));
    assert!(!bitvec.read(1));
}

#[test]
fn read_bits() {
    let mut bitvec = BitVec::new();
    let dummy_data = 0b11110000u8;

    bitvec.push_bits(dummy_data as u64, 8);
    bitvec.push_bits(u64::MAX, 64);

    assert_eq!(bitvec.read_bits(0, 4), 0b0000);
    assert_eq!(bitvec.read_bits(4, 4), 0b1111);
    assert_eq!(bitvec.read_bits(0, 8), dummy_data as u64);
    assert_eq!(bitvec.read_bits(8, bitvec.len() - 8), u64::MAX);
}

#[test]
fn read_bits_when_range_span_two_words() {
    let mut bitvec = BitVec::new();
    let dummy_data = 0u64;

    bitvec.push_bits(dummy_data, 64);
    bitvec.push_bits(u64::MAX, 64);

    assert_eq!(bitvec.read_bits(60, 8), 0b11110000);
}

#[test]
fn read_bits_when_no_width() {
    let mut bitvec = BitVec::new();
    bitvec.push_bits(0, 0);
    assert_eq!(bitvec.read_bits(0, 0), 0);
}

#[test]
fn mod_set() {
    let mut bitvec = BitVec::new();
    let dummy_data = 0u8;

    bitvec.push_bits(dummy_data as u64, 8);

    bitvec.set(4, true);

    assert!(bitvec.read(4));
}

#[test]
fn set_bits() {
    let mut bitvec = BitVec::new();
    let dummy_data = 0u8;

    bitvec.push_bits(dummy_data as u64, 8);

    bitvec.set_bits(4..8, 0b1111);

    assert_eq!(bitvec.read_bits(0, 8), 0b11110000u8 as u64);
}

#[test]
fn set_bits_when_range_spans_two_words() {
    let mut bitvec = BitVec::new();
    let dummy_data = 0u64;

    bitvec.push_bits(dummy_data, 64);
    bitvec.push_bits(dummy_data, 64);

    bitvec.set_bits(60..68, 0b11111111);

    assert_eq!(bitvec.read_bits(60, 8), 0b11111111u8 as u64);
    assert_eq!(bitvec.read_bits(0, 60), 0);
    assert_eq!(bitvec.read_bits(68, 60), 0);
}

#[test]
fn set_bits_when_no_width() {
    let mut bitvec = BitVec::new();
    bitvec.push_bits(0, 0);
    bitvec.set_bits(0..0, 0);
    assert_eq!(bitvec.len(), 0);
}

#[test]
fn set_bits_fails_when_value_does_not_fit_in_width() {
    let mut bitvec = BitVec::new();
    bitvec.push_bits(0, 8);
    bitvec.set_bits(0..4, 0b10101010);
    assert_eq!(bitvec.read_bits(0, 8), 0b00001010u8 as u64);
}

#[test]
fn default() {
    let bitvec = BitVec::default();
    assert_eq!(bitvec.len(), 0);
    assert_eq!(bitvec.raw_data().len(), 0);
}

#[test]
fn is_empty() {
    let mut bitvec = BitVec::new();
    assert!(bitvec.is_empty());

    bitvec.push(true);
    assert!(!bitvec.is_empty());
}

#[test]
fn raw_data() {
    let mut bitvec = BitVec::new();
    let dummy_data = 0b10101010u8;

    bitvec.push_bits(dummy_data as u64, 8);

    let raw_data = bitvec.raw_data();
    assert_eq!(raw_data.len(), 1);
    assert_eq!(raw_data[0], dummy_data as u64);
}

#[test]
fn heap_size_bits_bits() {
    let mut bitvec = BitVec::new();
    let width = 64;
    let dummy_data = u64::MAX;

    bitvec.push_bits(dummy_data, width);
    bitvec.push_bits(dummy_data, width);

    assert_eq!(bitvec.heap_size_in_bits(), width * 2);
    assert_eq!(bitvec.heap_size_in_bytes(), 16);
    assert_eq!(bitvec.heap_size_in_kib(), 1);
}

#[test]
fn mod_access() {
    let mut bitvec = BitVec::new();
    let dummy_data = 0b10101010u8;

    bitvec.push_bits(dummy_data as u64, 8);

    assert!(!bitvec.access(0).unwrap());
    assert!(bitvec.access(1).unwrap());
    assert!(!bitvec.access(2).unwrap());
    assert!(bitvec.access(3).unwrap());
    assert!(!bitvec.access(4).unwrap());
    assert!(bitvec.access(5).unwrap());
    assert!(!bitvec.access(6).unwrap());
    assert!(bitvec.access(7).unwrap());
    assert!(bitvec.access(8).is_none());
}

#[test]
fn from_value_clears_the_unused_bits() {
    let ones = BitVec::from_value(true, 70);
    assert_eq!(ones.len(), 70);
    assert_eq!(ones.raw_data(), &[u64::MAX, 0b111111]);
    assert_eq!(ones.rank(70), Some(70));
    let zeros = BitVec::from_value(false, 70);
    assert_eq!(zeros.rank(70), Some(0));
    assert_eq!(zeros.select0(70), Some(70));
    assert_eq!(zeros.select0(71), None);
}

#[test]
fn byte_pattern_rank_select() {
    let mut bitvec = BitVec::new();
    for _ in 0..8 {
        bitvec.push_bits(0b10101010, 8);
    }
    assert_eq!(bitvec.rank(64), Some(32));
    assert_eq!(bitvec.rank(65), None);
    assert_eq!(bitvec.select(1), Some(2));
    assert_eq!(bitvec.select0(1), Some(1));
    assert_eq!(bitvec.select(32), Some(64));
    assert_eq!(bitvec.select(33), None);
}

#[test]
fn zero_convention_on_empty() {
    let bitvec = BitVec::new();
    assert_eq!(bitvec.rank(0), Some(0));
    assert_eq!(bitvec.rank0(0), Some(0));
    assert_eq!(bitvec.select(0), Some(0));
    assert_eq!(bitvec.select0(0), Some(0));
    assert_eq!(bitvec.select(1), None);
    assert_eq!(bitvec.select0(1), None);
    assert_eq!(bitvec.rank(1), None);
}

#[test]
fn rank_access_and_select_agree_on_a_mixed_sequence() {
    let bitvec = BitVec::from_words(&[0x0123_4567_89ab_cdef, 0xfedc_ba98_7654_3210, 0b1011]);
    let n = bitvec.len();
    assert_eq!(n, 192);
    let mut ones = 0;
    for i in 0..n {
        assert_eq!(bitvec.rank(i), Some(ones));
        assert_eq!(bitvec.rank0(i), Some(i - ones));
        let bit = bitvec.access(i).unwrap();
        if bit {
            ones += 1;
            assert_eq!(bitvec.select(ones), Some(i + 1));
        } else {
            assert_eq!(bitvec.select0(i + 1 - ones), Some(i + 1));
        }
    }
    assert_eq!(bitvec.rank(n), Some(ones));
    assert_eq!(bitvec.select(ones + 1), None);
}

#[test]
fn from_bytes_reads_each_byte_from_its_lowest_bit() {
    let bitvec = BitVec::from_bytes(&[0b0000_0001, 0b1000_0000]);
    assert_eq!(bitvec.len(), 16);
    assert!(bitvec.read(0));
    assert!(!bitvec.read(1));
    assert!(bitvec.read(15));
    assert_eq!(bitvec.rank(16), Some(2));
}
