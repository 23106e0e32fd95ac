use faex::bitvec::BitVec;
use faex::compact_int_vec::CompactIntVec;
use faex::util::BitsRequired;

#[test]
fn push_get_set_pop() {
    let mut v = CompactIntVec::new(5);
    for x in [3u64, 31, 0, 17] {
        v.push(x);
    }
    assert_eq!(v.len(), 4);
    assert_eq!(v.width(), 5);
    assert_eq!(v.get(1), Some(31));
    assert_eq!(v.get(4), None);
    v.set(1, 9);
    assert_eq!(v.get(1), Some(9));
    assert_eq!(v.pop(), Some(17));
    assert_eq!(v.len(), 3);
    assert_eq!(v.raw_data().len(), 15);
}

#[test]
fn width_zero_holds_zeros() {
    let mut v = CompactIntVec::new(0);
    v.push(0);
    v.push(0);
    assert_eq!(v.len(), 2);
    assert_eq!(v.get(1), Some(0));
    assert_eq!(v.capacity(), usize::MAX);
}

#[test]
fn from_raw_parts_pads_the_last_integer() {
    let bv = BitVec::from_bools(&[true, true, false, true, true]);
    let v = CompactIntVec::from_raw_parts(bv, 3);
    assert_eq!(v.len(), 2);
    assert_eq!(v.get(0), Some(0b011));
    assert_eq!(v.get(1), Some(0b011));
    assert_eq!(v.raw_data().len(), 6);
}

#[test]
fn values_across_word_boundaries() {
    let mut v = CompactIntVec::with_capacity(60, 4);
    let values = [u64::MAX >> 4, 1, 0xABCDEF, 0x0FFF_FFFF_FFFF_FFFF];
    for x in values {
        v.push(x);
    }
    let mut it = v.iter();
    for x in values {
        assert_eq!(it.next(), Some(x));
    }
    assert_eq!(it.next(), None);
}

#[test]
fn bits_required_counts_the_bit_length() {
    assert_eq!(0u64.bits_required(), 0);
    assert_eq!(1u64.bits_required(), 1);
    assert_eq!(2u64.bits_required(), 2);
    assert_eq!(3u64.bits_required(), 2);
    assert_eq!(192usize.bits_required(), 8);
    assert_eq!(u64::MAX.bits_required(), 64);
}

#[test]
fn from_values_infers_the_width() {
    let v = CompactIntVec::from_values(&[5, 0, 12, 3]);
    assert_eq!(v.width(), 4);
    assert_eq!(v.len(), 4);
    assert_eq!(v.get(2), Some(12));
    assert_eq!(v.get(4), None);
    let zeros = CompactIntVec::from_values(&[0, 0]);
    assert_eq!(zeros.width(), 0);
    assert_eq!(zeros.get(1), Some(0));
}
