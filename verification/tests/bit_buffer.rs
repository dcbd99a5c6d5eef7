use shannon_fano::bits::BitVector;

fn bits_of(v: &BitVector) -> Vec<bool> {
    let mut out = Vec::new();
    let mut i = 0;
    while let Some(b) = v.get_bit(i) {
        out.push(b);
        i += 1;
    }
    out
}

#[test]
fn add_bits_and_read_back() {
    let mut v = BitVector::with_capacity(4);
    v.add_one();
    v.add_zero();
    v.add_one();
    v.add_one();
    assert_eq!(v.bit_size(), 4);
    assert_eq!(bits_of(&v), vec![true, false, true, true]);
    assert_eq!(v.get_bit(4), None);
    assert_eq!(v.get_bytes(), &vec![0b1011_0000u8]);
}

#[test]
fn append_byte_unaligned_splits_across_bytes() {
    let mut v = BitVector::with_capacity(4);
    v.add_one();
    v.add_zero();
    v.add_one();
    v.append_byte(0xC5);
    assert_eq!(v.bit_size(), 11);
    // 101 then 11000101, packed MSB first: 1011_1000 101x_xxxx
    assert_eq!(v.get_bytes(), &vec![0b1011_1000u8, 0b1010_0000u8]);
}

#[test]
fn append_joins_significant_bits_only() {
    // The append invariant: sizes add, the first buffer's bits stay in
    // place, and the second buffer's bits follow, its padding excluded.
    let mut x = BitVector::with_capacity(4);
    x.add_one();
    x.add_zero();
    x.add_one();
    x.add_one();
    x.add_zero();
    let mut y = BitVector::with_capacity(4);
    y.append_byte(0x0F);
    y.add_one();
    y.add_one();
    y.add_zero();
    let xs = bits_of(&x);
    let ys = bits_of(&y);
    let mut joined = x.duplicate();
    joined.append(&y);
    assert_eq!(joined.bit_size(), x.bit_size() + y.bit_size());
    let js = bits_of(&joined);
    assert_eq!(&js[..xs.len()], &xs[..]);
    assert_eq!(&js[xs.len()..], &ys[..]);
}

#[test]
fn get_byte_at_unaligned_offset() {
    let mut v = BitVector::with_capacity(4);
    v.add_zero();
    v.add_one();
    v.append_byte(0b1100_1010);
    // bits: 01 11001010; the byte starting at offset 2 is the appended one
    assert_eq!(v.get_byte(2), 0b1100_1010);
    assert_eq!(v.get_byte(0), 0b0111_0010);
}

#[test]
fn from_vec_excludes_redundant_bits() {
    let v = BitVector::from_vec(&[0b1010_0000u8], 5);
    assert_eq!(v.bit_size(), 3);
    assert_eq!(bits_of(&v), vec![true, false, true]);
}

#[test]
fn from_last_byte_carries_the_tail() {
    let mut v = BitVector::with_capacity(4);
    v.append_byte(0xAB);
    v.add_one();
    v.add_zero();
    v.add_one();
    let tail = BitVector::from_last_byte(&v);
    assert_eq!(tail.bit_size(), 3);
    assert_eq!(bits_of(&tail), vec![true, false, true]);
    // an aligned buffer carries its whole final byte
    let mut w = BitVector::with_capacity(4);
    w.append_byte(0x5C);
    let tail2 = BitVector::from_last_byte(&w);
    assert_eq!(tail2.bit_size(), 8);
    assert_eq!(tail2.get_bytes(), &vec![0x5Cu8]);
}

#[test]
fn get_bytes_but_last_holds_back_one_byte() {
    let mut v = BitVector::with_capacity(4);
    v.append_byte(0x12);
    v.append_byte(0x34);
    v.add_one();
    assert_eq!(v.get_bytes_but_last(), vec![0x12u8, 0x34u8]);
}

#[test]
fn shrink_keeps_every_significant_bit() {
    let mut v = BitVector::with_capacity(4);
    v.add_one();
    v.add_zero();
    let before = bits_of(&v);
    v.shrink();
    assert_eq!(v.bit_size(), 2);
    assert_eq!(bits_of(&v), before);
}

#[test]
fn byte_index_is_bit_offset_over_eight() {
    assert_eq!(BitVector::byte_index(0), 0);
    assert_eq!(BitVector::byte_index(7), 0);
    assert_eq!(BitVector::byte_index(8), 1);
    assert_eq!(BitVector::byte_index(17), 2);
}

#[test]
fn iterator_walks_all_bits_once() {
    let mut v = BitVector::with_capacity(4);
    v.add_one();
    v.add_zero();
    v.add_one();
    let mut it = v.iter();
    assert_eq!(it.next(), Some(true));
    assert_eq!(it.next(), Some(false));
    assert_eq!(it.next(), Some(true));
    assert_eq!(it.next(), None);
}
