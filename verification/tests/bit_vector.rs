use succinct::bit_vec::{BitVec, BitVecMut, BitVecPush, BitVector};
use succinct::storage::BlockType;

fn binary<Block: BlockType>(bv: &BitVector<Block>) -> String {
    bv.iter().into_iter().map(|bit| if bit { '1' } else { '0' }).collect()
}

#[test]
fn bit_vector_new() {
    let bit_vector: BitVector = BitVector::new();
    assert_eq!(0, bit_vector.bit_len());
    assert_eq!(0, bit_vector.block_len());
}

#[test]
fn bit_vector_capacity() {
    let bit_vector: BitVector<u32> = BitVector::new();
    assert_eq!(0, bit_vector.capacity());

    let bit_vector: BitVector<u32> = BitVector::with_capacity(65);
    assert_eq!(96, bit_vector.capacity());
}

#[test]
fn bit_vector_push_binary() {
    let mut bit_vector: BitVector = BitVector::new();
    bit_vector.push_bit(true);
    bit_vector.push_bit(false);
    bit_vector.push_bit(false);
    assert_eq!("100", binary(&bit_vector));
}

#[test]
fn bit_vector_block_with_fill() {
    let bit_vector: BitVector<u8> = BitVector::block_with_fill(3, 0b101);
    assert_eq!(3, bit_vector.block_capacity());
    assert_eq!("101000001010000010100000", binary(&bit_vector));
}

#[test]
fn bit_vector_with_fill() {
    let bv0: BitVector = BitVector::with_fill(20, false);
    let bv1: BitVector = BitVector::with_fill(20, true);

    assert_eq!(false, bv0.get_bit(3));
    assert_eq!(true, bv1.get_bit(3));

    assert_eq!("00000000000000000000", binary(&bv0));
    assert_eq!("11111111111111111111", binary(&bv1));
}

#[test]
fn bit_vector_push_pop() {
    let mut bit_vector: BitVector = BitVector::new();
    bit_vector.push_bit(true);
    bit_vector.push_bit(false);
    bit_vector.push_bit(false);
    assert_eq!(Some(false), bit_vector.pop_bit());
    assert_eq!(Some(false), bit_vector.pop_bit());
    assert_eq!(Some(true), bit_vector.pop_bit());
    assert_eq!(None, bit_vector.pop_bit());
}

#[test]
fn bit_vector_push_get() {
    let mut bit_vector: BitVector = BitVector::new();
    bit_vector.push_bit(true);
    bit_vector.push_bit(false);
    bit_vector.push_bit(false);
    assert_eq!(3, bit_vector.bit_len());
    assert_eq!(1, bit_vector.block_len());
    assert_eq!(true, bit_vector.get_bit(0));
    assert_eq!(false, bit_vector.get_bit(1));
    assert_eq!(false, bit_vector.get_bit(2));
}

#[test]
#[should_panic]
fn bit_vector_get_oob() {
    let mut bit_vector: BitVector = BitVector::new();
    bit_vector.push_bit(true);
    bit_vector.get_bit(3);
}

#[test]
fn bit_vector_push_block() {
    let mut bit_vector: BitVector<u32> = BitVector::new();
    bit_vector.push_block(0);
    assert_eq!("00000000000000000000000000000000", binary(&bit_vector));
}

#[test]
fn bit_vector_push_bits_get_block() {
    let mut bit_vector: BitVector = BitVector::new();
    bit_vector.push_bit(true); // 1
    bit_vector.push_bit(true); // 2
    bit_vector.push_bit(false); // (4)
    bit_vector.push_bit(false); // (8)
    bit_vector.push_bit(true); // 16

    assert_eq!(19, bit_vector.get_block(0));
}

#[test]
fn bit_vector_push_block_get_block() {
    let mut bit_vector: BitVector = BitVector::new();
    bit_vector.push_block(358);
    bit_vector.push_block(!0);
    assert_eq!(358, bit_vector.get_block(0));
    assert_eq!(!0, bit_vector.get_block(1));
}

#[test]
#[should_panic]
fn bit_vector_get_block_oob() {
    let mut bit_vector: BitVector = BitVector::new();
    bit_vector.push_bit(true);
    bit_vector.get_block(3);
}

#[test]
fn bit_vector_push_block_get_bit() {
    let mut bit_vector: BitVector = BitVector::new();
    bit_vector.push_block(0b10101);
    assert_eq!(true, bit_vector.get_bit(0));
    assert_eq!(false, bit_vector.get_bit(1));
    assert_eq!(true, bit_vector.get_bit(2));
    assert_eq!(false, bit_vector.get_bit(3));
    assert_eq!(true, bit_vector.get_bit(4));
    assert_eq!(false, bit_vector.get_bit(5));
}

#[test]
fn bit_vector_push_block_set_get() {
    let mut bit_vector: BitVector = BitVector::new();
    bit_vector.push_block(0);
    bit_vector.set_bit(0, true);
    bit_vector.set_bit(1, true);
    bit_vector.set_bit(2, false);
    bit_vector.set_bit(3, true);
    bit_vector.set_bit(4, false);
    assert_eq!(true, bit_vector.get_bit(0));
    assert_eq!(true, bit_vector.get_bit(1));
    assert_eq!(false, bit_vector.get_bit(2));
    assert_eq!(true, bit_vector.get_bit(3));
    assert_eq!(false, bit_vector.get_bit(4));
}

#[test]
fn bit_vector_set_block_mask() {
    let mut bit_vector: BitVector = BitVector::new();

    bit_vector.push_bit(false);
    bit_vector.set_block(0, 0b11);
    assert_eq!(0b01, bit_vector.get_block(0));

    bit_vector.push_bit(false);
    bit_vector.set_block(0, 0b11);
    assert_eq!(0b11, bit_vector.get_block(0));
}

#[test]
fn bit_vector_resize() {
    let mut bit_vector: BitVector<u8> = BitVector::new();

    bit_vector.push_bit(true);
    bit_vector.push_bit(false);
    bit_vector.push_bit(true);
    assert_eq!("101", binary(&bit_vector));

    bit_vector.resize(21, false);
    assert_eq!("101000000000000000000", binary(&bit_vector));

    bit_vector.resize(22, false);
    assert_eq!("1010000000000000000000", binary(&bit_vector));

    bit_vector.resize(5, false);
    assert_eq!("10100", binary(&bit_vector));

    bit_vector.resize(21, true);
    assert_eq!("101001111111111111111", binary(&bit_vector));

    bit_vector.resize(4, true);
    assert_eq!("1010", binary(&bit_vector));

    bit_vector.push_block(0b11111111);
    assert_eq!("1010000011111111", binary(&bit_vector));
}

#[test]
fn bit_vector_block_resize() {
    let mut bit_vector: BitVector<u8> = BitVector::new();

    bit_vector.push_bit(true);
    bit_vector.push_bit(false);
    bit_vector.push_bit(true);
    assert_eq!("101", binary(&bit_vector));

    bit_vector.block_resize(1, 0);
    assert_eq!("10100000", binary(&bit_vector));

    bit_vector.block_resize(3, 0b01000101);
    assert_eq!("101000001010001010100010", binary(&bit_vector));

    bit_vector.block_resize(2, 0);
    assert_eq!("1010000010100010", binary(&bit_vector));
}

