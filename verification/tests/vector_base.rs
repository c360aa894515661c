use succinct::internal::vector_base::VectorBase;

type VB = VectorBase<u8>;


#[test]
fn vector_base_new() {
    let v = VB::new();
    assert_eq!(0, v.len());
    assert_eq!(0, v.block_len());
    assert_eq!(0, v.capacity(5));
    assert_eq!(0, v.block_capacity());
}

#[test]
fn block_with_capacity() {
    let v = VB::block_with_capacity(7);
    assert_eq!(0, v.len());
    assert_eq!(0, v.block_len());
    assert_eq!(7, v.capacity(8));
    assert_eq!(14, v.capacity(4));
    assert_eq!(11, v.capacity(5));
    assert_eq!(7, v.block_capacity());
}

#[test]
fn with_capacity() {
    let v = VB::with_capacity(5, 5);
    assert_eq!(0, v.len());
    assert_eq!(0, v.block_len());
    assert_eq!(6, v.capacity(5));
    assert_eq!(32, v.capacity(1));
    assert_eq!(4, v.block_capacity());
}

#[test]
fn vector_base_block_with_fill() {
    let v = VB::block_with_fill(5, 3, 0b01010101);
    assert_eq!(3, v.block_len());
    assert_eq!(4, v.len());
    assert_eq!(3, v.block_capacity());
    assert_eq!(4, v.capacity(5));

    assert_eq!(true, v.get_bit(0));
    assert_eq!(false, v.get_bit(1));
    assert_eq!(true, v.get_bit(2));
    assert_eq!(false, v.get_bit(3));

    assert_eq!(0b01010101, v.get_block(0));
    assert_eq!(0b01010101, v.get_block(1));
    assert_eq!(0b00000101, v.get_block(2));

    assert_eq!(0b10101, v.get_bits(5, 0, 5));
    assert_eq!(0b01010, v.get_bits(5, 1, 5));
    assert_eq!(0b10101, v.get_bits(5, 2, 5));
    assert_eq!(0b01010, v.get_bits(5, 3, 5));
    assert_eq!(0b10101, v.get_bits(5, 4, 5));
    assert_eq!(0b01010, v.get_bits(5, 5, 5));
}

#[test]
fn block_with_fill_7() {
    let v = VB::block_with_fill(7, 3, 0b01010101);
    assert_eq!(0b01010101, v.get_block(0));
    assert_eq!(0b01010101, v.get_block(1));
    assert_eq!(0b00010101, v.get_block(2));
}

#[test]
fn vector_base_with_fill() {
    let mut v = VB::with_fill(5, 5, 0b10110);
    assert_eq!(5, v.len());
    assert_eq!(4, v.block_len());
    for _ in 0 .. 5 {
        assert_eq!(Some(0b10110), v.pop_bits(5));
    }
    assert_eq!(0, v.len());
}

#[test]
fn set_block_5() {
    let mut v = VB::block_with_fill(5, 3, 0b01010101);
    assert_eq!(0b01010101, v.get_block(0));
    assert_eq!(0b01010101, v.get_block(1));
    assert_eq!(0b00000101, v.get_block(2));

    v.set_block(5, 2, 0b11111111);
    assert_eq!(0b00001111, v.get_block(2));
}

#[test]
fn vector_base_get_bits() {
    let v = VB::block_with_fill(5, 5, 0b01010101);
    assert_eq!(0b10101, v.get_bits(5, 0, 5));
    assert_eq!(0b101, v.get_bits(5, 0, 3));
    assert_eq!(0b010101, v.get_bits(5, 6, 6));
}

#[test]
fn vector_base_set_bits() {
    let mut v = VB::block_with_fill(5, 10, 0);
    assert_eq!(0, v.get_bits(5,  0, 5));
    assert_eq!(0, v.get_bits(5,  5, 5));
    assert_eq!(0, v.get_bits(5, 10, 5));

    v.set_bits(5,  0, 5, 17);
    v.set_bits(5,  5, 5,  2);
    v.set_bits(5, 10, 5,  8);

    assert_eq!(17, v.get_bits(5, 0, 5));
    assert_eq!( 2, v.get_bits(5, 5, 5));
    assert_eq!( 8, v.get_bits(5, 10, 5));
}

#[test]
fn vector_base_set_bit() {
    let mut v = VB::block_with_fill(1, 2, 0);
    assert_eq!(16, v.len());

    assert_eq!(false, v.get_bit(0));
    assert_eq!(false, v.get_bit(1));
    assert_eq!(false, v.get_bit(2));
    assert_eq!(false, v.get_bit(3));
    assert_eq!(false, v.get_bit(4));
    assert_eq!(false, v.get_bit(5));

    v.set_bit(1, true);
    v.set_bit(2, true);
    v.set_bit(5, true);

    assert_eq!(false, v.get_bit(0));
    assert_eq!(true, v.get_bit(1));
    assert_eq!(true, v.get_bit(2));
    assert_eq!(false, v.get_bit(3));
    assert_eq!(false, v.get_bit(4));
    assert_eq!(true, v.get_bit(5));
}

#[test]
fn vector_base_push_block() {
    let mut v = VB::new();
    v.push_block(6, 0b11111111);
    assert_eq!(0b00111111, v.get_block(0));
    assert_eq!(1, v.len());

    v.push_block(6, 0b11111111);
    assert_eq!(0b00001111, v.get_block(1));
    assert_eq!(2, v.len());

    v.push_block(6, 0b11111111);
    assert_eq!(0b11111111, v.get_block(2));
    assert_eq!(4, v.len());
}

#[test]
fn pop_block_after_push() {
    let mut v = VB::new();
    v.push_block(6, 0b11111111);
    v.push_block(6, 0b11111111);
    v.push_block(6, 0b11111111);
    assert_eq!(Some(0b11111111), v.pop_block(6));
    assert_eq!(Some(0b00001111), v.pop_block(6));
    assert_eq!(Some(0b00111111), v.pop_block(6));
    assert_eq!(None, v.pop_block(6));
}

#[test]
fn pop_block_after_fill() {
    let mut v = VB::block_with_fill(6, 3, 0b11111111);
    assert_eq!(0b11111111, v.get_block(0));
    assert_eq!(0b11111111, v.get_block(1));
    assert_eq!(0b11111111, v.get_block(2));
    assert_eq!(Some(0b11111111), v.pop_block(6));
    assert_eq!(Some(0b00001111), v.pop_block(6));
    assert_eq!(Some(0b00111111), v.pop_block(6));
    assert_eq!(None, v.pop_block(6));
}

#[test]
fn push_bits() {
    let mut v = VB::new();
    v.push_bits(6, 0b100110);
    v.push_bits(6, 0b010100);
    v.push_bits(6, 0b001111);

    assert_eq!(0b00100110, v.get_block(0));
    assert_eq!(0b11110101, v.get_block(1));
    assert_eq!(0b00000000, v.get_block(2));
}

#[test]
fn pop_bits() {
    let mut v = VB::new();
    v.push_bits(6, 0b100110);
    v.push_bits(6, 0b010100);
    v.push_bits(6, 0b001111);

    assert_eq!(Some(0b001111), v.pop_bits(6));
    assert_eq!(0b00000101, v.get_block(1));
    assert_eq!(Some(0b010100), v.pop_bits(6));
    assert_eq!(0b00100110, v.get_block(0));
    assert_eq!(Some(0b100110), v.pop_bits(6));
    assert_eq!(None, v.pop_bits(6));
}

#[test]
fn push_bit() {
    let mut v = VB::new();

    v.push_bit(false);
    v.push_bit(false);
    v.push_bit(true);
    assert_eq!(3, v.len());
    assert_eq!(1, v.block_len());
    v.push_bit(false);
    v.push_bit(true);
    v.push_bit(true);
    assert_eq!(0b00110100, v.get_block(0));

    v.push_bit(true);
    v.push_bit(false);
    assert_eq!(8, v.len());
    assert_eq!(1, v.block_len());
    v.push_bit(true);
    assert_eq!(9, v.len());
    assert_eq!(2, v.block_len());
    assert_eq!(0b01110100, v.get_block(0));
    assert_eq!(0b00000001, v.get_block(1));
}

#[test]
fn pop_bit() {
    let mut v = VB::block_with_fill(1, 2, 0b01010101);

    assert_eq!(2, v.block_len());
    assert_eq!(16, v.len());

    for _ in 0 .. 8 {
        assert_eq!(Some(false), v.pop_bit());
        assert_eq!(Some(true), v.pop_bit());
    }

    assert_eq!(None, v.pop_bit());

    assert_eq!(0, v.block_len());
    assert_eq!(0, v.len());
}

#[test]
fn block_truncate() {
    let mut v = VB::new();
    v.push_bits(5, 17);
    v.push_bits(5, 30);
    v.push_bits(5, 4);
    assert_eq!(3, v.len());
    assert_eq!(2, v.block_len());

    v.block_truncate(5, 1);
    assert_eq!(1, v.len());
    assert_eq!(1, v.block_len());
    assert_eq!(Some(17), v.pop_bits(5));
}

#[test]
fn truncate() {
    let mut v = VB::new();
    v.push_bits(5, 0b10001);
    v.push_bits(5, 0b11110);
    v.push_bits(5, 0b00100);

    v.truncate(5, 2);
    assert_eq!(2, v.len());
    assert_eq!(2, v.block_len());
    assert_eq!(0b10001, v.get_bits(5, 0, 5));
    assert_eq!(0b11110, v.get_bits(5, 5, 5));
    assert_eq!(0b11010001, v.get_block(0));
    assert_eq!(0b00000011, v.get_block(1));

    v.truncate(5, 1);
    assert_eq!(1, v.len());
    assert_eq!(1, v.block_len());
    assert_eq!(0b10001, v.get_bits(5, 0, 5));
    assert_eq!(0b00010001, v.get_block(0));

    v.truncate(5, 2);
}

#[test]
fn shrink_to_fit() {
    let mut v = VB::new();
    for i in 0 .. 5 {
        v.push_bits(5, i);
    }
    v.shrink_to_fit();
    assert_eq!(4, v.block_capacity());
}

#[test]
fn vector_base_block_resize() {
    let mut v = VB::new();
    v.push_bits(5, 0b11010);
    v.block_resize(5, 3, 0b11111111);
    assert_eq!(0b11010, v.get_bits(5, 0, 5));
    assert_eq!(0b11000, v.get_bits(5, 5, 5));
    assert_eq!(0b11111, v.get_bits(5, 10, 5));

    v.block_resize(5, 1, 0b11111111);
    assert_eq!(1, v.block_len());
    assert_eq!(1, v.len());
    assert_eq!(0b00011010, v.get_block(0));
}

#[test]
fn vector_base_resize() {
    let mut v = VB::new();
    v.push_bits(5, 0b11010);
    assert_eq!(1, v.len());
    assert_eq!(0b00011010, v.get_block(0));

    v.resize(5, 3, 0b01010);
    assert_eq!(3, v.len());
    assert_eq!(0b11010, v.get_bits(5, 0, 5));
    assert_eq!(0b01010, v.get_bits(5, 5, 5));
    assert_eq!(0b01010, v.get_bits(5, 10, 5));
    assert_eq!(0b01011010, v.get_block(0));
    assert_eq!(0b00101001, v.get_block(1));

    v.resize(5, 1, 0b01010);
    assert_eq!(1, v.block_len());
    assert_eq!(1, v.len());
    assert_eq!(0b00011010, v.get_block(0));
}

#[test]
#[should_panic]
fn with_capacity_overflow() {
    VB::with_capacity(5, !0);
}

#[test]
#[should_panic]
fn vector_base_get_block_oob() {
    let v = VB::new();
    v.get_block(0);
}

#[test]
#[should_panic]
fn set_block_oob() {
    let mut v = VB::block_with_fill(5, 2, 0);
    v.set_block(5, 2, 0);
}

#[test]
#[should_panic]
fn get_bits_oob1() {
    let mut v = VB::new();
    v.push_bits(5, 0);
    v.get_bits(5, 5, 5);
}

#[test]
#[should_panic]
fn get_bits_oob2() {
    let v = VB::with_fill(5, 2, 0);
    v.get_bits(5, 6, 5);
}

#[test]
#[should_panic]
fn set_bits_oob() {
    let mut v = VB::with_fill(5, 2, 0);
    v.set_bits(5, 10, 5, 0);
}

#[test]
#[should_panic]
fn get_bit_oob() {
    let v = VB::with_fill(1, 6, 0);
    v.get_bit(6);
}

#[test]
#[should_panic]
fn set_bit_oob() {
    let mut v = VB::with_fill(1, 5, 0);
    v.set_bit(6, true);
}

#[test]
#[should_panic]
fn reserve_overflow() {
    let mut v = VB::new();
    v.reserve(5, !0)
}


#[test]
fn reserve_exact_makes_room_past_the_length() {
    let mut v = VB::block_with_capacity(2);
    v.push_bits(8, 1);
    v.reserve_exact(8, 3);
    assert!(v.capacity(8) >= 4);
    assert_eq!(1, v.len());
    assert_eq!(1, v.get_bits(8, 0, 8));
}

#[test]
fn reserve_makes_room_past_the_length() {
    let mut v = VB::new();
    v.reserve(8, 10);
    assert!(v.capacity(8) >= 10);
    assert_eq!(0, v.len());
}
