use succinct::{BitVec, BitVecMut, IntVec, IntVecMut, IntVector};

#[test]
fn int_vector_create_empty() {
    let v: IntVector = IntVector::new(4);
    assert!(v.is_empty());
}

#[test]
fn block_sized() {
    let mut v = IntVector::<u32>::with_fill(32, 10, 0);
    assert_eq!(10, v.len());

    assert_eq!(0, v.get(0));
    assert_eq!(0, v.get(9));

    v.set(0, 89);
    assert_eq!(89, v.get(0));
    assert_eq!(0, v.get(1));

    v.set(0, 56);
    v.set(1, 34);
    assert_eq!(56, v.get(0));
    assert_eq!(34, v.get(1));
    assert_eq!(0, v.get(2));

    v.set(9, 12);
    assert_eq!(12, v.get(9));
}

#[test]
#[should_panic]
fn block_sized_oob() {
    let v = IntVector::<u32>::with_fill(32, 10, 0);
    assert_eq!(0, v.get(10));
}

#[test]
fn int_vector_aligned() {
    let mut v = IntVector::<u32>::with_fill(4, 20, 0);
    assert_eq!(20, v.len());

    assert_eq!(0, v.get(0));
    assert_eq!(0, v.get(9));

    v.set(0, 13);
    assert_eq!(13, v.get(0));
    assert_eq!(0, v.get(1));

    v.set(1, 15);
    assert_eq!(13, v.get(0));
    assert_eq!(15, v.get(1));
    assert_eq!(0, v.get(2));

    v.set(1, 4);
    v.set(19, 9);
    assert_eq!(13, v.get(0));
    assert_eq!(4, v.get(1));
    assert_eq!(0, v.get(2));
    assert_eq!(9, v.get(19));
}

#[test]
#[should_panic]
fn int_vector_aligned_oob() {
    let v = IntVector::<u32>::with_fill(4, 20, 0);
    assert_eq!(0, v.get(20));
}

#[test]
fn int_vector_unaligned() {
    let mut v = IntVector::<u32>::with_fill(5, 20, 0);
    assert_eq!(20, v.len());

    assert_eq!(0, v.get(0));
    assert_eq!(0, v.get(9));

    v.set(0, 13);
    assert_eq!(13, v.get(0));
    assert_eq!(0, v.get(1));

    v.set(1, 15);
    assert_eq!(13, v.get(0));
    assert_eq!(15, v.get(1));
    assert_eq!(0, v.get(2));

    v.set(1, 4);
    v.set(19, 9);
    assert_eq!(13, v.get(0));
    assert_eq!(4, v.get(1));
    assert_eq!(0, v.get(2));
    assert_eq!(9, v.get(19));
}

#[test]
#[should_panic]
fn int_vector_unaligned_oob() {
    let v = IntVector::<u32>::with_fill(5, 20, 0);
    assert_eq!(0, v.get(20));
}

#[test]
fn int_vector_pop() {
    let mut v = IntVector::<u32>::new(7);
    assert_eq!(None, v.pop());
    v.push(1);
    v.push(2);
    v.push(3);
    assert_eq!(Some(3), v.pop());
    v.push(4);
    v.push(5);
    assert_eq!(Some(5), v.pop());
    assert_eq!(Some(4), v.pop());
    assert_eq!(Some(2), v.pop());
    assert_eq!(Some(1), v.pop());
    assert_eq!(None, v.pop());
}

#[test]
fn int_vector_iter() {
    let mut v = IntVector::<u16>::new(13);
    v.push(1);
    v.push(1);
    v.push(2);
    v.push(3);
    v.push(5);

    assert_eq!(vec![1, 1, 2, 3, 5], v.iter());
}

#[test]
#[should_panic]
fn int_vector_value_overflow() {
    let mut v = IntVector::<u32>::new(3);
    v.push(78); // 78 is too big
}

#[test]
fn bit_vec() {
    let mut v = IntVector::<u32>::new(1);
    v.push(1);
    v.push(0);
    v.push(0);
    v.push(1);

    assert!(v.get_bit(0));
    assert!(!v.get_bit(1));
    assert!(!v.get_bit(2));
    assert!(v.get_bit(3));

    v.set_bit(1, true);

    assert!(v.get_bit(0));
    assert!(v.get_bit(1));
    assert!(!v.get_bit(2));
    assert!(v.get_bit(3));
}

#[test]
fn push_pop_equals() {
    let mut v = IntVector::<u32>::new(5);
    let mut u = IntVector::<u32>::new(5);

    v.push(5);
    u.push(5);
    assert!(v == u);

    v.push(6);
    u.push(7);
    assert!(v != u);

    v.pop();
    u.pop();
    assert!(v == u);
}

#[test]
fn block_size_elements_u16() {
    let mut v = IntVector::<u16>::new(16);
    v.push(0);
    v.push(!0);
    assert_eq!(Some(!0), v.pop());
    assert_eq!(Some(0), v.pop());
    assert_eq!(None, v.pop());
}

#[test]
fn block_size_elements_u64() {
    let mut v = IntVector::<u64>::new(64);
    v.push(0);
    v.push(!0);
    assert_eq!(Some(!0), v.pop());
    assert_eq!(Some(0), v.pop());
    assert_eq!(None, v.pop());
}

#[test]
fn int_vector_resize_truncate_and_shape() {
    let mut v = IntVector::<u8>::new(3);
    v.resize(5, 6);
    assert_eq!(vec![6, 6, 6, 6, 6], v.iter());
    v.truncate(2);
    assert_eq!(vec![6, 6], v.iter());
    assert!(!v.is_block_sized());
    assert!(!v.is_aligned());
    assert_eq!(3, v.element_bits());
    assert_eq!(6, v.bit_len());
    let w = IntVector::<u8>::new(4);
    assert!(w.is_aligned());
    let c = v.clone();
    assert!(c == v);
    v.clear();
    assert!(v.is_empty());
}

#[test]
fn int_vector_random_access() {
    let mut v = IntVector::<u32>::with_fill(8, 4, 0);
    v.set_random(4, 4, 1, 0xA);
    assert_eq!(0xA, v.get_random(4, 4, 1));
    assert_eq!(0xA, v.get(1));
    assert_eq!(0, v.get(0));
}

#[test]
fn int_vector_reserve_capacity() {
    let mut v = IntVector::<u8>::new(8);
    v.reserve(10);
    assert!(v.capacity() >= 10);
    assert_eq!(0, v.len());
    v.push(3);
    v.reserve_exact(5);
    assert!(v.capacity() >= 6);
    assert_eq!(3, v.get(0));
}

#[test]
fn int_vector_block_with_fill() {
    let v = IntVector::<u8>::block_with_fill(5, 3, 0b01010101);
    assert_eq!(4, v.len());
    assert_eq!(3, v.block_len());
    assert_eq!(21, v.get(0));
    assert_eq!(10, v.get(1));
    assert_eq!(21, v.get(2));
    assert_eq!(10, v.get(3));
}
