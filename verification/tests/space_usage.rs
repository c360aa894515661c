use std::mem::size_of;
use succinct::SpaceUsage;

#[test]
fn is_stack_only() {
    assert!(u32::is_stack_only());
    assert!(isize::is_stack_only());
    assert!(!Vec::<u64>::is_stack_only());
    assert!(!Vec::<Vec<u64>>::is_stack_only());
    assert!(<(u32, u32, u32)>::is_stack_only());
    assert!(!<(u32, Vec<u32>, u32)>::is_stack_only());
}

#[test]
fn int_size() {
    assert_eq!(2, 0u16.total_bytes());
    assert_eq!(4, 0u32.total_bytes());
    assert_eq!(8, 0i64.total_bytes());
}

#[test]
fn tuple_size() {
    assert_eq!(8, (0u32, 0u32).total_bytes());
    // This isn't guaranteed to work, but it does for now:
    assert_eq!(12, (0u32, 0u8, 0u32).total_bytes());
}

#[test]
fn vec_size() {
    let v = Vec::<u64>::with_capacity(8);
    assert_eq!(8, v.capacity());
    assert_eq!(64, v.heap_bytes());
    assert_eq!(64 + size_of::<Vec<u64>>(), v.total_bytes());
}

#[test]
fn vec_vec_size() {
    let v1 = Vec::<u64>::with_capacity(8);
    let v2 = Vec::<u64>::with_capacity(8);
    let w = vec![v1, v2];
    assert_eq!(2, w.capacity());
    assert_eq!(
        128 + 2 * size_of::<Vec<u64>>() + size_of::<Vec<Vec<u64>>>(),
        w.total_bytes()
    );
}

#[test]
fn box_size() {
    let b = Box::new(0u64);
    assert_eq!(8, b.heap_bytes());
    assert_eq!(size_of::<Box<u64>>() + 8, b.total_bytes());
}

#[test]
fn heap_bytes_cover_the_contents() {
    let v: Vec<u32> = vec![1, 2, 3];
    assert!(v.heap_bytes() >= 12);
    let nested: Vec<Vec<u16>> = vec![vec![1, 2], vec![3]];
    assert!(nested.heap_bytes() >= 2 * size_of::<Vec<u16>>() + 6);
    let pair = (vec![0u8; 5], vec![0u64; 2]);
    assert!(pair.heap_bytes() >= 5 + 16);
    assert_eq!(0, (1u8, 2u64).heap_bytes());
}
