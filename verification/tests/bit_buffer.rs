use std::io::ErrorKind;
use succinct::stream::{BitBuffer, BitRead, BitWrite};
use succinct::{BitVec, IntVec, IntVector};

#[test]
fn reader() {
    let mut vec = IntVector::<usize>::new(1);
    vec.push(0);
    vec.push(1);
    vec.push(0);
    vec.push(0);
    vec.push(1);

    let mut reader = BitBuffer::from(vec);

    assert_eq!(Some(false), reader.read_bit().unwrap());
    assert_eq!(Some(true), reader.read_bit().unwrap());
    assert_eq!(Some(false), reader.read_bit().unwrap());
    assert_eq!(Some(false), reader.read_bit().unwrap());
    assert_eq!(Some(true), reader.read_bit().unwrap());
    assert_eq!(None, reader.read_bit().unwrap());
}

#[test]
fn writer() {
    let mut writer = BitBuffer::<usize>::new();

    writer.write_bit(true).unwrap();
    writer.write_bit(false).unwrap();
    writer.write_bit(false).unwrap();
    writer.write_bit(true).unwrap();
    writer.write_bit(true).unwrap();

    let mut vec = writer.into_inner();

    assert_eq!(Some(1), vec.pop());
    assert_eq!(Some(1), vec.pop());
    assert_eq!(Some(0), vec.pop());
    assert_eq!(Some(0), vec.pop());
    assert_eq!(Some(1), vec.pop());
    assert_eq!(None, vec.pop());
}

#[test]
fn seek_within_and_past_the_end() {
    let mut buffer = BitBuffer::<u8>::with_capacity(16);
    for _ in 0..3 {
        buffer.write_bit(true).unwrap();
    }
    assert_eq!(3, buffer.position());
    assert!(buffer.seek(1).is_ok());
    assert_eq!(1, buffer.position());
    assert!(buffer.seek(3).is_ok());
    let err = buffer.seek(4).unwrap_err();
    assert_eq!(ErrorKind::NotFound, err.kind());
    assert_eq!(3, buffer.position());
}

#[test]
fn overwrite_in_the_middle() {
    let mut vec = IntVector::<u16>::new(1);
    for _ in 0..4 {
        vec.push(0);
    }
    let mut buffer = BitBuffer::from(vec);
    buffer.seek(2).unwrap();
    buffer.write_bit(true).unwrap();
    assert_eq!(3, buffer.position());
    assert_eq!(4, buffer.bit_len());
    let vec = buffer.inner();
    assert_eq!(4, vec.len());
    assert_eq!(0, vec.get(1));
    assert_eq!(1, vec.get(2));
    assert_eq!(0, vec.get(3));
}

#[test]
fn append_grows_by_whole_elements() {
    let mut vec = IntVector::<u32>::new(3);
    vec.push(5);
    let mut buffer = BitBuffer::append(vec);
    assert_eq!(3, buffer.position());
    buffer.write_bit(true).unwrap();
    assert_eq!(4, buffer.position());
    assert_eq!(6, buffer.bit_len());
    let vec = buffer.into_inner();
    assert_eq!(2, vec.len());
    assert_eq!(5, vec.get(0));
    assert_eq!(1, vec.get(1));
}

#[test]
fn read_back_what_was_written() {
    let mut buffer = BitBuffer::<u64>::new();
    buffer.write_int(12, 0xABCu32).unwrap();
    buffer.seek(0).unwrap();
    assert_eq!(Some(0xABCu32), buffer.read_int(12).unwrap());
    assert_eq!(None, buffer.read_bit().unwrap());
    let copy = buffer.clone();
    assert_eq!(12, copy.position());
    assert_eq!(12, copy.inner().len());
}
