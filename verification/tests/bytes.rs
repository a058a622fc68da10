use dataflow::context::{ByteConvertible, TransmuteByteConvertible};

#[test]
fn u32_values_become_little_endian_bytes() {
    let bytes = <u32 as ByteConvertible>::to_bytes(&[0x1234_5678, 1]).unwrap();
    assert_eq!(bytes, vec![0x78, 0x56, 0x34, 0x12, 1, 0, 0, 0]);
}

#[test]
fn negative_i16_is_twos_complement() {
    let bytes = <i16 as ByteConvertible>::to_bytes(&[-2, i16::MIN]).unwrap();
    assert_eq!(bytes, vec![0xfe, 0xff, 0x00, 0x80]);
    assert_eq!(<i16 as ByteConvertible>::from_bytes(&bytes).unwrap(), vec![-2, i16::MIN]);
}

#[test]
fn every_integer_type_round_trips() {
    let v8: Vec<i8> = vec![i8::MIN, -1, 0, i8::MAX];
    assert_eq!(<i8 as ByteConvertible>::from_bytes(&<i8 as ByteConvertible>::to_bytes(&v8).unwrap()).unwrap(), v8);
    let v32: Vec<i32> = vec![i32::MIN, -1, 0, i32::MAX];
    assert_eq!(<i32 as ByteConvertible>::from_bytes(&<i32 as ByteConvertible>::to_bytes(&v32).unwrap()).unwrap(), v32);
    let v64: Vec<i64> = vec![i64::MIN, -7, i64::MAX];
    assert_eq!(<i64 as ByteConvertible>::from_bytes(&<i64 as ByteConvertible>::to_bytes(&v64).unwrap()).unwrap(), v64);
    let u64s: Vec<u64> = vec![0, u64::MAX, 0x0102_0304_0506_0708];
    assert_eq!(<u64 as ByteConvertible>::from_bytes(&<u64 as ByteConvertible>::to_bytes(&u64s).unwrap()).unwrap(), u64s);
    let u16s: Vec<u16> = vec![0, 0xabcd];
    assert_eq!(<u16 as ByteConvertible>::to_bytes(&u16s).unwrap(), vec![0, 0, 0xcd, 0xab]);
}

#[test]
fn usize_takes_its_machine_width() {
    assert_eq!(<usize as ByteConvertible>::size(), std::mem::size_of::<usize>());
    assert_eq!(<isize as ByteConvertible>::size(), std::mem::size_of::<isize>());
    let v: Vec<usize> = vec![0, 1, usize::MAX];
    let b = <usize as ByteConvertible>::to_bytes(&v).unwrap();
    assert_eq!(b.len(), 3 * std::mem::size_of::<usize>());
    assert_eq!(<usize as ByteConvertible>::from_bytes(&b).unwrap(), v);
    let w: Vec<isize> = vec![isize::MIN, -1, isize::MAX];
    let c = <isize as ByteConvertible>::to_bytes(&w).unwrap();
    assert_eq!(<isize as ByteConvertible>::from_bytes(&c).unwrap(), w);
}

#[test]
fn tuples_lay_their_fields_end_to_end() {
    let v: Vec<(u8, u16)> = vec![(1, 0x0302), (4, 0x0605)];
    let b = <(u8, u16) as ByteConvertible>::to_bytes(&v).unwrap();
    assert_eq!(b, vec![1, 2, 3, 4, 5, 6]);
    assert_eq!(<(u8, u16) as ByteConvertible>::from_bytes(&b).unwrap(), v);
    let t: Vec<(u8, i8, u16)> = vec![(1, -1, 2)];
    assert_eq!(<(u8, i8, u16) as ByteConvertible>::to_bytes(&t).unwrap(), vec![1, 0xff, 2, 0]);
    assert_eq!(<(u8, i8, u16) as ByteConvertible>::size(), 4);
}

#[test]
fn bytes_that_do_not_fill_a_value_are_refused() {
    assert!(<u32 as ByteConvertible>::from_bytes(&[1, 2, 3]).is_err());
    assert!(<u32 as ByteConvertible>::from_bytes(&[1, 2, 3, 4, 5]).is_err());
    assert_eq!(<u32 as ByteConvertible>::from_bytes(&[]).unwrap(), Vec::<u32>::new());
}

#[test]
fn raw_conversion_agrees_with_the_blanket_one() {
    let v: Vec<u32> = vec![7, 8];
    assert_eq!(
        <u32 as TransmuteByteConvertible>::to_bytes(&v).unwrap(),
        <u32 as ByteConvertible>::to_bytes(&v).unwrap()
    );
    assert_eq!(<u32 as TransmuteByteConvertible>::size(), 4);
}
