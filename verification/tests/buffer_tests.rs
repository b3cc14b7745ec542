use me3_coalesced_parser::bits::{bit_to_bytes, get_bit, BitAccumulator};
use me3_coalesced_parser::de::ReadBuffer;
use me3_coalesced_parser::error::{decimal_string, DecodeError};
use me3_coalesced_parser::ser::WriteBuffer;
use me3_coalesced_parser::{UnknownValueType, ValueType};

#[test]
fn read_buffer_reads_little_endian() {
    let bytes = [0x78, 0x56, 0x34, 0x12, 0xFE, 0xFF, 0xFF, 0xFF, 0x34, 0x12, 9];
    let mut r = ReadBuffer::new(&bytes);
    assert_eq!(r.remaining(), 11);
    assert_eq!(r.read_u32(), Ok(0x12345678));
    assert_eq!(r.read_i32(), Ok(-2));
    assert_eq!(r.read_u16(), Ok(0x1234));
    assert_eq!(r.remaining(), 1);
    assert_eq!(r.read_bytes(1), Ok(&[9u8][..]));
    assert_eq!(r.remaining(), 0);
    assert_eq!(r.read_bytes(0), Ok(&[][..]));
}

#[test]
fn read_buffer_reports_where_it_ran_out() {
    let bytes = [1u8, 2, 3, 4, 5];
    let mut r = ReadBuffer::new(&bytes);
    assert_eq!(r.read_u16(), Ok(0x0201));
    assert_eq!(
        r.read_u32(),
        Err(DecodeError::UnexpectedEof { cursor: 2, wanted: 4, remaining: 3 })
    );
    // A failed read leaves the cursor where it was.
    assert_eq!(r.remaining(), 3);
    assert_eq!(
        r.read_bytes(usize::MAX),
        Err(DecodeError::UnexpectedEof { cursor: 2, wanted: usize::MAX, remaining: 3 })
    );
    assert_eq!(r.read_fixed::<3>(), Ok([3, 4, 5]));
    assert_eq!(
        r.read_u16(),
        Err(DecodeError::UnexpectedEof { cursor: 5, wanted: 2, remaining: 0 })
    );
    assert_eq!(
        r.read_i32(),
        Err(DecodeError::UnexpectedEof { cursor: 5, wanted: 4, remaining: 0 })
    );
}

#[test]
fn read_buffer_seek_rejects_the_end() {
    let bytes = [1u8, 2, 3, 4];
    let mut r = ReadBuffer::new(&bytes);
    assert_eq!(r.seek(3), Ok(()));
    assert_eq!(r.remaining(), 1);
    assert_eq!(
        r.seek(4),
        Err(DecodeError::UnexpectedEof { cursor: 3, wanted: 4, remaining: 1 })
    );
    assert_eq!(r.remaining(), 1);
    assert_eq!(r.seek(0), Ok(()));
    assert_eq!(r.read_u32(), Ok(0x04030201));
    let mut empty = ReadBuffer::new(&[]);
    assert_eq!(
        empty.seek(0),
        Err(DecodeError::UnexpectedEof { cursor: 0, wanted: 0, remaining: 0 })
    );
}

#[test]
fn read_buffer_take_slice_is_an_independent_view() {
    let bytes = [1u8, 2, 3, 4, 5, 6];
    let mut r = ReadBuffer::new(&bytes);
    assert_eq!(r.read_bytes(1), Ok(&[1u8][..]));
    let mut block = r.take_slice(3).unwrap();
    assert_eq!(r.remaining(), 2);
    assert_eq!(block.remaining(), 3);
    assert_eq!(block.read_u16(), Ok(0x0302));
    assert_eq!(
        block.read_u16(),
        Err(DecodeError::UnexpectedEof { cursor: 2, wanted: 2, remaining: 1 })
    );
    assert_eq!(r.read_u16(), Ok(0x0605));
    assert!(matches!(
        r.take_slice(1),
        Err(DecodeError::UnexpectedEof { cursor: 6, wanted: 1, remaining: 0 })
    ));
}

#[test]
fn write_buffer_appends() {
    let mut w = WriteBuffer::new();
    w.write_u32(0x12345678);
    w.write_u16(0xABCD);
    w.write_i32(-2);
    w.write_slice(b"xy");
    assert_eq!(w.cursor, 12);
    assert_eq!(w.length, 12);
    assert_eq!(
        w.into_vec(),
        vec![0x78, 0x56, 0x34, 0x12, 0xCD, 0xAB, 0xFE, 0xFF, 0xFF, 0xFF, b'x', b'y']
    );
}

#[test]
fn write_buffer_seeks_and_fills_with_zeros() {
    let mut w = WriteBuffer::new();
    w.seek(4);
    w.write_u16(0x0102);
    assert_eq!(w.length, 6);
    w.seek(1);
    w.write_slice(&[9]);
    assert_eq!(w.cursor, 2);
    assert_eq!(w.length, 6);
    // A seek past the end does not write anything by itself.
    w.seek(100);
    assert_eq!(w.length, 6);
    assert_eq!(w.into_vec(), vec![0, 9, 0, 0, 2, 1]);
}

#[test]
fn write_buffer_overwrites_in_place() {
    let mut w = WriteBuffer::new();
    w.write_slice(&[1, 2, 3, 4, 5]);
    w.seek(1);
    w.write_u16(0xBBAA);
    assert_eq!(w.cursor, 3);
    assert_eq!(w.length, 5);
    assert_eq!(w.into_vec(), vec![1, 0xAA, 0xBB, 4, 5]);
}

#[test]
fn write_buffer_slice_for_writing() {
    let mut w = WriteBuffer::new();
    w.write_slice(&[1, 2]);
    {
        let slice = w.get_slice_mut(3);
        assert_eq!(slice, &[0, 0, 0]);
        slice[0] = 7;
        slice[2] = 8;
    }
    // The buffer grew, the cursor and the high-water mark stayed.
    assert_eq!(w.buffer, vec![1, 2, 7, 0, 8]);
    assert_eq!(w.cursor, 2);
    assert_eq!(w.length, 2);
    assert_eq!(w.into_vec(), vec![1, 2]);
}

#[test]
fn bits_are_packed_lowest_first() {
    let mut bits = BitAccumulator::new();
    assert_eq!(bits.len(), 0);
    bits.append(&[true, false, false, false, false, false, false, false, true, true]);
    assert_eq!(bits.len(), 10);
    assert!(bits.try_append(&[false, true]));
    assert_eq!(bits.len(), 12);
    let bytes = bit_to_bytes(bits);
    assert_eq!(bytes, vec![0b0000_0001, 0b0000_1011]);
    assert!(get_bit(&bytes, 0));
    assert!(!get_bit(&bytes, 1));
    assert!(get_bit(&bytes, 8));
    assert!(get_bit(&bytes, 11));
    assert!(!get_bit(&bytes, 12));
}

#[test]
fn no_bits_pack_to_no_bytes() {
    assert_eq!(bit_to_bytes(BitAccumulator::new()), Vec::<u8>::new());
    let mut bits = BitAccumulator::new();
    bits.append(&[]);
    assert_eq!(bits.len(), 0);
    let mut eight = BitAccumulator::new();
    eight.append(&[true; 8]);
    assert_eq!(bit_to_bytes(eight), vec![0xFF]);
}

#[test]
fn value_type_codes() {
    assert_eq!(ValueType::try_from(0), Ok(ValueType::New));
    assert_eq!(ValueType::try_from(1), Ok(ValueType::RemoveProperty));
    assert_eq!(ValueType::try_from(2), Ok(ValueType::Add));
    assert_eq!(ValueType::try_from(3), Ok(ValueType::AddUnique));
    assert_eq!(ValueType::try_from(4), Ok(ValueType::Remove));
    assert_eq!(ValueType::try_from(5), Err(UnknownValueType));
    assert_eq!(ValueType::try_from(255), Err(UnknownValueType));
    for code in 0..5u8 {
        assert_eq!(ValueType::try_from(code).unwrap().code(), code);
    }
}

#[test]
fn error_messages() {
    assert_eq!(
        DecodeError::UnexpectedEof { cursor: 12, wanted: 4, remaining: 0 }.message(),
        "Unexpected end of file (cursor: 12, wanted: 4, remaining: 0)"
    );
    assert_eq!(DecodeError::UnknownFileMagic.message(), "Unexpected file magic bytes");
    assert_eq!(DecodeError::StringTableHashMismatch.message(), "String table hash didn't match");
    assert_eq!(DecodeError::StringTableSizeMismatch.message(), "String table size didn't match");
    assert_eq!(DecodeError::InvalidNameOffset.message(), "Invalid name offset");
    assert_eq!(DecodeError::UnknownValueType.message(), "Unknown value type");
    assert_eq!(
        DecodeError::MalformedDecompressionNodes.message(),
        "Decompression nodes are malformed"
    );
    assert_eq!(decimal_string(0), "0");
    assert_eq!(decimal_string(9), "9");
    assert_eq!(decimal_string(10), "10");
    assert_eq!(decimal_string(1234567890), "1234567890");
    assert_eq!(decimal_string(usize::MAX), usize::MAX.to_string());
}
