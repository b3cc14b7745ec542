use me3_coalesced_parser::crc32::{hash_crc32, CRC32_TABLE};

#[test]
fn crc32_of_check_string() {
    assert_eq!(hash_crc32(b"123456789"), 0xFC89_1918);
}

#[test]
fn crc32_of_nothing() {
    assert_eq!(hash_crc32(b""), 0);
}

#[test]
fn crc32_table_is_the_table_of_the_polynomial() {
    for i in 0..256u32 {
        let mut entry = i << 24;
        for _ in 0..8 {
            entry = if entry & 0x8000_0000 != 0 { (entry << 1) ^ 0x04C1_1DB7 } else { entry << 1 };
        }
        assert_eq!(CRC32_TABLE[i as usize], entry);
    }
}

#[test]
fn crc32_is_neither_reflected_nor_uncomplemented() {
    // One byte: the table entry of the complemented byte, shifted checksum mixed in, complemented.
    assert_eq!(hash_crc32(&[0]), !(CRC32_TABLE[0xFF] ^ 0xFFFF_FF00));
    assert_eq!(hash_crc32(b"a"), 0x19939b6b);
    assert_eq!(hash_crc32(b"hi"), 0x9a89b422);
    // The reflected checksum of the same input differs.
    assert_ne!(hash_crc32(b"123456789"), 0xCBF4_3926);
    // Without the final complement it would be the checksum known as MPEG-2.
    assert_eq!(!hash_crc32(b"123456789"), 0x0376_E6E7);
}
