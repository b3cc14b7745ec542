use me3_coalesced_parser::error::DecodeError;
use me3_coalesced_parser::{
    deserialize_tlk, serialize_tlk, try_serialize_tlk, Tlk, TlkString,
};

fn word(bytes: &[u8], at: usize) -> u32 {
    u32::from_le_bytes([bytes[at], bytes[at + 1], bytes[at + 2], bytes[at + 3]])
}

fn signed(bytes: &[u8], at: usize) -> i32 {
    i32::from_le_bytes([bytes[at], bytes[at + 1], bytes[at + 2], bytes[at + 3]])
}

fn units(text: &str) -> Vec<u16> {
    text.encode_utf16().collect()
}

fn sample() -> Tlk {
    Tlk {
        version: 3,
        min_version: 2,
        male: vec![
            TlkString { id: 1, value: units("Commander") },
            TlkString { id: 2, value: units("") },
            TlkString { id: 0xFFFF_FFFF, value: units("He said: \u{201c}no\u{201d} \u{1F600}") },
        ],
        female: vec![
            TlkString { id: 1, value: units("Commander") },
            TlkString { id: 7, value: vec![0xFFFF, 0x0001, 0xD800] },
        ],
    }
}

#[test]
fn minimal_tlk_round_trip() {
    let tlk = Tlk {
        version: 3,
        min_version: 3,
        male: vec![TlkString { id: 42, value: vec![0x0048, 0x0069] }],
        female: vec![],
    };
    let bytes = serialize_tlk(&tlk);
    assert_eq!(deserialize_tlk(&bytes), Ok(tlk));
    assert_eq!(&bytes[0..4], b"Tlk\0");
    assert_eq!(word(&bytes, 0), 0x006B6C54);
    assert_eq!(word(&bytes, 4), 3);
    assert_eq!(word(&bytes, 8), 3);
    assert_eq!(word(&bytes, 12), 1);
    assert_eq!(word(&bytes, 16), 0);
    // Three symbols: two pairs, the root's first.
    assert_eq!(word(&bytes, 20), 2);
    assert_eq!(word(&bytes, 28), 42);
    assert_eq!(word(&bytes, 32), 0);
    let root = (signed(&bytes, 36), signed(&bytes, 40));
    assert!(root.0 == 1 || root.1 == 1);
    assert_eq!(bytes.len(), 28 + 8 + 16 + word(&bytes, 24) as usize);
}

#[test]
fn empty_tlk_round_trip() {
    let tlk = Tlk { version: 0, min_version: 9, male: vec![], female: vec![] };
    let bytes = serialize_tlk(&tlk);
    assert_eq!(bytes.len(), 28);
    assert_eq!(word(&bytes, 20), 0);
    assert_eq!(word(&bytes, 24), 0);
    assert_eq!(deserialize_tlk(&bytes), Ok(tlk));
}

#[test]
fn sample_tlk_round_trip() {
    let tlk = sample();
    assert!(try_serialize_tlk(&tlk).is_some());
    let bytes = serialize_tlk(&tlk);
    assert_eq!(word(&bytes, 12), 3);
    assert_eq!(word(&bytes, 16), 2);
    // The first string starts at bit 0, the others behind it.
    assert_eq!(word(&bytes, 28 + 4), 0);
    assert!(word(&bytes, 28 + 12) > 0);
    assert!(word(&bytes, 28 + 12) < word(&bytes, 28 + 20));
    assert_eq!(deserialize_tlk(&bytes), Ok(tlk));
}

#[test]
fn tlk_with_only_empty_strings_round_trip() {
    let tlk = Tlk {
        version: 1,
        min_version: 1,
        male: vec![TlkString { id: 5, value: vec![] }],
        female: vec![TlkString { id: 6, value: vec![] }],
    };
    let bytes = serialize_tlk(&tlk);
    assert_eq!(word(&bytes, 20), 0);
    assert_eq!(word(&bytes, 24), 0);
    assert_eq!(deserialize_tlk(&bytes), Ok(tlk));
}

#[test]
fn tlk_rejects_wrong_magic() {
    let mut bytes = serialize_tlk(&sample());
    bytes[0] = b't';
    assert_eq!(deserialize_tlk(&bytes), Err(DecodeError::UnknownFileMagic));
    assert_eq!(deserialize_tlk(&[0u8; 28]), Err(DecodeError::UnknownFileMagic));
}

#[test]
fn tlk_every_truncation_is_an_unexpected_end() {
    let bytes = serialize_tlk(&sample());
    for k in 0..bytes.len() {
        let result = deserialize_tlk(&bytes[..k]);
        assert!(matches!(result, Err(DecodeError::UnexpectedEof { .. })), "cut at {}", k);
    }
    assert_eq!(
        deserialize_tlk(&bytes[..30]),
        Err(DecodeError::UnexpectedEof { cursor: 28, wanted: 4, remaining: 2 })
    );
}

#[test]
fn hand_built_tlk_is_decoded() {
    let mut file: Vec<u8> = Vec::new();
    for w in [0x006B6C54u32, 1, 1, 1, 1, 2, 2] {
        file.extend_from_slice(&w.to_le_bytes());
    }
    // One male string at bit 0, one female string at bit 8.
    for w in [9u32, 0, 8, 8] {
        file.extend_from_slice(&w.to_le_bytes());
    }
    // The stored table has the root first: left the pair behind it, right
    // the symbol 0x41. The other pair: left the symbol 0x42, right the 0
    // that ends a string.
    for slot in [1i32, -1 - 0x41, -1 - 0x42, -1] {
        file.extend_from_slice(&slot.to_le_bytes());
    }
    // Bits, least significant first: 1 (A), 0 0 (B), 1 (A), 0 1 (end), then
    // in the second byte 0 0 (B), 0 1 (end).
    file.push(0b0010_1001);
    file.push(0b0000_1000);
    assert_eq!(
        deserialize_tlk(&file),
        Ok(Tlk {
            version: 1,
            min_version: 1,
            male: vec![TlkString { id: 9, value: vec![0x41, 0x42, 0x41] }],
            female: vec![TlkString { id: 8, value: vec![0x42] }],
        })
    );
}

#[test]
fn tlk_with_an_empty_table_and_data_is_malformed() {
    let mut file: Vec<u8> = Vec::new();
    for w in [0x006B6C54u32, 1, 1, 1, 0, 0, 1] {
        file.extend_from_slice(&w.to_le_bytes());
    }
    file.extend_from_slice(&9u32.to_le_bytes());
    file.extend_from_slice(&0u32.to_le_bytes());
    file.push(0);
    assert_eq!(deserialize_tlk(&file), Err(DecodeError::MalformedDecompressionNodes));
}

#[test]
fn insert_replaces_or_appends() {
    let mut tlk = sample();
    tlk.insert_male(2, units("two"));
    assert_eq!(tlk.male.len(), 3);
    assert_eq!(tlk.male[1], TlkString { id: 2, value: units("two") });
    tlk.insert_male(10, units("ten"));
    assert_eq!(tlk.male.len(), 4);
    assert_eq!(tlk.male[3], TlkString { id: 10, value: units("ten") });
    tlk.insert_female(7, units("seven"));
    assert_eq!(tlk.female.len(), 2);
    assert_eq!(tlk.female[1].value, units("seven"));
    tlk.insert_female(2, units("new"));
    assert_eq!(tlk.female.len(), 3);
    assert_eq!(tlk.female[2], TlkString { id: 2, value: units("new") });
    assert_eq!(tlk.male[0], TlkString { id: 1, value: units("Commander") });
}

#[test]
fn replace_tells_whether_it_found_the_id() {
    let mut tlk = sample();
    assert!(tlk.replace_male(1, units("Shepard")));
    assert_eq!(tlk.male[0].value, units("Shepard"));
    assert_eq!(tlk.female[0].value, units("Commander"));
    assert!(!tlk.replace_male(7, units("absent")));
    assert_eq!(tlk.male.len(), 3);
    assert!(tlk.replace_female(7, units("present")));
    assert_eq!(tlk.female[1].value, units("present"));
    assert!(!tlk.replace_female(2, units("absent")));
    assert_eq!(tlk.female.len(), 2);
}

#[test]
fn replace_changes_the_first_of_equal_ids() {
    let mut tlk = Tlk {
        version: 1,
        min_version: 1,
        male: vec![
            TlkString { id: 4, value: units("a") },
            TlkString { id: 4, value: units("b") },
        ],
        female: vec![],
    };
    assert!(tlk.replace_male(4, units("c")));
    assert_eq!(tlk.male[0].value, units("c"));
    assert_eq!(tlk.male[1].value, units("b"));
}
