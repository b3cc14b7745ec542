use me3_coalesced_parser::crc32::hash_crc32;
use me3_coalesced_parser::error::DecodeError;
use me3_coalesced_parser::{
    deserialize_coalesced, serialize_coalesced, try_serialize_coalesced, CoalFile, Coalesced,
    Property, Section, Value, ValueType,
};

fn word(bytes: &[u8], at: usize) -> u32 {
    u32::from_le_bytes([bytes[at], bytes[at + 1], bytes[at + 2], bytes[at + 3]])
}

fn half(bytes: &[u8], at: usize) -> u16 {
    u16::from_le_bytes([bytes[at], bytes[at + 1]])
}

fn value(ty: ValueType, text: &[u8]) -> Value {
    Value { ty, text: Some(text.to_vec()) }
}

fn single_property(values: Vec<Value>) -> Coalesced {
    Coalesced {
        version: 1,
        files: vec![CoalFile {
            path: b"a".to_vec(),
            sections: vec![Section {
                name: b"b".to_vec(),
                properties: vec![Property { name: b"c".to_vec(), values }],
            }],
        }],
    }
}

fn sample() -> Coalesced {
    Coalesced {
        version: 7,
        files: vec![
            CoalFile {
                path: b"..\\BIOGame\\Config\\BioInput.ini".to_vec(),
                sections: vec![
                    Section {
                        name: b"engine.input".to_vec(),
                        properties: vec![
                            Property {
                                name: b"bindings".to_vec(),
                                values: vec![
                                    value(ValueType::Add, b"( Name=\"Shared_Aim\", Command=\"SwapWeaponIfEmpty\" )"),
                                    value(ValueType::AddUnique, b""),
                                    Value { ty: ValueType::RemoveProperty, text: None },
                                    value(ValueType::Remove, b"x"),
                                ],
                            },
                            Property { name: b"empty".to_vec(), values: vec![] },
                        ],
                    },
                    Section { name: b"nothing".to_vec(), properties: vec![] },
                ],
            },
            CoalFile { path: b"bare".to_vec(), sections: vec![] },
            CoalFile {
                path: b"bindings".to_vec(),
                sections: vec![Section {
                    name: b"engine.input".to_vec(),
                    properties: vec![Property {
                        name: b"caf\xe9".to_vec(),
                        values: vec![value(ValueType::New, b"\xff\x80 na\xefve \x01")],
                    }],
                }],
            },
        ],
    }
}

#[test]
fn rejects_wrong_magic() {
    let input = [0u8; 64];
    assert_eq!(deserialize_coalesced(&input), Err(DecodeError::UnknownFileMagic));
}

#[test]
fn minimal_document_header_and_round_trip() {
    let document = Coalesced { version: 1, files: vec![] };
    let bytes = serialize_coalesced(&document);
    assert_eq!(word(&bytes, 0), 0x666D726D);
    assert_eq!(&bytes[0..4], b"mrmf");
    assert_eq!(word(&bytes, 4), 1);
    assert_eq!(word(&bytes, 8), 0);
    assert_eq!(word(&bytes, 12), 0);
    assert_eq!(word(&bytes, 16), 8);
    assert_eq!(word(&bytes, 20), 2);
    assert_eq!(word(&bytes, 24), 2);
    assert_eq!(word(&bytes, 28), 0);
    assert_eq!(bytes.len(), 32 + 8 + 2 + 2 + 4);
    let read = deserialize_coalesced(&bytes).unwrap();
    assert_eq!(read.version, 1);
    assert!(read.files.is_empty());
    assert_eq!(read, document);
}

#[test]
fn single_property_round_trip() {
    let document = single_property(vec![value(ValueType::New, b"hi")]);
    let bytes = serialize_coalesced(&document);
    assert_eq!(deserialize_coalesced(&bytes), Ok(document));
    // The string table holds the three names in the order of their checksums.
    assert_eq!(word(&bytes, 8), 1);
    assert_eq!(word(&bytes, 12), 2);
    let table = 32;
    assert_eq!(word(&bytes, table), word(&bytes, 16));
    assert_eq!(word(&bytes, table + 4), 3);
    let mut keys: Vec<Vec<u8>> = Vec::new();
    let mut hashes: Vec<u32> = Vec::new();
    for k in 0..3 {
        let hash = word(&bytes, table + 8 + 8 * k);
        let offset = word(&bytes, table + 12 + 8 * k) as usize;
        let at = table + 8 + offset;
        let length = half(&bytes, at) as usize;
        let key = bytes[at + 2..at + 2 + length].to_vec();
        assert_eq!(hash_crc32(&key), hash);
        keys.push(key);
        hashes.push(hash);
    }
    assert!(hashes[0] <= hashes[1] && hashes[1] <= hashes[2]);
    assert_eq!(hashes, vec![0x1011a005, 0x14d0bdb2, 0x19939b6b]);
    let mut sorted = keys.clone();
    sorted.sort();
    assert_eq!(sorted, vec![b"a".to_vec(), b"b".to_vec(), b"c".to_vec()]);
    // The only value's packed word: tag 0, bit offset 0.
    let index = 32 + word(&bytes, 16) as usize + word(&bytes, 20) as usize;
    let index_size = word(&bytes, 24) as usize;
    let packed = word(&bytes, index + index_size - 4);
    assert_eq!(packed >> 29, 0);
    assert_eq!(packed & 0x1FFF_FFFF, 0);
}

#[test]
fn keys_stand_in_the_order_of_their_checksums() {
    assert_eq!(hash_crc32(b"a"), 0x19939b6b);
    assert_eq!(hash_crc32(b"b"), 0x14d0bdb2);
    assert_eq!(hash_crc32(b"c"), 0x1011a005);
    let bytes = serialize_coalesced(&single_property(vec![]));
    let table = 32;
    let mut keys: Vec<Vec<u8>> = Vec::new();
    for k in 0..3 {
        let offset = word(&bytes, table + 12 + 8 * k) as usize;
        let at = table + 8 + offset;
        let length = half(&bytes, at) as usize;
        keys.push(bytes[at + 2..at + 2 + length].to_vec());
    }
    assert_eq!(keys, vec![b"c".to_vec(), b"b".to_vec(), b"a".to_vec()]);
    assert_eq!(word(&bytes, table + 8), 0x1011a005);
    assert_eq!(word(&bytes, table + 12), 24);
    assert_eq!(word(&bytes, table + 16), 0x14d0bdb2);
    assert_eq!(word(&bytes, table + 20), 27);
    assert_eq!(word(&bytes, table + 24), 0x19939b6b);
    assert_eq!(word(&bytes, table + 28), 30);
}

#[test]
fn remove_property_round_trip() {
    let document = single_property(vec![Value { ty: ValueType::RemoveProperty, text: None }]);
    let bytes = serialize_coalesced(&document);
    let read = deserialize_coalesced(&bytes).unwrap();
    assert_eq!(read.files[0].sections[0].properties[0].values[0].text, None);
    assert_eq!(read, document);
    let index = 32 + word(&bytes, 16) as usize + word(&bytes, 20) as usize;
    let index_size = word(&bytes, 24) as usize;
    let packed = word(&bytes, index + index_size - 4);
    assert_eq!(packed >> 29, 0b001);
    assert_eq!(packed, (1 << 29) | 0);
    // No bits were emitted.
    assert_eq!(word(&bytes, 28), 0);
    assert_eq!(word(&bytes, index + index_size), 0);
}

#[test]
fn remove_property_ignores_its_text() {
    let document = single_property(vec![
        value(ValueType::New, b"ab"),
        value(ValueType::RemoveProperty, b"ignored"),
        value(ValueType::Add, b"ba"),
    ]);
    let bytes = serialize_coalesced(&document);
    let read = deserialize_coalesced(&bytes).unwrap();
    let values = &read.files[0].sections[0].properties[0].values;
    assert_eq!(values[0], value(ValueType::New, b"ab"));
    assert_eq!(values[1], Value { ty: ValueType::RemoveProperty, text: None });
    assert_eq!(values[2], value(ValueType::Add, b"ba"));
    // The longest value that is written has two bytes.
    assert_eq!(word(&bytes, 12), 2);
    // The packed word of the second value carries the bit offset behind the first text.
    let index = 32 + word(&bytes, 16) as usize + word(&bytes, 20) as usize;
    let index_size = word(&bytes, 24) as usize;
    let second = word(&bytes, index + index_size - 8);
    let third = word(&bytes, index + index_size - 4);
    assert_eq!(second >> 29, 1);
    assert_eq!(third >> 29, 2);
    assert_eq!(second & 0x1FFF_FFFF, third & 0x1FFF_FFFF);
    assert!(second & 0x1FFF_FFFF > 0);
}

#[test]
fn tampered_hash_is_detected() {
    let document = single_property(vec![value(ValueType::New, b"hi")]);
    let mut bytes = serialize_coalesced(&document);
    bytes[32 + 8] ^= 0x01;
    assert_eq!(deserialize_coalesced(&bytes), Err(DecodeError::StringTableHashMismatch));
}

#[test]
fn tampered_table_size_is_detected() {
    let document = single_property(vec![value(ValueType::New, b"hi")]);
    let mut bytes = serialize_coalesced(&document);
    bytes[32] ^= 0x01;
    assert_eq!(deserialize_coalesced(&bytes), Err(DecodeError::StringTableSizeMismatch));
}

#[test]
fn name_index_outside_the_table_is_detected() {
    let document = single_property(vec![value(ValueType::New, b"hi")]);
    let mut bytes = serialize_coalesced(&document);
    let index = 32 + word(&bytes, 16) as usize + word(&bytes, 20) as usize;
    // The path index of the first file.
    bytes[index + 2] = 3;
    assert_eq!(deserialize_coalesced(&bytes), Err(DecodeError::InvalidNameOffset));
}

#[test]
fn unknown_tag_is_detected() {
    let document = single_property(vec![value(ValueType::New, b"hi")]);
    let mut bytes = serialize_coalesced(&document);
    let index = 32 + word(&bytes, 16) as usize + word(&bytes, 20) as usize;
    let index_size = word(&bytes, 24) as usize;
    bytes[index + index_size - 1] |= 5 << 5;
    assert_eq!(deserialize_coalesced(&bytes), Err(DecodeError::UnknownValueType));
}

#[test]
fn pair_index_outside_the_table_is_detected() {
    let document = single_property(vec![value(ValueType::New, b"hi")]);
    let mut bytes = serialize_coalesced(&document);
    let huffman = 32 + word(&bytes, 16) as usize;
    let pairs = half(&bytes, huffman) as usize;
    assert_eq!(pairs, 2);
    // Both slots of the root point past the table.
    let root = huffman + 2 + 8 * (pairs - 1);
    bytes[root..root + 4].copy_from_slice(&2i32.to_le_bytes());
    bytes[root + 4..root + 8].copy_from_slice(&2i32.to_le_bytes());
    assert_eq!(deserialize_coalesced(&bytes), Err(DecodeError::MalformedDecompressionNodes));
}

#[test]
fn empty_input_is_an_unexpected_end() {
    assert_eq!(
        deserialize_coalesced(&[]),
        Err(DecodeError::UnexpectedEof { cursor: 0, wanted: 4, remaining: 0 })
    );
    assert_eq!(
        deserialize_coalesced(&[0x6D, 0x72, 0x6D, 0x66, 1, 0]),
        Err(DecodeError::UnexpectedEof { cursor: 4, wanted: 4, remaining: 2 })
    );
}

#[test]
fn every_truncation_is_an_error() {
    let bytes = serialize_coalesced(&sample());
    for k in 0..bytes.len() {
        let result = deserialize_coalesced(&bytes[..k]);
        assert!(matches!(result, Err(DecodeError::UnexpectedEof { .. })), "cut at {}", k);
    }
    assert!(deserialize_coalesced(&bytes).is_ok());
}

#[test]
fn sample_round_trip() {
    let document = sample();
    assert!(try_serialize_coalesced(&document).is_some());
    let bytes = serialize_coalesced(&document);
    let read = deserialize_coalesced(&bytes).unwrap();
    // The text of a removed property does not come back; everything else does.
    assert_eq!(read, document);
    assert_eq!(word(&bytes, 4), 7);
    assert_eq!(word(&bytes, 8) as usize, b"..\\BIOGame\\Config\\BioInput.ini".len());
    assert_eq!(
        word(&bytes, 12) as usize,
        b"( Name=\"Shared_Aim\", Command=\"SwapWeaponIfEmpty\" )".len()
    );
    assert_eq!(
        bytes.len(),
        32 + word(&bytes, 16) as usize
            + word(&bytes, 20) as usize
            + word(&bytes, 24) as usize
            + 4
            + word(&bytes, 28) as usize
    );
}

#[test]
fn decode_encode_decode_is_stable() {
    let first = serialize_coalesced(&sample());
    let read = deserialize_coalesced(&first).unwrap();
    let second = serialize_coalesced(&read);
    assert_eq!(deserialize_coalesced(&second), Ok(read));
    assert_eq!(first, second);
}

#[test]
fn empty_containers_round_trip() {
    let document = Coalesced {
        version: 0xFFFF_FFFF,
        files: vec![
            CoalFile { path: b"no sections".to_vec(), sections: vec![] },
            CoalFile {
                path: b"f".to_vec(),
                sections: vec![
                    Section { name: b"no properties".to_vec(), properties: vec![] },
                    Section {
                        name: b"s".to_vec(),
                        properties: vec![Property { name: b"no values".to_vec(), values: vec![] }],
                    },
                ],
            },
        ],
    };
    let bytes = serialize_coalesced(&document);
    assert_eq!(word(&bytes, 12), 0);
    assert_eq!(word(&bytes, 20), 2);
    assert_eq!(word(&bytes, 28), 0);
    assert_eq!(deserialize_coalesced(&bytes), Ok(document));
}

#[test]
fn only_empty_texts_round_trip() {
    let document = single_property(vec![value(ValueType::New, b""), value(ValueType::Add, b"")]);
    let bytes = serialize_coalesced(&document);
    // One symbol, the 0 that ends a text: no pairs, no bits.
    assert_eq!(word(&bytes, 20), 2);
    assert_eq!(word(&bytes, 28), 0);
    assert_eq!(deserialize_coalesced(&bytes), Ok(document));
}

#[test]
fn repeated_names_are_stored_once() {
    let document = Coalesced {
        version: 2,
        files: vec![
            CoalFile {
                path: b"same".to_vec(),
                sections: vec![Section {
                    name: b"same".to_vec(),
                    properties: vec![
                        Property { name: b"same".to_vec(), values: vec![value(ValueType::New, b"1")] },
                        Property { name: b"other".to_vec(), values: vec![value(ValueType::New, b"2")] },
                    ],
                }],
            },
        ],
    };
    let bytes = serialize_coalesced(&document);
    assert_eq!(word(&bytes, 32 + 4), 2);
    assert_eq!(deserialize_coalesced(&bytes), Ok(document));
}

#[test]
fn too_many_values_do_not_fit() {
    let values: Vec<Value> =
        (0..0x1_0000).map(|_| Value { ty: ValueType::RemoveProperty, text: None }).collect();
    let document = single_property(values);
    assert_eq!(try_serialize_coalesced(&document), None);
    let mut document = document;
    document.files[0].sections[0].properties[0].values.pop();
    let bytes = try_serialize_coalesced(&document).unwrap();
    assert_eq!(deserialize_coalesced(&bytes), Ok(document));
}

#[test]
fn long_key_does_not_fit() {
    let mut document = single_property(vec![]);
    document.files[0].path = vec![b'p'; 0x1_0000];
    assert_eq!(try_serialize_coalesced(&document), None);
    document.files[0].path = vec![b'p'; 0xFFFF];
    let bytes = try_serialize_coalesced(&document).unwrap();
    assert_eq!(word(&bytes, 8), 0xFFFF);
    assert_eq!(deserialize_coalesced(&bytes), Ok(document));
}
