use me3_coalesced_parser::coalesced_write::{
    checked_index_size, checked_string_table_size, keys_fit_check, layout_check, longest_key,
    longest_text, write_pair_block, write_string_table,
};
use me3_coalesced_parser::collect::{collect_names, collect_values};
use me3_coalesced_parser::crc32::hash_crc32;
use me3_coalesced_parser::keys::{bytes_eq, distinct_keys, find_key, sort_keys};
use me3_coalesced_parser::wire::{
    i32_from_le_bytes, i32_to_le_bytes, u16_from_le_bytes, u16_to_le_bytes, u32_from_le_bytes,
    u32_to_le_bytes,
};
use me3_coalesced_parser::{CoalFile, Property, Section, Value, ValueType};

fn owned(names: &[&str]) -> Vec<Vec<u8>> {
    names.iter().map(|n| n.as_bytes().to_vec()).collect()
}

fn files() -> Vec<CoalFile> {
    vec![
        CoalFile {
            path: b"f1".to_vec(),
            sections: vec![
                Section {
                    name: b"s1".to_vec(),
                    properties: vec![
                        Property {
                            name: b"p1".to_vec(),
                            values: vec![
                                Value { ty: ValueType::New, text: Some(b"one".to_vec()) },
                                Value { ty: ValueType::RemoveProperty, text: Some(b"longest".to_vec()) },
                            ],
                        },
                        Property { name: b"s1".to_vec(), values: vec![] },
                    ],
                },
                Section { name: b"f1".to_vec(), properties: vec![] },
            ],
        },
        CoalFile {
            path: b"f2".to_vec(),
            sections: vec![Section {
                name: b"s1".to_vec(),
                properties: vec![Property {
                    name: b"p2".to_vec(),
                    values: vec![Value { ty: ValueType::Add, text: Some(b"three".to_vec()) }],
                }],
            }],
        },
    ]
}

#[test]
fn little_endian_bytes() {
    assert_eq!(u16_to_le_bytes(0x1234), [0x34, 0x12]);
    assert_eq!(u32_to_le_bytes(0x12345678), [0x78, 0x56, 0x34, 0x12]);
    assert_eq!(i32_to_le_bytes(-2), [0xFE, 0xFF, 0xFF, 0xFF]);
    assert_eq!(i32_to_le_bytes(i32::MIN), [0, 0, 0, 0x80]);
    assert_eq!(i32_to_le_bytes(i32::MAX), [0xFF, 0xFF, 0xFF, 0x7F]);
    assert_eq!(u16_from_le_bytes([0x34, 0x12]), 0x1234);
    assert_eq!(u32_from_le_bytes([0xFF, 0xFF, 0xFF, 0xFF]), u32::MAX);
    assert_eq!(i32_from_le_bytes([0xFF, 0xFF, 0xFF, 0xFF]), -1);
    assert_eq!(i32_from_le_bytes([0, 0, 0, 0x80]), i32::MIN);
    for value in [0i32, 1, -1, 65, -66, i32::MAX, i32::MIN, 0x1234_5678] {
        assert_eq!(i32_to_le_bytes(value), value.to_le_bytes());
        assert_eq!(i32_from_le_bytes(value.to_le_bytes()), value);
    }
}

#[test]
fn byte_strings_are_compared_by_content() {
    assert!(bytes_eq(b"", b""));
    assert!(bytes_eq(b"abc", b"abc"));
    assert!(!bytes_eq(b"abc", b"abd"));
    assert!(!bytes_eq(b"abc", b"ab"));
    assert!(!bytes_eq(b"", b"a"));
}

#[test]
fn names_are_collected_in_document_order() {
    let files = files();
    let names: Vec<Vec<u8>> = collect_names(&files).into_iter().cloned().collect();
    assert_eq!(names, owned(&["f1", "s1", "p1", "s1", "f1", "f2", "s1", "p2"]));
    let none: Vec<CoalFile> = vec![];
    assert!(collect_names(&none).is_empty());
}

#[test]
fn values_are_collected_in_document_order() {
    let files = files();
    let texts: Vec<Option<Vec<u8>>> =
        collect_values(&files).into_iter().map(|v| v.text.clone()).collect();
    assert_eq!(
        texts,
        vec![Some(b"one".to_vec()), Some(b"longest".to_vec()), Some(b"three".to_vec())]
    );
    // The text of a removed property is not written, so it does not count.
    assert_eq!(longest_text(&collect_values(&files)), 5);
}

#[test]
fn first_occurrences_are_kept() {
    let names = owned(&["b", "a", "b", "c", "a", "b"]);
    let refs: Vec<&Vec<u8>> = names.iter().collect();
    let keys: Vec<Vec<u8>> = distinct_keys(&refs).into_iter().cloned().collect();
    assert_eq!(keys, owned(&["b", "a", "c"]));
    assert_eq!(find_key(&refs, &b"c".to_vec()), 3);
    assert_eq!(find_key(&refs, &b"b".to_vec()), 0);
    assert_eq!(find_key(&refs, &b"z".to_vec()), 6);
}

#[test]
fn keys_are_sorted_by_checksum() {
    let names = owned(&["a", "b", "c", "hi", ""]);
    let refs: Vec<&Vec<u8>> = names.iter().collect();
    let sorted: Vec<Vec<u8>> = sort_keys(&refs).into_iter().cloned().collect();
    // Checksums: "" 0, "c" 0x1011a005, "b" 0x14d0bdb2, "a" 0x19939b6b, "hi" 0x9a89b422.
    assert_eq!(sorted, owned(&["", "c", "b", "a", "hi"]));
    let hashes: Vec<u32> = sorted.iter().map(|k| hash_crc32(k)).collect();
    assert_eq!(hashes, vec![0, 0x1011a005, 0x14d0bdb2, 0x19939b6b, 0x9a89b422]);
    assert_eq!(longest_key(&refs), 2);
}

#[test]
fn string_table_block() {
    let names = owned(&["c", "b", "a"]);
    let refs: Vec<&Vec<u8>> = names.iter().collect();
    assert!(keys_fit_check(&refs));
    assert_eq!(checked_string_table_size(&refs), Some(8 + 24 + 9));
    let table = write_string_table(&refs);
    let mut expected: Vec<u8> = Vec::new();
    for word in [41u32, 3, 0x1011a005, 24, 0x14d0bdb2, 27, 0x19939b6b, 30] {
        expected.extend_from_slice(&word.to_le_bytes());
    }
    for key in [b"c", b"b", b"a"] {
        expected.extend_from_slice(&1u16.to_le_bytes());
        expected.extend_from_slice(key);
    }
    assert_eq!(table, expected);
    let none: Vec<&Vec<u8>> = vec![];
    assert_eq!(write_string_table(&none), vec![8, 0, 0, 0, 0, 0, 0, 0]);
}

#[test]
fn huffman_block() {
    assert_eq!(write_pair_block(&[]), vec![0, 0]);
    assert_eq!(
        write_pair_block(&[(-1, 0x0102_0304)]),
        vec![1, 0, 0xFF, 0xFF, 0xFF, 0xFF, 4, 3, 2, 1]
    );
}

#[test]
fn index_block_size() {
    let files = files();
    // 2 + 2 * 6 for the files; f1: 2 + 2 * 6, s1: 2 + 2 * 6 + (2 + 2 * 4) + 2, f1: 2;
    // f2: 2 + 6, s1: 2 + 6 + (2 + 4).
    assert_eq!(checked_index_size(&files), Some(14 + (14 + 26 + 2) + (8 + 14)));
    assert!(layout_check(&files));
    let none: Vec<CoalFile> = vec![];
    assert_eq!(checked_index_size(&none), Some(2));
    let many = vec![
        CoalFile {
            path: vec![],
            sections: (0..0x1_0000).map(|_| Section { name: vec![], properties: vec![] }).collect(),
        },
    ];
    assert!(!layout_check(&many));
}
