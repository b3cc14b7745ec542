use me3_coalesced_parser::{
    deserialize_coalesced, deserialize_tlk, serialize_coalesced, serialize_tlk, CoalFile,
    Coalesced, Property, Section, Tlk, TlkString, Value, ValueType,
};

fn coalesced_file() -> Vec<u8> {
    let mut files = Vec::new();
    for f in 0..4u8 {
        let mut sections = Vec::new();
        for s in 0..5u8 {
            let mut properties = Vec::new();
            for p in 0..6u8 {
                let mut values = Vec::new();
                for v in 0..(p % 4) {
                    let ty = ValueType::try_from((f + s + p + v) % 5).unwrap();
                    let text = match ty {
                        ValueType::RemoveProperty => None,
                        _ => Some(
                            format!("(Value={},Weight={}.{})", f as u32 * 7919, s, p + v).into_bytes(),
                        ),
                    };
                    values.push(Value { ty, text });
                }
                properties.push(Property { name: format!("m_prop{}", p % 4).into_bytes(), values });
            }
            sections.push(Section {
                name: format!("sfxgame.sfxpawn_{}", s).into_bytes(),
                properties,
            });
        }
        files.push(CoalFile { path: format!("..\\BIOGame\\Config\\file{}.ini", f).into_bytes(), sections });
    }
    serialize_coalesced(&Coalesced { version: 1, files })
}

fn tlk_file() -> Vec<u8> {
    let strings: Vec<TlkString> = (0..200u32)
        .map(|id| TlkString {
            id: id * 3,
            value: format!("Line {} of the conversation, with \u{e9} and \u{4e16}", id)
                .encode_utf16()
                .collect(),
        })
        .collect();
    let female: Vec<TlkString> = strings.iter().take(20).cloned().collect();
    serialize_tlk(&Tlk { version: 3, min_version: 2, male: strings, female })
}

/// Tests that a valid coalesced can be parsed, encoded, and parsed again
/// without any errors.
#[test]
fn test_coalesced_rebuild() {
    let bytes = coalesced_file();

    // Parse
    let coalesced = deserialize_coalesced(&bytes).expect("Failed to parse coalesced");

    // Encode
    let bytes = serialize_coalesced(&coalesced);

    // Parse
    let again = deserialize_coalesced(&bytes).expect("Failed to parse coalesced");
    assert_eq!(again, coalesced);
    assert_eq!(again.files.len(), 4);
    assert_eq!(again.files[3].sections[4].properties[5].values.len(), 1);
}

/// Tests that a valid tlk can be parsed, encoded, and parsed again
/// without any errors.
#[test]
fn test_tlk_rebuild() {
    let bytes = tlk_file();

    // Parse
    let tlk = deserialize_tlk(&bytes).expect("Failed to parse tlk");

    // Encode
    let bytes = serialize_tlk(&tlk);

    // Parse
    let again = deserialize_tlk(&bytes).expect("Failed to parse tlk");
    assert_eq!(again, tlk);
    assert_eq!(again.male.len(), 200);
    assert_eq!(again.female.len(), 20);
    assert_eq!(again.male[7].id, 21);
}
