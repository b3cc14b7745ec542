use me3_coalesced_parser::bits::{bit_to_bytes, BitAccumulator};
use me3_coalesced_parser::error::DecodeError;
use me3_coalesced_parser::huffman::{FrequencyMap, Huffman, HuffmanChar, HuffmanString};
use me3_coalesced_parser::huffman_utf16::{FrequencyMapUtf16, HuffmanUtf16};
use me3_coalesced_parser::invert_huffman_tree;

fn encoder(text: &[u8]) -> Huffman<u8> {
    let mut freq = FrequencyMap::<u8>::new();
    freq.push_iter(text);
    freq.push(0);
    Huffman::new(freq)
}

fn encode(huffman: &Huffman<u8>, text: &[u8]) -> Vec<u8> {
    let mut bits = BitAccumulator::new();
    huffman.encode(text, &mut bits);
    huffman.encode_null(&mut bits);
    bit_to_bytes(bits)
}

#[test]
fn huffman_round_trip() {
    for text in [&b"abracadabra"[..], b"a", b"", b"\xff\x01\x80 mixed \x7f", b"aaaaaaaaaaaaaaaab"] {
        let huffman = encoder(text);
        let data = encode(&huffman, text);
        let read: Vec<u8> =
            Huffman::<u8>::decode(&data, huffman.get_pairs(), 0, text.len() + 1).unwrap();
        assert_eq!(read, text);
    }
}

#[test]
fn huffman_round_trip_with_the_length_as_limit() {
    let text = b"the quick brown fox";
    let huffman = encoder(text);
    let data = encode(&huffman, text);
    let read: Vec<u8> = Huffman::<u8>::decode(&data, huffman.get_pairs(), 0, text.len()).unwrap();
    assert_eq!(read, text);
    let cut: Vec<u8> = Huffman::<u8>::decode(&data, huffman.get_pairs(), 0, 3).unwrap();
    assert_eq!(cut, b"the");
    let none: Vec<u8> = Huffman::<u8>::decode(&data, huffman.get_pairs(), 0, 0).unwrap();
    assert_eq!(none, b"");
}

#[test]
fn strings_are_decoded_at_their_bit_offsets() {
    let huffman = encoder(b"one two three");
    let mut bits = BitAccumulator::new();
    let mut offsets = Vec::new();
    for text in [&b"one"[..], b"two", b"", b"three"] {
        offsets.push(bits.len());
        huffman.encode(text, &mut bits);
        huffman.encode_null(&mut bits);
    }
    let total = bits.len();
    let data = bit_to_bytes(bits);
    assert_eq!(data.len(), (total + 7) / 8);
    let texts: Vec<Vec<u8>> = offsets
        .iter()
        .map(|at| Huffman::<u8>::decode(&data, huffman.get_pairs(), *at, usize::MAX).unwrap())
        .collect();
    assert_eq!(texts, vec![b"one".to_vec(), b"two".to_vec(), b"".to_vec(), b"three".to_vec()]);
    // Behind the end of the data nothing is read.
    let behind: Vec<u8> =
        Huffman::<u8>::decode(&data, huffman.get_pairs(), data.len() * 8, usize::MAX).unwrap();
    assert_eq!(behind, b"");
}

#[test]
fn pair_table_of_two_symbols() {
    let mut freq = FrequencyMap::<u8>::new();
    freq.push(b'x');
    freq.push(b'x');
    freq.push(0);
    let huffman = Huffman::new(freq);
    // The lighter leaf, the 0, is the left half; the only pair is the root.
    assert_eq!(huffman.get_pairs(), &[(-1, -1 - b'x' as i32)]);
    let data = encode(&huffman, b"xx");
    assert_eq!(data, vec![0b0000_0011]);
}

#[test]
fn pair_table_root_is_last_and_indices_follow_the_walk() {
    let mut freq = FrequencyMap::<u8>::new();
    freq.push_iter(b"aaaabbc");
    freq.push(0);
    let huffman = Huffman::new(freq);
    // Frequencies: 0 -> 1, a -> 4, b -> 2, c -> 1. The 0 and c merge first,
    // then b with them, then a with the rest.
    let pairs = huffman.get_pairs();
    assert_eq!(
        pairs,
        &[(-1 - b'b' as i32, 1), (-1, -1 - b'c' as i32), (-1 - b'a' as i32, 0)]
    );
    let data = encode(&huffman, b"abc");
    // a = 0, b = 1 0, c = 1 1 1, end = 1 1 0: bits 0 10 111 110, first bit lowest.
    assert_eq!(data, vec![0b1111_1010, 0b0000_0000]);
}

#[test]
fn single_symbol_alphabet() {
    // Only the 0 that ends a string: one leaf, no pairs, no bits.
    let huffman = encoder(b"");
    assert!(huffman.get_pairs().is_empty());
    assert_eq!(encode(&huffman, b""), Vec::<u8>::new());
    let read: Vec<u8> = Huffman::<u8>::decode(&[], huffman.get_pairs(), 0, 1).unwrap();
    assert_eq!(read, b"");
    // An empty map gives the same tree.
    let empty = Huffman::new(FrequencyMap::<u8>::new());
    assert!(empty.get_pairs().is_empty());
    // One symbol that is not 0: the 0 joins it, so that the tree has two leaves.
    let mut freq = FrequencyMap::<u8>::new();
    freq.push(b'z');
    let huffman = Huffman::new(freq);
    assert_eq!(huffman.get_pairs(), &[(-1, -1 - b'z' as i32)]);
    let data = encode(&huffman, b"zz");
    let read: Vec<u8> = Huffman::<u8>::decode(&data, huffman.get_pairs(), 0, 3).unwrap();
    assert_eq!(read, b"zz");
}

#[test]
fn symbols_without_a_code_are_skipped() {
    let huffman = encoder(b"ab");
    assert_eq!(huffman.encoded_len(b"a?b?"), huffman.encoded_len(b"ab"));
    let data = encode(&huffman, b"a?b?");
    let read: Vec<u8> = Huffman::<u8>::decode(&data, huffman.get_pairs(), 0, 10).unwrap();
    assert_eq!(read, b"ab");
}

#[test]
fn decode_detects_indices_outside_the_table() {
    let pairs = [(1, 1), (2, -1)];
    let result: Result<Vec<u8>, DecodeError> = Huffman::<u8>::decode(&[0], &pairs, 0, 10);
    assert_eq!(result, Err(DecodeError::MalformedDecompressionNodes));
    // The index that equals the number of pairs is outside too.
    let pairs = [(-2, -3), (2, 2)];
    let result: Result<Vec<u8>, DecodeError> = Huffman::<u8>::decode(&[0], &pairs, 0, 10);
    assert_eq!(result, Err(DecodeError::MalformedDecompressionNodes));
    let result: Result<Vec<u8>, DecodeError> = Huffman::<u8>::decode(&[0], &[], 0, 10);
    assert_eq!(result, Err(DecodeError::MalformedDecompressionNodes));
    // Without data or without room for a character nothing is looked up.
    let result: Result<Vec<u8>, DecodeError> = Huffman::<u8>::decode(&[], &[], 0, 10);
    assert_eq!(result, Ok(vec![]));
    let result: Result<Vec<u8>, DecodeError> = Huffman::<u8>::decode(&[0], &[], 0, 0);
    assert_eq!(result, Ok(vec![]));
}

#[test]
fn decode_reads_bits_from_the_lowest_of_each_byte() {
    // Root last: left the pair 0, right the symbol 3. Pair 0: left the symbol 1, right the end.
    let pairs = [(-2, -1), (0, -4)];
    // Bits 1 (3), 0 0 (1), 1 (3), 0 1 (end).
    let read: Vec<u8> = Huffman::<u8>::decode(&[0b0010_1001], &pairs, 0, 10).unwrap();
    assert_eq!(read, vec![3, 1, 3]);
    let read: Vec<u8> = Huffman::<u8>::decode(&[0b0010_1001], &pairs, 1, 10).unwrap();
    assert_eq!(read, vec![1, 3]);
    // A symbol above 255 is cut to its low byte.
    let pairs = [(-1 - 0x141, -1)];
    let read: Vec<u8> = Huffman::<u8>::decode(&[0b0000_0100], &pairs, 0, 10).unwrap();
    assert_eq!(read, vec![0x41, 0x41]);
}

#[test]
fn utf16_round_trip() {
    let text: Vec<u16> = vec![0x0048, 0x0069, 0xD83D, 0xDE00, 0xFFFF, 0x0001];
    let mut freq = FrequencyMapUtf16::new();
    freq.push_str(&text);
    freq.push(0);
    let huffman = HuffmanUtf16::new(freq);
    let mut bits = BitAccumulator::new();
    huffman.encode(&text, &mut bits);
    huffman.encode_null(&mut bits);
    let data = bit_to_bytes(bits);
    let read = HuffmanUtf16::decode(&data, huffman.get_pairs(), 0, usize::MAX).unwrap();
    assert_eq!(read, text);
}

#[test]
fn characters_and_symbols() {
    assert_eq!(<u8 as HuffmanChar>::null(), 0u8);
    assert_eq!(<u16 as HuffmanChar>::null(), 0u16);
    assert_eq!(0xE9u8.as_symbol(), 0xE9);
    assert_eq!(0xFFFFu16.as_symbol(), 0xFFFF);
    assert_eq!(<u8 as HuffmanChar>::from_symbol(0xE9), 0xE9u8);
    assert_eq!(<u16 as HuffmanChar>::from_symbol(0xFFFF), 0xFFFFu16);
    let mut text = <Vec<u8> as HuffmanString>::new();
    text.append_char(b'a');
    text.append_char(b'b');
    assert_eq!(HuffmanString::len(&text), 2);
    let mut wide = <Vec<u16> as HuffmanString>::new();
    wide.append_char(7);
    assert_eq!(wide, vec![7u16]);
}

#[test]
fn inversion_reverses_and_counts_from_the_other_end() {
    let mut pairs = vec![(-5, 1), (-1, -2), (0, -9)];
    invert_huffman_tree(&mut pairs);
    assert_eq!(pairs, vec![(2, -9), (-1, -2), (-5, 1)]);
    let mut none: Vec<(i32, i32)> = vec![];
    invert_huffman_tree(&mut none);
    assert!(none.is_empty());
}

#[test]
fn inversion_is_an_involution() {
    let mut freq = FrequencyMap::<u8>::new();
    freq.push_iter(b"a table of some size, with several levels");
    freq.push(0);
    let huffman = Huffman::new(freq);
    let table = huffman.get_pairs().to_vec();
    let mut pairs = table.clone();
    invert_huffman_tree(&mut pairs);
    assert_ne!(pairs, table);
    // The root stands first now, and the pair that was first is the last.
    assert_eq!(pairs[0].0.max(pairs[0].1), pairs.len() as i32 - 1);
    invert_huffman_tree(&mut pairs);
    assert_eq!(pairs, table);
}

#[test]
fn inversion_of_an_index_outside_the_table_is_not_undone() {
    let mut pairs = vec![(5, -1)];
    invert_huffman_tree(&mut pairs);
    assert_eq!(pairs, vec![(-5, -1)]);
    invert_huffman_tree(&mut pairs);
    assert_eq!(pairs, vec![(-5, -1)]);
}

#[test]
fn frequencies_stop_at_the_largest_count() {
    let mut freq = FrequencyMap::<u8>::new();
    freq.push_iter(&[b'q'; 1000]);
    freq.push(0);
    let huffman = Huffman::new(freq);
    assert_eq!(huffman.get_pairs(), &[(-1, -1 - b'q' as i32)]);
}
