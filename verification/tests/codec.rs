use compression::{
    build_huffman_tree, compress, count_frequencies, decode, decode_symbols, decompress, encode,
    encode_symbols, generate_codes, parse_header, serialize_header, total_count, BitReader,
    BitWriter, HuffmanError, Node,
};
use std::collections::HashMap;

fn is_prefix(a: &[bool], b: &[bool]) -> bool {
    a.len() <= b.len() && a.iter().zip(b).all(|(x, y)| x == y)
}

fn table(entries: &[(u8, usize)]) -> HashMap<u8, usize> {
    let mut freq_map = HashMap::new();
    for &(byte, freq) in entries {
        freq_map.insert(byte, freq);
    }
    freq_map
}

fn cost(codes: &HashMap<u8, Vec<bool>>, freq_map: &HashMap<u8, usize>) -> usize {
    freq_map.iter().map(|(byte, freq)| codes[byte].len() * freq).sum()
}

#[test]
fn test_count_frequencies() {
    let freq_map = count_frequencies(b"abracadabra");
    assert_eq!(freq_map.get(&b'a'), Some(&5));
    assert_eq!(freq_map.get(&b'b'), Some(&2));
    assert_eq!(freq_map.get(&b'r'), Some(&2));
    assert_eq!(freq_map.get(&b'c'), Some(&1));
    assert_eq!(freq_map.get(&b'd'), Some(&1));
}

#[test]
fn test_build_huffman_tree() {
    let mut freq_map = HashMap::new();
    freq_map.insert(b'a', 3);
    freq_map.insert(b'b', 2);
    freq_map.insert(b'c', 1);

    let tree = build_huffman_tree(&freq_map).unwrap();

    // Check the root
    assert_eq!(tree.freq, 6);
    assert_eq!(tree.value, None);

    // Check left child (should be 'a')
    let left = tree.left.as_ref().unwrap();
    assert_eq!(left.freq, 3);
    assert_eq!(left.value, Some(b'a'));

    // Check right child (should be a subtree)
    let right = tree.right.as_ref().unwrap();
    assert_eq!(right.freq, 3);
    assert_eq!(right.value, None);

    // Check right subtree
    let right_left = right.left.as_ref().unwrap();
    let right_right = right.right.as_ref().unwrap();

    assert_eq!(right_left.freq, 2);
    assert_eq!(right_right.freq, 1);
    assert_eq!(right_left.value, Some(b'b'));
    assert_eq!(right_right.value, Some(b'c'));
}

#[test]
fn test_generate_codes() {
    let mut freq_map = HashMap::new();
    freq_map.insert(b'a', 3);
    freq_map.insert(b'b', 2);
    freq_map.insert(b'c', 1);

    let tree = build_huffman_tree(&freq_map).unwrap();
    let codes = generate_codes(&tree);

    assert_eq!(codes.len(), 3);
    assert!(codes.contains_key(&b'a'));
    assert!(codes.contains_key(&b'b'));
    assert!(codes.contains_key(&b'c'));

    // Check that no code is a prefix of another
    for (&b1, code1) in &codes {
        for (&b2, code2) in &codes {
            if b1 != b2 {
                assert!(!is_prefix(code1, code2));
                assert!(!is_prefix(code2, code1));
            }
        }
    }

    // Check that the more frequent character has a shorter or equal-length code
    assert!(codes[&b'a'].len() <= codes[&b'b'].len());
    assert!(codes[&b'b'].len() <= codes[&b'c'].len());
}

#[test]
fn test_encode_decode_file() {
    let content = b"hello huffman coding";
    let encoded = compress(content).unwrap();
    let decoded_content = decompress(&encoded).unwrap();
    assert_eq!(decoded_content, content);
}

#[test]
fn test_encoded_file_header() {
    let encoded = compress(b"hello huffman").unwrap();
    let end = encoded.iter().position(|&c| c == b'\n').unwrap();
    let header = String::from_utf8(encoded[..end].to_vec()).unwrap();

    assert!(header.contains("104:2")); // 'h'
    assert!(header.contains("101:1")); // 'e'
    assert!(header.contains("108:2")); // 'l'
    assert!(header.contains("111:1")); // 'o'
    assert!(header.contains("32:1")); // ' '
    assert!(header.contains("117:1")); // 'u'
    assert!(header.contains("102:2")); // 'f'
    assert!(header.contains("109:1")); // 'm'
    assert!(header.contains("97:1")); // 'a'
    assert!(header.contains("110:1")); // 'n'
}

#[test]
fn count_frequencies_of_empty_input_is_empty() {
    assert!(count_frequencies(b"").is_empty());
}

#[test]
fn count_frequencies_adds_up_to_the_length() {
    let input = b"the quick brown fox jumps over the lazy dog";
    let freq_map = count_frequencies(input);
    assert_eq!(freq_map.values().sum::<usize>(), input.len());
    assert_eq!(total_count(&freq_map), Some(input.len()));
    assert_eq!(freq_map.get(&b'o'), Some(&4));
    assert_eq!(freq_map.get(&b'!'), None);
}

#[test]
fn total_count_reports_overflow() {
    let freq_map = table(&[(1, usize::MAX), (2, 1)]);
    assert_eq!(total_count(&freq_map), None);
    let freq_map = table(&[(1, usize::MAX - 1), (2, 1)]);
    assert_eq!(total_count(&freq_map), Some(usize::MAX));
}

#[test]
fn build_huffman_tree_refuses_an_empty_table() {
    let freq_map: HashMap<u8, usize> = HashMap::new();
    assert_eq!(build_huffman_tree(&freq_map).err(), Some(HuffmanError::EmptyInput));
}

#[test]
fn build_huffman_tree_of_one_entry_is_a_leaf() {
    let tree = build_huffman_tree(&table(&[(65, 1000)])).unwrap();
    assert_eq!(tree.freq, 1000);
    assert_eq!(tree.value, Some(65));
    assert!(tree.left.is_none());
    assert!(tree.right.is_none());
}

#[test]
fn build_huffman_tree_breaks_ties_by_byte_value() {
    // Four leaves of equal frequency: the two smallest byte values are merged
    // first, the smaller of them as the right child.
    let tree = build_huffman_tree(&table(&[(4, 1), (3, 1), (2, 1), (1, 1)])).unwrap();
    assert_eq!(tree.freq, 4);
    let left = tree.left.as_ref().unwrap();
    let right = tree.right.as_ref().unwrap();
    // The node made last is merged first, as the right child.
    assert_eq!(right.left.as_ref().unwrap().value, Some(4));
    assert_eq!(right.right.as_ref().unwrap().value, Some(3));
    assert_eq!(left.left.as_ref().unwrap().value, Some(2));
    assert_eq!(left.right.as_ref().unwrap().value, Some(1));
}

#[test]
fn build_huffman_tree_puts_an_internal_node_before_a_leaf_of_equal_frequency() {
    // b and c merge into a node of frequency 2, equal to the leaf a.
    let tree = build_huffman_tree(&table(&[(b'a', 2), (b'b', 1), (b'c', 1), (b'd', 5)])).unwrap();
    assert_eq!(tree.freq, 9);
    let inner = tree.right.as_ref().unwrap();
    assert_eq!(tree.left.as_ref().unwrap().value, Some(b'd'));
    assert_eq!(inner.freq, 4);
    assert_eq!(inner.left.as_ref().unwrap().value, Some(b'a'));
    let first = inner.right.as_ref().unwrap();
    assert_eq!(first.value, None);
    assert_eq!(first.left.as_ref().unwrap().value, Some(b'c'));
    assert_eq!(first.right.as_ref().unwrap().value, Some(b'b'));
}

#[test]
fn build_huffman_tree_is_deterministic() {
    let mut forward = HashMap::new();
    let mut backward = HashMap::new();
    for byte in 0..=255u8 {
        forward.insert(byte, (byte as usize % 7) + 1);
    }
    for byte in (0..=255u8).rev() {
        backward.insert(byte, (byte as usize % 7) + 1);
    }
    let first = generate_codes(&build_huffman_tree(&forward).unwrap());
    let second = generate_codes(&build_huffman_tree(&backward).unwrap());
    assert_eq!(first, second);
    assert_eq!(first.len(), 256);
}

#[test]
fn generate_codes_follows_the_tree() {
    let tree = build_huffman_tree(&table(&[(b'a', 3), (b'b', 2), (b'c', 1)])).unwrap();
    let codes = generate_codes(&tree);
    assert_eq!(codes[&b'a'], vec![false]);
    assert_eq!(codes[&b'b'], vec![true, false]);
    assert_eq!(codes[&b'c'], vec![true, true]);
}

#[test]
fn generate_codes_gives_a_single_leaf_one_bit() {
    let tree = build_huffman_tree(&table(&[(65, 1000)])).unwrap();
    let codes = generate_codes(&tree);
    assert_eq!(codes.len(), 1);
    assert_eq!(codes[&65], vec![false]);
}

#[test]
fn generate_codes_prefers_the_left_leaf_of_a_repeated_byte() {
    let leaf = |value: u8| Node { freq: 1, value: Some(value), left: None, right: None };
    let tree = Node {
        freq: 2,
        value: None,
        left: Some(Box::new(leaf(7))),
        right: Some(Box::new(leaf(7))),
    };
    let codes = generate_codes(&tree);
    assert_eq!(codes.len(), 1);
    assert_eq!(codes[&7], vec![false]);
}

#[test]
fn generate_codes_is_prefix_free_on_the_full_alphabet() {
    let mut freq_map = HashMap::new();
    for byte in 0..=255u8 {
        freq_map.insert(byte, (byte as usize * 37) % 101);
    }
    let codes = generate_codes(&build_huffman_tree(&freq_map).unwrap());
    assert_eq!(codes.len(), 256);
    for (&b1, code1) in &codes {
        for (&b2, code2) in &codes {
            if b1 != b2 {
                assert!(!is_prefix(code1, code2));
            }
        }
    }
}

#[test]
fn codes_are_optimal_on_small_tables() {
    // Known optimal weighted lengths.
    let cases: [(&[(u8, usize)], usize); 5] = [
        (&[(1, 5), (2, 2), (3, 2), (4, 1), (5, 1)], 23),
        (&[(1, 1), (2, 1)], 2),
        (&[(1, 1), (2, 1), (3, 1), (4, 1)], 8),
        (&[(1, 45), (2, 13), (3, 12), (4, 16), (5, 9), (6, 5)], 224),
        (&[(1, 1), (2, 2), (3, 4), (4, 8), (5, 16)], 56),
    ];
    for (entries, expected) in cases {
        let freq_map = table(entries);
        let codes = generate_codes(&build_huffman_tree(&freq_map).unwrap());
        assert_eq!(cost(&codes, &freq_map), expected);
    }
}

#[test]
fn bit_writer_packs_most_significant_bit_first() {
    let mut writer = BitWriter::new(Vec::new());
    for bit in [true, false, true, false, false, false, false, true] {
        writer.write_bit(bit);
    }
    writer.write_bit(true);
    writer.write_bit(true);
    writer.flush();
    assert_eq!(writer.into_inner(), vec![0b1010_0001, 0b1100_0000]);
}

#[test]
fn bit_writer_sends_a_byte_on_the_eighth_bit() {
    let mut writer = BitWriter::new(vec![0xAB]);
    for _ in 0..7 {
        writer.write_bit(true);
    }
    writer.write_bit(false);
    assert_eq!(writer.into_inner(), vec![0xAB, 0xFE]);
}

#[test]
fn bit_writer_flush_of_an_empty_buffer_writes_nothing() {
    let mut writer = BitWriter::new(Vec::new());
    writer.flush();
    assert_eq!(writer.into_inner(), Vec::<u8>::new());
    let mut writer = BitWriter::new(Vec::new());
    for _ in 0..8 {
        writer.write_bit(true);
    }
    writer.flush();
    writer.flush();
    assert_eq!(writer.into_inner(), vec![0xFF]);
}

#[test]
fn bit_reader_reads_most_significant_bit_first() {
    let bytes = [0b1010_0001u8, 0b1100_0000u8];
    let mut reader = BitReader::new(&bytes);
    let mut bits = Vec::new();
    while let Some(bit) = reader.read_bit() {
        bits.push(bit);
    }
    let expected = [
        true, false, true, false, false, false, false, true, true, true, false, false, false,
        false, false, false,
    ];
    assert_eq!(bits, expected);
    assert_eq!(reader.read_bit(), None);
}

#[test]
fn bit_reader_of_no_bytes_is_at_the_end() {
    let mut reader = BitReader::new(&[]);
    assert_eq!(reader.read_bit(), None);
}

#[test]
fn bits_written_are_read_back() {
    let bits: Vec<bool> = (0..77).map(|i| (i * i) % 3 == 1).collect();
    let mut writer = BitWriter::new(Vec::new());
    for &bit in &bits {
        writer.write_bit(bit);
    }
    writer.flush();
    let bytes = writer.into_inner();
    assert_eq!(bytes.len(), 10);
    let mut reader = BitReader::new(&bytes);
    for &bit in &bits {
        assert_eq!(reader.read_bit(), Some(bit));
    }
    for _ in 0..3 {
        assert_eq!(reader.read_bit(), Some(false));
    }
    assert_eq!(reader.read_bit(), None);
}

#[test]
fn serialize_header_writes_entries_in_ascending_order() {
    let freq_map = count_frequencies(b"abracadabra");
    assert_eq!(serialize_header(&freq_map), b"97:5,98:2,99:1,100:1,114:2,".to_vec());
    assert_eq!(serialize_header(&HashMap::new()), Vec::<u8>::new());
    assert_eq!(
        serialize_header(&table(&[(0, 0), (255, 1234567890)])),
        b"0:0,255:1234567890,".to_vec()
    );
}

#[test]
fn parse_header_reads_entries() {
    let freq_map = parse_header(b"97:5,98:2,99:1,100:1,114:2,").unwrap();
    assert_eq!(freq_map, count_frequencies(b"abracadabra"));
    // The comma of the last entry may be missing.
    assert_eq!(parse_header(b"97:5,98:2").unwrap(), table(&[(97, 5), (98, 2)]));
    // Leading zeros are read.
    assert_eq!(parse_header(b"007:010,").unwrap(), table(&[(7, 10)]));
    // The last entry for a byte value counts.
    assert_eq!(parse_header(b"7:1,7:2,").unwrap(), table(&[(7, 2)]));
    assert_eq!(parse_header(b"").unwrap(), HashMap::new());
}

#[test]
fn parse_header_refuses_malformed_text() {
    let malformed: [&[u8]; 14] = [
        b"97:abc,",
        b"abc:5,",
        b"97:5,,",
        b",",
        b"97",
        b"97:",
        b":5",
        b"97:5:3,",
        b"256:1,",
        b"97:-1,",
        b"97:+1,",
        b" 97:5,",
        b"97:5,\n",
        b"1:99999999999999999999999999999999999999999,",
    ];
    for text in malformed {
        assert_eq!(parse_header(text).err(), Some(HuffmanError::MalformedHeader));
    }
}

#[test]
fn parse_header_reads_the_largest_count() {
    let text = format!("1:{},", usize::MAX);
    assert_eq!(parse_header(text.as_bytes()).unwrap(), table(&[(1, usize::MAX)]));
}

#[test]
fn header_round_trip() {
    let mut freq_map = HashMap::new();
    for byte in 0..=255u8 {
        if byte % 3 != 0 {
            freq_map.insert(byte, (byte as usize) * 1_000_003 % 65_537);
        }
    }
    assert_eq!(parse_header(&serialize_header(&freq_map)).unwrap(), freq_map);
}

#[test]
fn encode_symbols_refuses_a_byte_without_code() {
    let codes = generate_codes(&build_huffman_tree(&table(&[(1, 1), (2, 1)])).unwrap());
    assert_eq!(encode_symbols(&codes, &[1, 2, 3]).err(), Some(HuffmanError::Encoding));
    assert_eq!(encode_symbols(&codes, &[2, 1, 1]).unwrap(), vec![0b0110_0000]);
}

#[test]
fn decode_symbols_stops_at_the_count() {
    let tree = build_huffman_tree(&table(&[(1, 1), (2, 1)])).unwrap();
    // Code of 1 is 1 and of 2 is 0: the packed zeros would decode to more 2s.
    assert_eq!(decode_symbols(&tree, &[0b1010_0000], 3), vec![1, 2, 1]);
    assert_eq!(decode_symbols(&tree, &[0b1010_0000], 8), vec![1, 2, 1, 2, 2, 2, 2, 2]);
    assert_eq!(decode_symbols(&tree, &[0b1010_0000], 0), Vec::<u8>::new());
    // The end of the bits ends the output.
    assert_eq!(decode_symbols(&tree, &[0b1010_0000], 100).len(), 8);
}

#[test]
fn abracadabra_is_encoded_and_decoded() {
    let input = b"abracadabra";
    let (header, packed) = encode(input).unwrap();
    assert_eq!(header, b"97:5,98:2,99:1,100:1,114:2,".to_vec());
    let freq_map = count_frequencies(input);
    let codes = generate_codes(&build_huffman_tree(&freq_map).unwrap());
    assert!(codes[&b'a'].len() <= 2);
    assert!(codes[&b'a'].len() <= codes[&b'c'].len());
    assert!(codes[&b'a'].len() <= codes[&b'd'].len());
    assert_eq!(cost(&codes, &freq_map), 23);
    assert_eq!(packed.len(), 3);
    assert_eq!(decode(&header, &packed).unwrap(), input.to_vec());
}

#[test]
fn single_repeated_byte_is_encoded_and_decoded() {
    let input = vec![65u8; 1000];
    let (header, packed) = encode(&input).unwrap();
    assert_eq!(header, b"65:1000,".to_vec());
    assert_eq!(packed, vec![0u8; 125]);
    assert_eq!(decode(&header, &packed).unwrap(), input);
}

#[test]
fn empty_input_is_refused() {
    assert_eq!(encode(b"").err(), Some(HuffmanError::EmptyInput));
    assert_eq!(compress(b"").err(), Some(HuffmanError::EmptyInput));
}

#[test]
fn non_numeric_count_is_refused() {
    assert_eq!(decode(b"97:abc,", &[]).err(), Some(HuffmanError::MalformedHeader));
    assert_eq!(decompress(b"97:abc,\n\x00").err(), Some(HuffmanError::MalformedHeader));
}

#[test]
fn decode_refuses_a_header_without_entries() {
    assert_eq!(decode(b"", &[0]).err(), Some(HuffmanError::EmptyInput));
    assert_eq!(decompress(b"\n").err(), Some(HuffmanError::EmptyInput));
}

#[test]
fn decode_refuses_counts_that_do_not_fit() {
    let header = format!("1:{},2:1,", usize::MAX);
    assert_eq!(decode(header.as_bytes(), &[0]).err(), Some(HuffmanError::MalformedHeader));
}

#[test]
fn decode_ends_with_the_bits() {
    // The header promises five bytes, the bits hold three codes and padding.
    assert_eq!(decode(b"1:3,2:2,", &[]).unwrap(), Vec::<u8>::new());
    assert_eq!(decode(b"1:0,", &[0xFF]).unwrap(), Vec::<u8>::new());
}

#[test]
fn round_trip_of_one_byte() {
    for byte in [0u8, 1, 10, 44, 58, 255] {
        let (header, packed) = encode(&[byte]).unwrap();
        assert_eq!(packed, vec![0]);
        assert_eq!(decode(&header, &packed).unwrap(), vec![byte]);
        assert_eq!(decompress(&compress(&[byte]).unwrap()).unwrap(), vec![byte]);
    }
}

#[test]
fn round_trip_of_the_full_alphabet() {
    let mut input = Vec::new();
    for round in 0..5usize {
        for byte in 0..=255u8 {
            for _ in 0..(byte as usize % (round + 2)) + 1 {
                input.push(byte);
            }
        }
    }
    let (header, packed) = encode(&input).unwrap();
    assert_eq!(decode(&header, &packed).unwrap(), input);
    assert_eq!(decompress(&compress(&input).unwrap()).unwrap(), input);
}

#[test]
fn round_trip_of_line_feeds() {
    let input = b"\n\n,:\n0123\n".to_vec();
    assert_eq!(decompress(&compress(&input).unwrap()).unwrap(), input);
}

#[test]
fn compress_frames_header_and_bits() {
    let data = compress(b"aab").unwrap();
    assert_eq!(data, b"97:2,98:1,\n\x20".to_vec());
    // Without a line feed all of the data is header.
    assert_eq!(decompress(b"97:2,98:1,").unwrap(), Vec::<u8>::new());
}

#[test]
fn nodes_sort_by_frequency_then_kind_then_byte() {
    let leaf = |freq: usize, value: u8| Node { freq, value: Some(value), left: None, right: None };
    let inner = |freq: usize| Node {
        freq,
        value: None,
        left: Some(Box::new(leaf(0, 0))),
        right: Some(Box::new(leaf(freq, 1))),
    };
    assert!(leaf(1, 200).sorts_before(&leaf(2, 100)));
    assert!(!leaf(2, 100).sorts_before(&leaf(1, 200)));
    assert!(leaf(2, 100).sorts_before(&leaf(2, 200)));
    assert!(!leaf(2, 200).sorts_before(&leaf(2, 200)));
    assert!(inner(2).sorts_before(&leaf(2, 0)));
    assert!(!leaf(2, 0).sorts_before(&inner(2)));
    assert!(!inner(2).sorts_before(&inner(2)));
    assert!(inner(1).sorts_before(&inner(2)));
}

#[test]
fn codes_need_no_more_bits_than_a_fixed_length_code() {
    for size in [2usize, 4, 8, 16, 32, 64, 128, 256] {
        let mut freq_map = HashMap::new();
        for byte in 0..size {
            freq_map.insert(byte as u8, (byte * byte + 3 * byte) % 17 + 1);
        }
        let codes = generate_codes(&build_huffman_tree(&freq_map).unwrap());
        let total: usize = freq_map.values().sum();
        let width = size.trailing_zeros() as usize;
        assert!(cost(&codes, &freq_map) <= width * total);
    }
}

#[test]
fn decode_drops_a_code_that_the_bits_cut_short() {
    // Codes: a is 0, b is 10, c is 11. The bits end in the middle of a code.
    let packed = encode_symbols(
        &generate_codes(&build_huffman_tree(&table(&[(b'a', 3), (b'b', 2), (b'c', 1)])).unwrap()),
        b"cbcbcbcb",
    )
    .unwrap();
    assert_eq!(packed, vec![0b1110_1110, 0b1110_1110]);
    assert_eq!(decode(b"97:3,98:2,99:1,", &packed[..1]).unwrap(), b"cbcb".to_vec());
    assert_eq!(decode(b"97:300,98:2,99:1,", &[0b1110_1101]).unwrap(), b"cbca".to_vec());
}
