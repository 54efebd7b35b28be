use crate::bitstream::{pack, unpack, BitReader, BitWriter};
use crate::codes::{code_table, code_view, generate_codes};
use crate::error::HuffmanError;
use crate::frequency::{count_frequencies, frequency_table, table_total, total_count};
use crate::header::{
    find_byte, header_text, index_of, lemma_index_of_bounds, parse_header, parse_header_text,
    serialize_header,
};
use crate::round_trip::{lemma_file_round_trip, lemma_input_is_coded, lemma_round_trip};
use crate::tree::{build_huffman_tree, huffman_tree, Node};
use std::collections::HashMap;
use vstd::prelude::*;

verus! {

broadcast use vstd::std_specs::hash::group_hash_axioms;

/// Whether every byte of `input` has a code in `codes`.
pub open spec fn all_coded(codes: Map<u8, Seq<bool>>, input: Seq<u8>) -> bool {
    forall|i: int| 0 <= i < input.len() ==> codes.contains_key(#[trigger] input[i])
}

/// The codes of the bytes of `input`, one after the other.
pub open spec fn encode_bits(codes: Map<u8, Seq<bool>>, input: Seq<u8>) -> Seq<bool>
    decreases input.len(),
{
    if input.len() == 0 {
        Seq::empty()
    } else {
        encode_bits(codes, input.drop_last()) + codes[input.last()]
    }
}

/// The node that the decoder goes to from `node` on reading `bit`: the left
/// child for zero and the right child for one. It stays where there is no
/// such child.
pub open spec fn descend(node: Node, bit: bool) -> Node {
    let child = if bit {
        node.right
    } else {
        node.left
    };
    match child {
        Some(next) => *next,
        None => node,
    }
}

/// The bytes that the decoder emits when it stands at `current` in the tree
/// `root` and has `bits` to read and `limit` bytes still to emit. It goes
/// down one node for each bit; on reaching a node that holds a byte it emits
/// the byte and starts again at the root. It stops when `limit` bytes are
/// out or the bits are used up, whichever comes first.
pub open spec fn walk(root: Node, current: Node, bits: Seq<bool>, limit: nat) -> Seq<u8>
    decreases bits.len(),
{
    if limit == 0 || bits.len() == 0 {
        Seq::empty()
    } else {
        let next = descend(current, bits[0]);
        match next.value {
            Some(byte) => seq![byte] + walk(root, root, bits.skip(1), (limit - 1) as nat),
            None => walk(root, next, bits.skip(1), limit),
        }
    }
}

/// The bytes that `bits` decode to in the tree `root`, at most `limit` of
/// them.
pub open spec fn decode_bits(root: Node, bits: Seq<bool>, limit: nat) -> Seq<u8> {
    walk(root, root, bits, limit)
}

/// What encoding makes of `input`: the header text of its frequency table,
/// and the packed codes of its bytes in the code table of its Huffman tree.
pub open spec fn encoded(input: Seq<u8>) -> (Seq<u8>, Seq<u8>) {
    let table = frequency_table(input);
    (header_text(table), pack(encode_bits(code_table(huffman_tree(table)), input)))
}

/// What decoding makes of a header text and packed bits.
///
/// The header must be well formed, hold an entry, and its counts together must
/// fit the machine's word. Then the bits are walked through the Huffman tree of
/// the header's table until as many bytes are out as the counts add up to, so
/// that the zeros that fill the last byte are never taken for codes.
pub open spec fn decoded(header: Seq<u8>, packed: Seq<u8>) -> Result<Seq<u8>, HuffmanError> {
    match parse_header_text(header) {
        None => Err(HuffmanError::MalformedHeader),
        Some(table) => if forall|byte: u8| !table.contains_key(byte) {
            Err(HuffmanError::EmptyInput)
        } else if table_total(table) > usize::MAX {
            Err(HuffmanError::MalformedHeader)
        } else {
            Ok(decode_bits(huffman_tree(table), unpack(packed), table_total(table)))
        },
    }
}

/// The byte that ends the header line of an encoded file.
pub const LINE_FEED: u8 = 10;

/// The encoded file: the header text, a line feed, and the packed bits.
pub open spec fn framed(header: Seq<u8>, packed: Seq<u8>) -> Seq<u8> {
    header.push(LINE_FEED) + packed
}

/// The header text of an encoded file: what stands before the first line
/// feed, or all of it if there is none.
pub open spec fn header_part(data: Seq<u8>) -> Seq<u8> {
    data.take(index_of(data, LINE_FEED))
}

/// The packed bits of an encoded file: what stands behind the first line feed.
pub open spec fn packed_part(data: Seq<u8>) -> Seq<u8> {
    let at = index_of(data, LINE_FEED);
    if at < data.len() {
        data.skip(at + 1)
    } else {
        Seq::empty()
    }
}

/// Writes the code of each byte of `input` through a bit writer and gives the
/// packed bytes, the last filled up with zeros. Fails if a byte of `input`
/// has no code, and then gives no output at all.
pub fn encode_symbols(codes: &HashMap<u8, Vec<bool>>, input: &[u8]) -> (packed: Result<
    Vec<u8>,
    HuffmanError,
>)
    ensures
        all_coded(code_view(codes@), input@) ==> (packed matches Ok(bytes) && bytes@ == pack(
            encode_bits(code_view(codes@), input@),
        )),
        !all_coded(code_view(codes@), input@) ==> (packed matches Err(e) && e
            == HuffmanError::Encoding),
{
    let ghost table = code_view(codes@);
    let mut bit_writer = BitWriter::new(Vec::new());
    proof {
        assert(unpack(Seq::<u8>::empty()) =~= Seq::<bool>::empty());
        assert(input@.take(0) =~= Seq::<u8>::empty());
    }
    let mut i: usize = 0;
    while i < input.len()
        invariant
            i <= input@.len(),
            table == code_view(codes@),
            bit_writer.well_formed(),
            all_coded(table, input@.take(i as int)),
            bit_writer@ == encode_bits(table, input@.take(i as int)),
        decreases input@.len() - i,
    {
        let byte = input[i];
        proof {
            assert(input@.take(i + 1).drop_last() =~= input@.take(i as int));
        }
        match codes.get(&byte) {
            Some(code) => {
                let ghost before = bit_writer@;
                let mut j: usize = 0;
                while j < code.len()
                    invariant
                        j <= code@.len(),
                        bit_writer.well_formed(),
                        bit_writer@ == before + code@.take(j as int),
                    decreases code@.len() - j,
                {
                    bit_writer.write_bit(code[j]);
                    proof {
                        assert(code@.take(j + 1) =~= code@.take(j as int).push(code@[j as int]));
                        assert((before + code@.take(j as int)).push(code@[j as int]) =~= before
                            + code@.take(j + 1));
                    }
                    j += 1;
                }
                proof {
                    assert(code@.take(j as int) =~= code@);
                    assert(table[byte] == code@);
                    assert forall|k: int| 0 <= k < i + 1 implies table.contains_key(
                        #[trigger] input@.take(i + 1)[k],
                    ) by {
                        if k < i {
                            assert(input@.take(i as int)[k] == input@[k]);
                        }
                    }
                }
            },
            None => {
                proof {
                    assert(!table.contains_key(input@[i as int]));
                }
                return Err(HuffmanError::Encoding);
            },
        }
        i += 1;
    }
    proof {
        assert(input@.take(i as int) =~= input@);
    }
    bit_writer.flush();
    Ok(bit_writer.into_inner())
}

/// Walks the bits of `packed` through the tree `root` and gives the bytes of
/// the leaves reached, stopping after `count` bytes or at the end of the bits.
pub fn decode_symbols(root: &Node, packed: &[u8], count: usize) -> (output: Vec<u8>)
    ensures
        output@ == decode_bits(*root, unpack(packed@), count as nat),
{
    let mut output: Vec<u8> = Vec::new();
    let mut bit_reader = BitReader::new(packed);
    let mut current: &Node = root;
    let ghost all = decode_bits(*root, unpack(packed@), count as nat);
    while output.len() < count
        invariant
            output@.len() <= count,
            bit_reader.well_formed(),
            output@ + walk(*root, *current, bit_reader@, (count - output@.len()) as nat) == all,
        ensures
            output@ == all,
        decreases bit_reader@.len(),
    {
        let ghost bits = bit_reader@;
        let ghost before = output@;
        match bit_reader.read_bit() {
            Some(false) => {
                if let Some(left) = &current.left {
                    current = left;
                }
            },
            Some(true) => {
                if let Some(right) = &current.right {
                    current = right;
                }
            },
            None => {
                proof {
                    assert(output@ + Seq::<u8>::empty() =~= output@);
                }
                break;
            },
        }
        if let Some(byte) = current.value {
            output.push(byte);
            current = root;
            proof {
                let rest = walk(*root, *root, bits.skip(1), (count - before.len() - 1) as nat);
                assert(before + (seq![byte] + rest) =~= before.push(byte) + rest);
            }
        }
    }
    proof {
        if output@.len() == count {
            assert(output@ + Seq::<u8>::empty() =~= output@);
        }
    }
    output
}

/// Encodes `input`: gives the header text that records its frequency table,
/// and its bytes coded by the Huffman tree of that table and packed into
/// bytes. Decoding the two gives `input` back. An empty input is refused.
pub fn encode(input: &[u8]) -> (result: Result<(Vec<u8>, Vec<u8>), HuffmanError>)
    ensures
        input@.len() == 0 ==> (result matches Err(e) && e == HuffmanError::EmptyInput),
        input@.len() > 0 ==> (result matches Ok(pair) && pair.0@ == encoded(input@).0 && pair.1@
            == encoded(input@).1 && decoded(pair.0@, pair.1@) == Ok::<Seq<u8>, HuffmanError>(
            input@,
        )),
{
    if input.len() == 0 {
        return Err(HuffmanError::EmptyInput);
    }
    let freq_map = count_frequencies(input);
    proof {
        assert(input@.contains(input@[0]));
        assert(freq_map@.contains_key(input@[0]));
        assert(freq_map@.dom().contains(input@[0]));
        assert(freq_map@.len() != 0);
    }
    let tree = match build_huffman_tree(&freq_map) {
        Ok(tree) => tree,
        Err(e) => {
            return Err(e);
        },
    };
    let codes = generate_codes(&tree);
    let header = serialize_header(&freq_map);
    proof {
        lemma_input_is_coded(input@);
        lemma_round_trip(input@);
    }
    match encode_symbols(&codes, input) {
        Ok(packed) => Ok((header, packed)),
        Err(e) => Err(e),
    }
}

/// Decodes what `encode` gave: reads the frequency table from `header`,
/// builds its Huffman tree, and walks the bits of `packed` through the tree
/// until as many bytes are out as the counts of the table add up to.
pub fn decode(header: &[u8], packed: &[u8]) -> (result: Result<Vec<u8>, HuffmanError>)
    ensures
        match decoded(header@, packed@) {
            Ok(bytes) => result matches Ok(output) && output@ == bytes,
            Err(error) => result matches Err(e) && e == error,
        },
{
    let freq_map = match parse_header(header) {
        Ok(freq_map) => freq_map,
        Err(e) => {
            return Err(e);
        },
    };
    proof {
        if freq_map@.len() == 0 {
            assert forall|byte: u8| !freq_map@.contains_key(byte) by {
                if freq_map@.contains_key(byte) {
                    assert(freq_map@.dom().contains(byte));
                }
            }
        } else {
            if forall|byte: u8| !freq_map@.contains_key(byte) {
                assert(freq_map@.dom() =~= Set::empty());
            }
        }
    }
    if freq_map.len() == 0 {
        return Err(HuffmanError::EmptyInput);
    }
    let total = match total_count(&freq_map) {
        Some(total) => total,
        None => {
            return Err(HuffmanError::MalformedHeader);
        },
    };
    let tree = match build_huffman_tree(&freq_map) {
        Ok(tree) => tree,
        Err(e) => {
            return Err(e);
        },
    };
    Ok(decode_symbols(&tree, packed, total))
}

/// Encodes `input` into the bytes of an encoded file: the header text, a
/// line feed, and the packed bits. Decoding the file gives `input` back. An
/// empty input is refused.
pub fn compress(input: &[u8]) -> (result: Result<Vec<u8>, HuffmanError>)
    ensures
        input@.len() == 0 ==> (result matches Err(e) && e == HuffmanError::EmptyInput),
        input@.len() > 0 ==> (result matches Ok(data) && data@ == framed(
            encoded(input@).0,
            encoded(input@).1,
        ) && decoded(header_part(data@), packed_part(data@)) == Ok::<Seq<u8>, HuffmanError>(
            input@,
        )),
{
    proof {
        if input.len() > 0 {
            lemma_file_round_trip(input@);
        }
    }
    match encode(input) {
        Ok((header, packed)) => {
            let mut data = header;
            let mut packed = packed;
            data.push(LINE_FEED);
            data.append(&mut packed);
            Ok(data)
        },
        Err(e) => Err(e),
    }
}

/// Decodes the bytes of an encoded file: the header text is what stands
/// before the first line feed, the packed bits what stands behind it.
pub fn decompress(data: &[u8]) -> (result: Result<Vec<u8>, HuffmanError>)
    ensures
        match decoded(header_part(data@), packed_part(data@)) {
            Ok(bytes) => result matches Ok(output) && output@ == bytes,
            Err(error) => result matches Err(e) && e == error,
        },
{
    let at = find_byte(data, 0, data.len(), LINE_FEED);
    proof {
        assert(data@.subrange(0, data@.len() as int) =~= data@);
        lemma_index_of_bounds(data@, LINE_FEED);
    }
    let header = &data[0..at];
    let packed = if at < data.len() {
        &data[at + 1..data.len()]
    } else {
        &data[at..at]
    };
    proof {
        assert(header@ =~= header_part(data@));
        assert(packed@ =~= packed_part(data@));
    }
    decode(header, packed)
}

} // verus!
