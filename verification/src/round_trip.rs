use crate::bitstream::{lemma_unpack_pack, padding, zeros};
use crate::codec::{
    all_coded, decode_bits, decoded, descend, encode_bits, encoded, framed, header_part,
    packed_part, walk, LINE_FEED,
};
use crate::error::HuffmanError;
use crate::codes::{
    child_paths, code_table, lemma_code_table_domain, lemma_paths_extend_prefix, paths,
};
use crate::frequency::{
    frequency_table, lemma_frequency_table_total, lemma_occurrences_positive,
};
use crate::header::{
    is_header_byte, lemma_header_alphabet, lemma_header_round_trip,
    lemma_index_of_found,
};
use crate::tree::{huffman_tree, lemma_huffman_tree_is_tree_for, Node};
use vstd::prelude::*;

verus! {

/// Every byte of an input has a code in the code table of the input's
/// Huffman tree.
pub proof fn lemma_input_is_coded(input: Seq<u8>)
    requires
        0 < input.len() <= usize::MAX,
    ensures
        all_coded(code_table(huffman_tree(frequency_table(input))), input),
{
    let table = frequency_table(input);
    lemma_frequency_table_total(input);
    assert(input.contains(input[0]));
    lemma_occurrences_positive(input, input[0]);
    assert(table.contains_key(input[0]));
    lemma_huffman_tree_is_tree_for(table);
    lemma_code_table_domain(huffman_tree(table), table);
    assert forall|i: int| 0 <= i < input.len() implies code_table(huffman_tree(table)).contains_key(
        #[trigger] input[i],
    ) by {
        assert(input.contains(input[i]));
        lemma_occurrences_positive(input, input[i]);
        assert(table.dom().contains(input[i]));
    }
}

/// The codes of an input are the code of its first byte followed by the
/// codes of the rest.
pub proof fn lemma_encode_bits_first(codes: Map<u8, Seq<bool>>, input: Seq<u8>)
    requires
        input.len() > 0,
    ensures
        encode_bits(codes, input) == codes[input[0]] + encode_bits(codes, input.skip(1)),
    decreases input.len(),
{
    if input.len() == 1 {
        assert(input.drop_last() =~= Seq::<u8>::empty());
        assert(input.skip(1) =~= Seq::<u8>::empty());
        assert(encode_bits(codes, input) =~= codes[input[0]] + encode_bits(codes, input.skip(1)));
    } else {
        lemma_encode_bits_first(codes, input.drop_last());
        assert(input.drop_last().skip(1) =~= input.skip(1).drop_last());
        assert(encode_bits(codes, input) =~= codes[input[0]] + encode_bits(codes, input.skip(1)));
    }
}

/// From a node without a byte, the bits that the code of `byte` adds to the
/// path of the node lead the decoder to a leaf that holds `byte`: it emits
/// `byte` and goes on at the root with the bits that follow.
pub proof fn lemma_walk_follows_path(
    root: Node,
    node: Node,
    prefix: Seq<bool>,
    byte: u8,
    rest: Seq<bool>,
    limit: nat,
)
    requires
        node.value is None,
        paths(node, prefix).contains_key(byte),
        limit > 0,
    ensures
        walk(root, node, paths(node, prefix)[byte].skip(prefix.len() as int) + rest, limit)
            == seq![byte] + walk(root, root, rest, (limit - 1) as nat),
    decreases node,
{
    let code = paths(node, prefix)[byte];
    let bit = !child_paths(node.left, prefix.push(false)).contains_key(byte);
    let longer = prefix.push(bit);
    let child = if bit {
        node.right
    } else {
        node.left
    };
    let next = *child.unwrap();
    assert(child_paths(child, longer).contains_key(byte));
    assert(code == paths(next, longer)[byte]);
    lemma_paths_extend_prefix(next, longer, byte);
    let bits = code.skip(prefix.len() as int) + rest;
    assert(bits[0] == longer[prefix.len() as int]);
    assert(descend(node, bits[0]) == next);
    assert(bits.skip(1) =~= code.skip(longer.len() as int) + rest);
    if next.value is Some {
        assert(code.skip(longer.len() as int) + rest =~= rest);
    } else {
        lemma_walk_follows_path(root, next, longer, byte, rest, limit);
    }
}

/// At the root, the code of `byte` makes the decoder emit `byte` and go on at
/// the root with the bits that follow.
pub proof fn lemma_walk_reads_code(root: Node, byte: u8, rest: Seq<bool>, limit: nat)
    requires
        root.value is Some ==> root.left is None,
        code_table(root).contains_key(byte),
        limit > 0,
    ensures
        decode_bits(root, code_table(root)[byte] + rest, limit) == seq![byte] + decode_bits(
            root,
            rest,
            (limit - 1) as nat,
        ),
{
    if root.value is Some {
        let bits = code_table(root)[byte] + rest;
        assert(bits[0] == false);
        assert(bits.skip(1) =~= rest);
    } else {
        lemma_walk_follows_path(root, root, Seq::empty(), byte, rest, limit);
        assert(code_table(root)[byte].skip(0) =~= code_table(root)[byte]);
    }
}

/// The codes of an input, whatever bits follow them, decode to the input when
/// the decoder stops after as many bytes as the input has.
pub proof fn lemma_decode_encoded_bits(root: Node, input: Seq<u8>, tail: Seq<bool>)
    requires
        root.value is Some ==> root.left is None,
        all_coded(code_table(root), input),
    ensures
        decode_bits(root, encode_bits(code_table(root), input) + tail, input.len()) == input,
    decreases input.len(),
{
    let codes = code_table(root);
    if input.len() == 0 {
        assert(decode_bits(root, encode_bits(codes, input) + tail, 0) =~= input);
    } else {
        let rest = input.skip(1);
        lemma_encode_bits_first(codes, input);
        assert(codes.contains_key(input[0]));
        assert forall|i: int| 0 <= i < rest.len() implies codes.contains_key(
            #[trigger] rest[i],
        ) by {
            assert(rest[i] == input[i + 1]);
        }
        lemma_decode_encoded_bits(root, rest, tail);
        lemma_walk_reads_code(root, input[0], encode_bits(codes, rest) + tail, input.len());
        assert(encode_bits(codes, input) + tail =~= codes[input[0]] + (encode_bits(codes, rest)
            + tail));
        assert(seq![input[0]] + rest =~= input);
    }
}

/// Decoding what encoding made of an input gives the input back, for every
/// input of at least one byte.
pub proof fn lemma_round_trip(input: Seq<u8>)
    requires
        0 < input.len() <= usize::MAX,
    ensures
        decoded(encoded(input).0, encoded(input).1) == Ok::<Seq<u8>, HuffmanError>(input),
{
    let table = frequency_table(input);
    let root = huffman_tree(table);
    let bits = encode_bits(code_table(root), input);
    lemma_header_round_trip(table);
    lemma_frequency_table_total(input);
    assert(input.contains(input[0]));
    lemma_occurrences_positive(input, input[0]);
    assert(table.contains_key(input[0]));
    lemma_huffman_tree_is_tree_for(table);
    lemma_input_is_coded(input);
    lemma_unpack_pack(bits);
    lemma_decode_encoded_bits(root, input, zeros(padding(bits.len() as int)));
}

/// An encoded file falls apart into the header text and the packed bits it
/// was made of, as long as the header text holds no line feed.
pub proof fn lemma_unframe(header: Seq<u8>, packed: Seq<u8>)
    requires
        forall|i: int| 0 <= i < header.len() ==> header[i] != LINE_FEED,
    ensures
        header_part(framed(header, packed)) == header,
        packed_part(framed(header, packed)) == packed,
{
    let data = framed(header, packed);
    assert forall|i: int| 0 <= i < header.len() implies data[i] != LINE_FEED by {
        assert(data[i] == header[i]);
    }
    assert(data[header.len() as int] == LINE_FEED);
    lemma_index_of_found(data, LINE_FEED, header.len() as int);
    assert(data.take(header.len() as int) =~= header);
    assert(data.skip(header.len() as int + 1) =~= packed);
}

/// Decoding the encoded file of an input gives the input back, for every
/// input of at least one byte.
pub proof fn lemma_file_round_trip(input: Seq<u8>)
    requires
        0 < input.len() <= usize::MAX,
    ensures
        decoded(
            header_part(framed(encoded(input).0, encoded(input).1)),
            packed_part(framed(encoded(input).0, encoded(input).1)),
        ) == Ok::<Seq<u8>, HuffmanError>(input),
{
    let header = encoded(input).0;
    lemma_header_alphabet(frequency_table(input), 0);
    assert forall|i: int| 0 <= i < header.len() implies header[i] != LINE_FEED by {
        assert(is_header_byte(header[i]));
    }
    lemma_unframe(header, encoded(input).1);
    lemma_round_trip(input);
}

} // verus!
