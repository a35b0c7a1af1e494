//! A self-describing Huffman compression codec. `encode` turns a byte buffer
//! into a single bitstream that carries its own tree ahead of the payload;
//! `decode` rebuilds the tree from that header and walks it bit by bit until
//! the end-of-message leaf.
pub mod bits;
pub mod tree;
pub mod builder;
pub mod serial;
pub mod codec;

use vstd::prelude::*;
use crate::bits::{
    bit_seq, bytes_to_bits, max_bits, bits_len, bits_push, bits_extend, bits_into_bytes,
    bits_from_bytes,
};
use crate::tree::{
    Node, Tree, HuffmanValue, header_bits, payload_bits, encodable, num_eom, num_val, leaves,
    decode_msg, bits_at, lemma_leaves_nonempty, lemma_bits_at_concat,
};
use crate::serial::{
    header_parses, valid_header, lemma_header_of_serialized, lemma_header_unique,
    lemma_shape_bits_len, lemma_values_bits_len,
};
use crate::codec::{lemma_decode_payload, lemma_payload_len};
use crate::builder::leaf_multiplicity;

verus! {

/// The two failure kinds of the codec.
#[derive(Debug)]
pub enum Error {
    /// No data was provided to the encoding or decoding function.
    NoData,
    /// The Huffman tree could not be decoded from the provided data. Maybe
    /// this data was not produced by this codec?
    FailedToDecodeHuffmanTree,
}

/// The zero bits that fill the last byte of the stream.
pub open spec fn pad_len(n: int) -> int {
    if n % 8 == 0 {
        0
    } else {
        8 - n % 8
    }
}

/// The bit stream that `encode` emits for `msg` through tree `t`: the
/// serialized tree, the payload, and zero bits up to a byte boundary.
pub open spec fn encoded_bits(t: Tree, msg: Seq<u8>) -> Seq<bool> {
    let full = header_bits(t) + payload_bits(t, msg);
    full + Seq::new(pad_len(full.len() as int) as nat, |m: int| false)
}

/// A tree that the builder may produce for `msg`: it encodes every byte of
/// the message and the terminator, and its leaf values are exactly the
/// message's distinct byte values, each on one leaf, plus exactly one
/// end-of-message leaf — so it has at most 257 leaves. The arrangement of
/// the leaves is the builder's own (the greedy merge breaks weight ties
/// freely), so `encode`'s contract quantifies over it.
pub open spec fn built_tree_ok(t: Tree, msg: Seq<u8>) -> bool {
    &&& encodable(t, msg)
    &&& num_eom(t) == 1
    &&& leaves(t).len() <= 257
    &&& forall|v: HuffmanValue| #[trigger] num_val(t, v) == leaf_multiplicity(msg, v)
}

/// Compresses a byte buffer into a self-contained bitstream: the tree built
/// from the buffer's byte frequencies, serialized, then one codeword per
/// byte and the terminator codeword, zero-padded to whole bytes. An empty
/// buffer is refused with `NoData`; nothing else fails.
pub fn encode(bytes: &[u8]) -> (r: Result<Vec<u8>, Error>)
    requires
        257 * (bytes@.len() + 1) + 2848 <= max_bits(),
    ensures
        match r {
            Ok(out) => bytes@.len() > 0 && exists|t: Tree|
                #[trigger] built_tree_ok(t, bytes@) && bytes_to_bits(out@) == encoded_bits(
                    t,
                    bytes@,
                ),
            Err(e) => e == Error::NoData && bytes@.len() == 0,
        },
{
    if bytes.len() == 0 {
        return Err(Error::NoData);
    }
    let tree = Node::tree_for_message(bytes);
    let ghost t = tree@;
    let ghost nmsg = bytes@.len() as int;
    let ghost ll = leaves(t).len() as int;
    proof {
        lemma_leaves_nonempty(t);
        lemma_shape_bits_len(t);
        lemma_values_bits_len(leaves(t));
        assert(header_bits(t).len() == 11 * ll - 1);
        assert(11 * ll <= 11 * 257) by (nonlinear_arith)
            requires
                ll <= 257,
        ;
        assert(ll * (nmsg + 1) <= 257 * (nmsg + 1)) by (nonlinear_arith)
            requires
                ll <= 257,
                nmsg >= 0,
        ;
    }
    let mut bits = tree.serialize();
    let message = tree.encode(bytes);
    proof {
        lemma_payload_len(t, bytes@);
        assert((ll - 1) * (nmsg + 1) <= 256 * (nmsg + 1)) by (nonlinear_arith)
            requires
                1 <= ll <= 257,
                nmsg >= 0,
        ;
        assert(256 * (nmsg + 1) <= 257 * (nmsg + 1)) by (nonlinear_arith)
            requires
                nmsg >= 0,
        ;
    }
    bits_extend(&mut bits, &message);
    let ghost full = header_bits(t) + payload_bits(t, bytes@);
    let mut len = bits_len(&bits);
    proof {
        assert((full.len() + pad_len(full.len() as int)) % 8 == 0);
    }
    while len % 8 != 0
        invariant
            len == bit_seq(bits).len(),
            full.len() <= len <= full.len() + pad_len(full.len() as int),
            (full.len() + pad_len(full.len() as int)) % 8 == 0,
            forall|m: int|
                0 <= m < bit_seq(bits).len() ==> bit_seq(bits)[m] == (if m < full.len() {
                    full[m]
                } else {
                    false
                }),
            full.len() + 8 <= max_bits(),
        decreases full.len() + pad_len(full.len() as int) - len,
    {
        bits_push(&mut bits, false);
        len += 1;
    }
    proof {
        let p = bit_seq(bits).len() - full.len();
        assert(p == pad_len(full.len() as int));
        assert(bit_seq(bits) =~= encoded_bits(t, bytes@));
    }
    let ghost stream = bit_seq(bits);
    let out = bits_into_bytes(bits);
    proof {
        assert(bytes_to_bits(out@) =~= stream);
        assert(built_tree_ok(t, bytes@));
    }
    Ok(out)
}

/// Decompresses a stream produced by `encode`: rebuilds the tree from the
/// header and walks it bit by bit, stopping at the end-of-message leaf (any
/// padding after it is never read) or, leniently, at the end of a truncated
/// payload. An empty buffer is refused with `NoData`; a buffer whose front
/// is no valid serialized tree, with `FailedToDecodeHuffmanTree`.
pub fn decode(bytes: &[u8]) -> (r: Result<Vec<u8>, Error>)
    requires
        bytes@.len() * 8 <= max_bits(),
    ensures
        match r {
            Ok(out) => bytes@.len() > 0 && exists|t: Tree, j: int|
                #[trigger] header_parses(bytes_to_bits(bytes@), t, j) && out@ == decode_msg(
                    t,
                    bytes_to_bits(bytes@),
                    j,
                ),
            Err(Error::NoData) => bytes@.len() == 0,
            Err(Error::FailedToDecodeHuffmanTree) => bytes@.len() > 0 && !valid_header(
                bytes_to_bits(bytes@),
            ),
        },
{
    if bytes.len() == 0 {
        return Err(Error::NoData);
    }
    let bits = bits_from_bytes(bytes);
    proof {
        assert(bit_seq(bits) =~= bytes_to_bits(bytes@));
    }
    match Node::deserialize(&bits) {
        Some((tree, start)) => {
            let out = tree.decode(&bits, start);
            proof {
                assert(header_parses(bytes_to_bits(bytes@), tree@, start as int));
            }
            Ok(out)
        },
        None => Err(Error::FailedToDecodeHuffmanTree),
    }
}

/// Round trip: the bit stream that `encode` emits for a non-empty message —
/// header, payload and zero padding — carries a valid header that parses
/// back to the built tree, and every parse of that stream decodes to exactly
/// the original message.
pub proof fn lemma_round_trip(t: Tree, msg: Seq<u8>, s: Seq<bool>)
    requires
        msg.len() > 0,
        built_tree_ok(t, msg),
        s == encoded_bits(t, msg),
    ensures
        header_parses(s, t, header_bits(t).len() as int),
        forall|t2: Tree, j2: int|
            #[trigger] header_parses(s, t2, j2) ==> decode_msg(t2, s, j2) == msg,
{
    let hl = header_bits(t).len() as int;
    let full = header_bits(t) + payload_bits(t, msg);
    let pad = Seq::new(pad_len(full.len() as int) as nat, |m: int| false);
    assert(s =~= header_bits(t) + (payload_bits(t, msg) + pad));
    assert(bits_at(s, 0, header_bits(t) + (payload_bits(t, msg) + pad)));
    lemma_bits_at_concat(s, 0, header_bits(t), payload_bits(t, msg) + pad);
    lemma_header_of_serialized(t, s);
    lemma_bits_at_concat(s, hl, payload_bits(t, msg), pad);
    lemma_decode_payload(t, msg, s, hl);
    assert forall|t2: Tree, j2: int| #[trigger] header_parses(s, t2, j2) implies decode_msg(
        t2,
        s,
        j2,
    ) == msg by {
        lemma_header_unique(s, t2, j2, t, hl);
    }
}

} // verus!
