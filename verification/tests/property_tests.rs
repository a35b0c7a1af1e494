//! Properties of the codec on concrete values: round trips, the empty-input
//! errors, single-distinct-byte messages, compression of skewed text,
//! padding safety and truncated-payload leniency.
use huffnpuff::{decode, encode, Error};

#[test]
fn round_trip_various_buffers() {
    let cases: Vec<Vec<u8>> = vec![
        vec![42],
        vec![0],
        vec![255],
        vec![0, 255, 3, 3, 7],
        vec![1, 2, 3, 4, 5, 6, 7, 8, 9, 10],
        b"the quick brown fox jumps over the lazy dog".to_vec(),
        (0u16..256).map(|b| b as u8).collect(),
    ];
    for case in cases {
        let encoded = encode(&case).unwrap();
        let decoded = decode(&encoded).unwrap();
        assert_eq!(decoded, case);
    }
}

#[test]
fn empty_input_both_ways() {
    let empty: Vec<u8> = vec![];
    assert!(matches!(encode(&empty), Err(Error::NoData)));
    assert!(matches!(decode(&empty), Err(Error::NoData)));
}

#[test]
fn single_distinct_byte_message() {
    let input = vec![0xAA, 0xAA, 0xAA, 0xAA, 0xAA];
    let encoded = encode(&input).unwrap();
    assert!(!encoded.is_empty());
    let decoded = decode(&encoded).unwrap();
    assert_eq!(decoded, input);
}

#[test]
fn single_distinct_byte_exact_stream() {
    // Five 0xAA bytes build the two-leaf tree: the zero-weight end-of-message
    // leaf is selected first (lighter), so it stands on the left, and the
    // Symbol(0xAA) leaf of weight five on the right; codewords EOM=0, 0xAA=1.
    let mut bits: Vec<bool> = vec![false, true, true];
    bits.push(true);
    for _ in 0..8 {
        bits.push(false);
    }
    bits.push(false);
    for k in 0..8 {
        bits.push((0xAAu8 >> k) & 1 == 1);
    }
    for _ in 0..5 {
        bits.push(true);
    }
    bits.push(false);
    for _ in 0..5 {
        bits.push(false);
    }
    let expected = pack_lsb(&bits);
    let input = [0xAA; 5];
    assert_eq!(encode(&input).unwrap(), expected);
}

#[test]
fn foreign_data_rejected() {
    let decoded = decode("Hello, world!".as_bytes());
    assert!(matches!(decoded, Err(Error::FailedToDecodeHuffmanTree)));
}

#[test]
fn short_garbage_rejected() {
    // A single 0xFF byte: the first bit claims a lone leaf, and the seven
    // remaining bits cannot hold its nine-bit value group.
    assert!(matches!(decode(&[0xFF]), Err(Error::FailedToDecodeHuffmanTree)));
    assert!(matches!(decode(&[0x00]), Err(Error::FailedToDecodeHuffmanTree)));
}

#[test]
fn compression_shrinks_skewed_text() {
    let text = "It is a truth universally acknowledged, that a single man in \
                possession of a good fortune, must be in want of a wife. \
                However little known the feelings or views of such a man may \
                be on his first entering a neighbourhood, this truth is so \
                well fixed in the minds of the surrounding families, that he \
                is considered as the rightful property of some one or other \
                of their daughters.";
    let encoded = encode(text.as_bytes()).unwrap();
    assert!(encoded.len() < text.as_bytes().len());
}

/// Packs bits in least-significant-bit-first order into bytes.
fn pack_lsb(bits: &[bool]) -> Vec<u8> {
    let mut bytes: Vec<u8> = Vec::new();
    for (i, &bit) in bits.iter().enumerate() {
        if i % 8 == 0 {
            bytes.push(0);
        }
        if bit {
            let last = bytes.len() - 1;
            bytes[last] |= 1 << (i % 8);
        }
    }
    bytes
}

/// The 32-bit header of the three-leaf tree over 'a' (0x61), the
/// end-of-message marker and 'c' (0x63), whose codebook is a: 00, EOM: 01,
/// c: 1.
fn three_leaf_header() -> Vec<bool> {
    let mut bits: Vec<bool> = vec![false, false, true, true, true];
    bits.push(false);
    for k in 0..8 {
        bits.push((0x61u8 >> k) & 1 == 1);
    }
    bits.push(true);
    for _ in 0..8 {
        bits.push(false);
    }
    bits.push(false);
    for k in 0..8 {
        bits.push((0x63u8 >> k) & 1 == 1);
    }
    bits
}

#[test]
fn truncated_payload_is_lenient() {
    // A valid header followed by four 'a' codewords and no terminator: the
    // stream ends exactly at a byte boundary, so nothing follows them.
    let mut bits = three_leaf_header();
    for _ in 0..4 {
        bits.push(false);
        bits.push(false);
    }
    assert_eq!(bits.len(), 40);
    let decoded = decode(&pack_lsb(&bits)).unwrap();
    assert_eq!(decoded, vec![0x61, 0x61, 0x61, 0x61]);
}

#[test]
fn padding_never_read_as_data() {
    // The same header, the message "ca" and the terminator, then five 1-bits
    // of padding, which a faulty decoder would read as more 'c' symbols.
    let mut bits = three_leaf_header();
    bits.push(true);
    bits.push(false);
    bits.push(false);
    bits.push(false);
    bits.push(true);
    for _ in 0..3 {
        bits.push(true);
    }
    assert_eq!(bits.len(), 40);
    let decoded = decode(&pack_lsb(&bits)).unwrap();
    assert_eq!(decoded, vec![0x63, 0x61]);
}

#[test]
fn two_eom_leaves_rejected() {
    // Shape 011: an inner node over two leaves, both marked end-of-message.
    // A valid tree holds exactly one such leaf, so decoding must fail.
    let mut bits: Vec<bool> = vec![false, true, true];
    for _ in 0..2 {
        bits.push(true);
        for _ in 0..8 {
            bits.push(false);
        }
    }
    assert!(matches!(
        decode(&pack_lsb(&bits)),
        Err(Error::FailedToDecodeHuffmanTree)
    ));
}

#[test]
fn degenerate_single_leaf_rejected() {
    // Shape 1: a tree that is one bare end-of-message leaf. The root must be
    // an inner node, so decoding must fail.
    let mut bits: Vec<bool> = vec![true, true];
    for _ in 0..8 {
        bits.push(false);
    }
    assert!(matches!(
        decode(&pack_lsb(&bits)),
        Err(Error::FailedToDecodeHuffmanTree)
    ));
}

#[test]
fn encoded_stream_is_fresh_bits() {
    // The encoder's output differs from its input even for inputs that are
    // already a valid stream: the tree header always comes first.
    let input = vec![0x61, 0x61, 0x61];
    let encoded = encode(&input).unwrap();
    assert_ne!(encoded, input);
    assert_eq!(decode(&encoded).unwrap(), input);
}
