//! The codec exercised end to end: round trips through bincode, compression
//! of a long text, and rejection of foreign or empty input.
use huffnpuff::{decode, encode, Error};

fn huff<T: serde::Serialize>(value: &T) -> Result<Vec<u8>, Error> {
    let bincoded_bytes = bincode::serialize(value).unwrap();
    encode(&bincoded_bytes)
}

fn puff<T: serde::de::DeserializeOwned>(bytes: &[u8]) -> Result<T, Error> {
    let bincoded_bytes = decode(bytes)?;
    Ok(bincode::deserialize(&bincoded_bytes).unwrap())
}

/// Packs bits in least-significant-bit-first order into bytes.
struct BitBuf {
    bytes: Vec<u8>,
    len: usize,
}

impl BitBuf {
    fn new() -> Self {
        BitBuf { bytes: Vec::new(), len: 0 }
    }

    fn push(&mut self, bit: bool) {
        if self.len % 8 == 0 {
            self.bytes.push(0);
        }
        if bit {
            let last = self.bytes.len() - 1;
            self.bytes[last] |= 1 << (self.len % 8);
        }
        self.len += 1;
    }

    fn push_byte_lsb(&mut self, b: u8) {
        for k in 0..8 {
            self.push((b >> k) & 1 == 1);
        }
    }
}

#[test]
fn test_bug_padding_decoded_as_data() {
    // A handcrafted stream whose padding bits, if wrongly read as data,
    // would decode as extra symbols.
    //
    // The tree is:
    //  o
    //  /\
    //  o c
    //  /\
    //  a EOM
    //
    // Codebook: a: 00, EOM: 01, c: 1.
    // Tree shape bits: 0 0 1 1 1, then the three nine-bit leaf values.
    // Message bits 00 00 00 1 01 encode "aaac" then EOM, and seven 1-bits
    // pad the stream to a whole byte.
    let mut bytes = BitBuf::new();
    for bit in [false, false, true, true, true] {
        bytes.push(bit);
    }
    let values = vec![Some(0x61 as u8), None, Some(0x63)];
    for value in values {
        if let Some(v) = value {
            bytes.push(false);
            bytes.push_byte_lsb(v);
        } else {
            bytes.push(true);
            bytes.push_byte_lsb(0);
        }
    }
    for bit in [false, false, false, false, false, false, true, false, true] {
        bytes.push(bit);
    }
    assert_eq!(bytes.len, 41);
    for _ in 0..7 {
        bytes.push(true);
    }
    assert_eq!(bytes.len, 48);

    let value = vec![0x61, 0x61, 0x61, 0x63];
    let decoded = decode(&bytes.bytes).unwrap();
    assert_eq!(decoded, value);
}

#[test]
fn roundtrip() {
    let int: u32 = 42;
    let string: String = "this is a string".to_owned();
    let tuple: (bool, u8) = (true, 255);
    let empty_vec: Vec<u8> = vec![];

    {
        let encoded = huff(&empty_vec).unwrap();
        assert_eq!(puff::<Vec<u8>>(&encoded).unwrap(), empty_vec);
    }

    {
        let encoded = huff(&int).unwrap();
        assert_eq!(puff::<u32>(&encoded).unwrap(), int);
    }
    {
        let encoded = huff(&string).unwrap();
        assert_eq!(puff::<String>(&encoded).unwrap(), string);
    }
    {
        let encoded = huff(&tuple).unwrap();
        assert_eq!(puff::<(bool, u8)>(&encoded).unwrap(), tuple);
    }
    {
        let encoded = huff(&empty_vec).unwrap();
        let decoded: Vec<u8> = puff(&encoded).unwrap();
        assert_eq!(decoded, empty_vec);
    }
}

#[test]
fn compress_lorem() {
    let plaintext = "Lorem ipsum dolor sit amet, consectetur adipiscing elit, sed do eiusmod tempor incididunt ut labore et dolore magna aliqua. Ut enim ad minim veniam, quis nostrud exercitation ullamco laboris nisi ut aliquip ex ea commodo consequat. Duis aute irure dolor in reprehenderit in voluptate velit esse cillum dolore eu fugiat nulla pariatur. Excepteur sint occaecat cupidatat non proident, sunt in culpa qui officia deserunt mollit anim id est laborum.";
    let encoded = huff(&plaintext).unwrap();

    assert!(encoded.len() < plaintext.as_bytes().len());
}

#[test]
fn test_empty() {
    let empty: Vec<u8> = vec![];

    let decompressed: Result<Vec<u8>, Error> = puff(&empty);
    println!("{:?}", decompressed);
    assert!(matches!(decompressed, Err(Error::NoData)));
}

#[test]
fn test_invalid() {
    let message = "Hello, world!";
    let decompressed: Result<Vec<u8>, Error> = puff(message.as_bytes());

    assert!(matches!(decompressed, Err(Error::FailedToDecodeHuffmanTree)));
}
