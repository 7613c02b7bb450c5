use codingchallenges::bitio::BitWriter;
use codingchallenges::huff_file::{compress, decompress, CompressError, DecompressError};
use codingchallenges::huffman::{build_tree, count_frequencies, generate_codes, HuffNode};
use std::collections::HashMap;

fn roundtrip(data: &[u8]) {
    let packed = compress(data).unwrap();
    assert_eq!(&packed[0..4], b"HUFF");
    let unpacked = decompress(&packed).unwrap();
    assert_eq!(unpacked, data);
}

#[test]
fn roundtrip_text() {
    roundtrip(b"this is an example of a huffman tree");
}

#[test]
fn roundtrip_single_symbol() {
    roundtrip(b"aaaaaaa");
}

#[test]
fn roundtrip_two_symbols() {
    roundtrip(b"abababbbba");
}

#[test]
fn roundtrip_all_bytes() {
    let data: Vec<u8> = (0..=255u8).chain((0..=255u8).rev()).chain(0..40u8).collect();
    roundtrip(&data);
}

#[test]
fn compress_empty_is_refused() {
    assert_eq!(compress(b""), Err(CompressError::EmptyInput));
}

#[test]
fn compressed_layout() {
    // "aab": a twice, b once; the tree gives b the code 0 and a the code 1.
    let packed = compress(b"aab").unwrap();
    // magic, padding 5, two entries, entries in byte order, one data byte
    let mut want: Vec<u8> = b"HUFF".to_vec();
    want.push(5);
    want.extend_from_slice(&2u32.to_le_bytes());
    want.push(b'a');
    want.extend_from_slice(&2u64.to_le_bytes());
    want.push(b'b');
    want.extend_from_slice(&1u64.to_le_bytes());
    want.push(0b1100_0000);
    assert_eq!(packed, want);
}

#[test]
fn decompress_not_huff() {
    assert_eq!(decompress(b"HUF"), Err(DecompressError::NotHuff));
    assert_eq!(decompress(b"HUFX\0\0\0\0\0"), Err(DecompressError::NotHuff));
}

#[test]
fn decompress_truncated_header() {
    let mut d: Vec<u8> = b"HUFF".to_vec();
    d.push(0);
    d.extend_from_slice(&1u32.to_le_bytes());
    d.push(b'x');
    assert_eq!(decompress(&d), Err(DecompressError::TruncatedHeader));
}

#[test]
fn decompress_empty_table() {
    let mut d: Vec<u8> = b"HUFF".to_vec();
    d.push(0);
    d.extend_from_slice(&0u32.to_le_bytes());
    assert_eq!(decompress(&d), Err(DecompressError::EmptyTable));
}

#[test]
fn decompress_frequency_overflow() {
    let mut d: Vec<u8> = b"HUFF".to_vec();
    d.push(0);
    d.extend_from_slice(&2u32.to_le_bytes());
    d.push(b'a');
    d.extend_from_slice(&u64::MAX.to_le_bytes());
    d.push(b'b');
    d.extend_from_slice(&1u64.to_le_bytes());
    assert_eq!(decompress(&d), Err(DecompressError::FrequencyOverflow));
}

#[test]
fn decompress_padding_too_large() {
    let mut d: Vec<u8> = b"HUFF".to_vec();
    d.push(3);
    d.extend_from_slice(&1u32.to_le_bytes());
    d.push(b'a');
    d.extend_from_slice(&4u64.to_le_bytes());
    assert_eq!(decompress(&d), Err(DecompressError::PaddingTooLarge));
}

#[test]
fn decompress_single_entry_repeats() {
    let mut d: Vec<u8> = b"HUFF".to_vec();
    d.push(0);
    d.extend_from_slice(&1u32.to_le_bytes());
    d.push(b'z');
    d.extend_from_slice(&3u64.to_le_bytes());
    assert_eq!(decompress(&d).unwrap(), b"zzz".to_vec());
}

#[test]
fn decompress_stops_at_total() {
    // "aab" packed by hand: codes a = 1, b = 0; trailing bits are ignored.
    let mut d: Vec<u8> = b"HUFF".to_vec();
    d.push(0);
    d.extend_from_slice(&2u32.to_le_bytes());
    d.push(b'a');
    d.extend_from_slice(&2u64.to_le_bytes());
    d.push(b'b');
    d.extend_from_slice(&1u64.to_le_bytes());
    d.push(0b1101_0101);
    assert_eq!(decompress(&d).unwrap(), b"aab".to_vec());
}

#[test]
fn frequencies_are_counted() {
    let f = count_frequencies(b"abracadabra");
    assert_eq!(f.len(), 5);
    assert_eq!(f[&b'a'], 5);
    assert_eq!(f[&b'b'], 2);
    assert_eq!(f[&b'r'], 2);
    assert_eq!(f[&b'c'], 1);
    assert_eq!(f[&b'd'], 1);
}

#[test]
fn tree_of_empty_table_is_none() {
    let f: HashMap<u8, u64> = HashMap::new();
    assert!(build_tree(&f).is_none());
}

#[test]
fn codes_follow_the_tree() {
    let f = count_frequencies(b"aaaabbc");
    let tree = build_tree(&f).unwrap();
    let mut codes: HashMap<u8, Vec<bool>> = HashMap::new();
    generate_codes(&tree, &mut Vec::new(), &mut codes);
    // c (1) and b (2) join first; their node (3) leaves the queue before
    // a (4), so it becomes the left child of the root.
    assert_eq!(codes[&b'c'], vec![false, false]);
    assert_eq!(codes[&b'b'], vec![false, true]);
    assert_eq!(codes[&b'a'], vec![true]);
    match *tree {
        HuffNode::Internal { .. } => {}
        HuffNode::Leaf { .. } => panic!("expected an internal root"),
    }
}

#[test]
fn single_leaf_gets_one_bit() {
    let f = count_frequencies(b"xxx");
    let tree = build_tree(&f).unwrap();
    let mut codes: HashMap<u8, Vec<bool>> = HashMap::new();
    generate_codes(&tree, &mut Vec::new(), &mut codes);
    assert_eq!(codes[&b'x'], vec![false]);
}

#[test]
fn bit_writer_packs_msb_first() {
    let mut w = BitWriter::new();
    for &b in &[true, false, true, true, false, false, false, true, true, true] {
        w.write_bit(b);
    }
    let (bytes, padding) = w.flush();
    assert_eq!(bytes, vec![0b1011_0001, 0b1100_0000]);
    assert_eq!(padding, 6);
}

#[test]
fn bit_writer_full_byte_has_no_padding() {
    let mut w = BitWriter::new();
    for _ in 0..8 {
        w.write_bit(true);
    }
    let (bytes, padding) = w.flush();
    assert_eq!(bytes, vec![0xff]);
    assert_eq!(padding, 0);
}

#[test]
fn codes_are_prefix_free() {
    let text = b"the quick brown fox jumps over the lazy dog";
    let f = count_frequencies(text);
    let tree = build_tree(&f).unwrap();
    let mut codes: HashMap<u8, Vec<bool>> = HashMap::new();
    generate_codes(&tree, &mut Vec::new(), &mut codes);
    assert_eq!(codes.len(), f.len());
    for (a, ca) in &codes {
        for (b, cb) in &codes {
            if a != b {
                assert!(!(ca.len() <= cb.len() && cb[..ca.len()] == ca[..]));
            }
        }
    }
}

#[test]
fn frequencies_add_up_to_length() {
    let text = b"mississippi river";
    let f = count_frequencies(text);
    assert_eq!(f.values().sum::<u64>(), text.len() as u64);
}

#[test]
fn record_order_does_not_matter() {
    let data = b"abracadabra";
    let packed = compress(data).unwrap();
    let n = u32::from_le_bytes([packed[5], packed[6], packed[7], packed[8]]) as usize;
    assert_eq!(n, 5);
    let mut reordered = packed.clone();
    // Store the records in reverse order.
    for i in 0..n {
        let from = 9 + 9 * (n - 1 - i);
        let to = 9 + 9 * i;
        reordered[to..to + 9].copy_from_slice(&packed[from..from + 9]);
    }
    assert_ne!(reordered, packed);
    assert_eq!(decompress(&reordered).unwrap(), data.to_vec());
}

fn leaf_bytes(t: &HuffNode, out: &mut Vec<u8>) {
    match t {
        HuffNode::Leaf { byte } => out.push(*byte),
        HuffNode::Internal { left, right } => {
            leaf_bytes(left, out);
            leaf_bytes(right, out);
        }
    }
}

#[test]
fn each_byte_sits_at_one_leaf() {
    let f = count_frequencies(b"mississippi river");
    let tree = build_tree(&f).unwrap();
    let mut bytes = Vec::new();
    leaf_bytes(&tree, &mut bytes);
    let mut sorted = bytes.clone();
    sorted.sort_unstable();
    sorted.dedup();
    assert_eq!(sorted.len(), bytes.len());
    let mut keys: Vec<u8> = f.keys().copied().collect();
    keys.sort_unstable();
    assert_eq!(sorted, keys);
    let single = build_tree(&count_frequencies(b"zz")).unwrap();
    assert!(matches!(*single, HuffNode::Leaf { byte: b'z' }));
}
