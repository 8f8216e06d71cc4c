use indexmap::IndexMap;
use multirust::compress::{
    canonical_book, code_lengths, compress, decompress, dump_all, enc_vector, histogram,
    huff_tree, leaves, Config, Tree,
};

#[test]
fn config_needs_filename() {
    let args = vec![
        String::from("multirust"),
        String::from("compress"),
        String::from("notes.txt"),
    ];
    let config = Config::new(&args).unwrap();
    assert_eq!(config.filename, "notes.txt");

    let short = vec![String::from("multirust"), String::from("compress")];
    assert!(Config::new(&short).is_err());
}

#[test]
fn histogram_counts_sum_to_len() {
    let input = vec![9, 9, 1, 9, 2, 2, 9];
    let hist = histogram(&input);
    let total: u32 = hist.values().sum();
    assert_eq!(total as usize, input.len());
}

#[test]
fn tree_weight_is_input_len() {
    let input = vec![1, 2, 2, 3, 3, 3, 4, 4, 4, 4];
    let hist = histogram(&input);
    let mut lvs = leaves(hist);
    let tree = huff_tree(&mut lvs).unwrap();
    let weight = match tree {
        Tree::Leaf(_, w) => w,
        Tree::Node(_, _, w) => w,
    };
    assert_eq!(weight as usize, input.len());
}

#[test]
fn lengths_for_four_symbols() {
    let input = vec![1, 2, 2, 3, 3, 3, 4, 4, 4, 4];
    let hist = histogram(&input);
    let mut lvs = leaves(hist);
    let tree = huff_tree(&mut lvs).unwrap();
    let lens = code_lengths(tree);
    let mut expected = IndexMap::new();
    expected.insert(4, 1);
    expected.insert(3, 2);
    expected.insert(1, 3);
    expected.insert(2, 3);
    assert_eq!(lens, expected);
}

#[test]
fn degenerate_alphabet_gets_length_one() {
    let input = vec![4, 4, 4, 4];
    let hist = histogram(&input);
    let mut lvs = leaves(hist);
    let tree = huff_tree(&mut lvs).unwrap();
    let lens = code_lengths(tree);
    let buckets = enc_vector(&lens).unwrap();
    assert_eq!(buckets, vec![vec![4]]);
    let book = canonical_book(buckets);
    assert_eq!(book.get(&4).unwrap(), "0");
}

#[test]
fn enc_vector_rejects_zero_among_others() {
    let mut lens = IndexMap::new();
    lens.insert(1, 0);
    lens.insert(2, 5);
    assert!(enc_vector(&lens).is_none());
}

#[test]
fn enc_vector_sorts_buckets() {
    let mut lens = IndexMap::new();
    lens.insert(9, 2);
    lens.insert(3, 1);
    lens.insert(5, 2);
    lens.insert(4, 2);
    let buckets = enc_vector(&lens).unwrap();
    assert_eq!(buckets, vec![vec![3], vec![4, 5, 9]]);
}

#[test]
fn canonical_codes_are_prefix_free() {
    let input = vec![1, 2, 2, 3, 3, 3, 4, 4, 4, 4, 5, 5, 5, 5, 5];
    let hist = histogram(&input);
    let mut lvs = leaves(hist);
    let tree = huff_tree(&mut lvs).unwrap();
    let lens = code_lengths(tree);
    let buckets = enc_vector(&lens).unwrap();
    let book = canonical_book(buckets);
    let codes: Vec<&String> = book.values().collect();
    for a in &codes {
        for b in &codes {
            if a != b {
                assert!(!b.starts_with(a.as_str()));
            }
        }
    }
}

#[test]
fn dump_all_lists_every_byte() {
    let mut lens = IndexMap::new();
    lens.insert(0, 1);
    lens.insert(255, 8);
    let table = dump_all(lens);
    assert_eq!(table.len(), 256);
    assert_eq!(table[0], 1);
    assert_eq!(table[255], 8);
    for c in 1..255 {
        assert_eq!(table[c], 0);
    }
}

#[test]
fn compress_empty_fails() {
    let input: Vec<u8> = vec![];
    assert_eq!(compress(&input), Err("Could not build a tree"));
}

#[test]
fn compress_single_symbol() {
    // Four 1-bit codes "0" packed into one byte padded with 1-bits,
    // leftover 4 in the control byte's top bits; sparse table: one symbol
    // of length one.
    let input = vec![4, 4, 4, 4];
    let archive = compress(&input).unwrap();
    assert_eq!(archive, vec![128, 1, 1, 4, 0b0000_1111]);
}

#[test]
fn compress_two_symbols() {
    // Codes: 5 -> "0", 7 -> "1"; stream "110" padded to 0b1101_1111,
    // leftover 3.
    let input = vec![7, 7, 5];
    let archive = compress(&input).unwrap();
    assert_eq!(archive, vec![96, 2, 2, 5, 7, 0b1101_1111]);
}

#[test]
fn compress_dense_header() {
    // 128 distinct bytes, each once: a full balanced tree, every code
    // seven bits; the alphabet is too large for the sparse table.
    let mut input: Vec<u8> = Vec::new();
    for c in 0..128 {
        input.push(c as u8);
    }
    let archive = compress(&input).unwrap();
    // control byte: leftover 0 (128 * 7 bits = 112 bytes), dense flag set
    assert_eq!(archive[0], 0b0001_0000);
    assert_eq!(archive.len(), 1 + 256 + 112);
    for c in 0..128 {
        assert_eq!(archive[1 + c], 7);
    }
    for c in 128..256 {
        assert_eq!(archive[1 + c], 0);
    }
    // the first payload byte: codes 0000000 and 0000001 start with 0s
    assert_eq!(archive[257], 0);
}

#[test]
fn compress_payload_bits() {
    // lengths {4:1, 3:2, 1:3, 2:3}: codes 4 -> "0", 3 -> "10",
    // 1 -> "110", 2 -> "111".
    let input = vec![1, 2, 2, 3, 3, 3, 4, 4, 4, 4];
    let archive = compress(&input).unwrap();
    // sparse header: leftover = 19 % 8 = 3; l = 4; counts 1, 1, 2;
    // symbols 4, 3, 1, 2 in canonical order.
    assert_eq!(&archive[0..9], &[96, 4, 1, 1, 2, 4, 3, 1, 2]);
    // stream: 110 111 111 10 10 10 0 0 0 0 -> 19 bits, padded with 1s
    assert_eq!(&archive[9..], &[0b1101_1111, 0b1101_0100, 0b0001_1111]);
}

#[test]
fn round_trip_four_symbols() {
    let input = vec![1, 2, 2, 3, 3, 3, 4, 4, 4, 4];
    let archive = compress(&input).unwrap();
    assert_eq!(decompress(&archive).unwrap(), input);
}

#[test]
fn round_trip_single_symbol() {
    let input = vec![4, 4, 4, 4];
    let archive = compress(&input).unwrap();
    assert_eq!(decompress(&archive).unwrap(), input);
}

#[test]
fn round_trip_text() {
    let input = "the quick brown fox jumps over the lazy dog".as_bytes().to_vec();
    let archive = compress(&input).unwrap();
    assert_eq!(decompress(&archive).unwrap(), input);
}

#[test]
fn round_trip_dense_alphabet() {
    let mut input: Vec<u8> = Vec::new();
    for c in 0..200 {
        input.push(c as u8);
        input.push(c as u8);
        input.push(255 - (c as u8));
    }
    let archive = compress(&input).unwrap();
    assert_eq!(decompress(&archive).unwrap(), input);
}

#[test]
fn decompress_rejects_empty() {
    let archive: Vec<u8> = vec![];
    assert_eq!(decompress(&archive), None);
}

#[test]
fn decompress_rejects_truncated_table() {
    // dense flag set but no room for the 256-byte table
    let archive = vec![0b0001_0000, 7, 7];
    assert_eq!(decompress(&archive), None);
}
