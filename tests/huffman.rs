use maze_generator::huffman::{decode, encode, HuffmanCode, HuffmanNode, HuffmanTable};

#[test]
fn compression_test() {
    let message = "the quick brown fox jumps over the lazy dog";

    println!("Data: '{}'", message);

    let (encoded, table) = encode(message);

    println!("Encoded: '{}'", encoded);

    let decoded = decode(&encoded, table);

    assert!(decoded.is_some());
    assert_eq!(decoded.unwrap(), message.as_bytes());

    let len_uncompressed: f32 = message.len() as f32 * 4.0 * 8.0;
    let len_compressed: f32 = encoded.len() as f32;
    println!("Uncompressed Bitwise Length {}", len_uncompressed);
    println!("Bitwise Length {}", len_compressed);
    println!(
        "Compression Rate: {}%",
        (len_compressed / len_uncompressed) * 100.0
    );
}

#[test]
fn empty_input_has_no_tree() {
    assert!(HuffmanNode::tree("").is_none());
    let (encoded, table) = encode("");
    assert_eq!(encoded, "");
    assert_eq!(decode(&encoded, table), Some(vec![]));
}

#[test]
fn single_symbol_uses_one_digit_per_byte() {
    let (encoded, table) = encode("aaa");
    assert_eq!(encoded, "000");
    assert_eq!(decode(&encoded, table), Some(b"aaa".to_vec()));
}

#[test]
fn two_symbols_get_one_bit_each() {
    let (encoded, table) = encode("abb");
    assert_eq!(encoded, "011");
    assert_eq!(decode(&encoded, table), Some(b"abb".to_vec()));
}

#[test]
fn frequent_bytes_get_short_codes() {
    let (encoded, table) = encode("aaaabbc");
    assert_eq!(encoded, "0000101011");
    assert_eq!(decode(&encoded, table), Some(b"aaaabbc".to_vec()));
}

#[test]
fn tree_codes_and_canonical_codes() {
    let tree = HuffmanNode::tree("aaaabbc");
    assert!(tree.is_some());
    let codes = HuffmanCode::from_tree(&tree);
    assert_eq!(codes.len(), 3);
    let canonical = HuffmanCode::as_canonical(&codes);
    let mut table = HuffmanTable::from_codes(&canonical);
    let back = HuffmanCode::from_table(&mut table);
    assert_eq!(back.len(), canonical.len());
}

#[test]
fn leaf_and_node_build_a_tree() {
    let a = HuffmanNode::leaf(b'a', 3);
    let b = HuffmanNode::leaf(b'b', 1);
    let n = HuffmanNode::node(4, b, a);
    let tree = Some(Box::new(n));
    let codes = HuffmanCode::from_tree(&tree);
    assert_eq!(codes.len(), 2);
}
