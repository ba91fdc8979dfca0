use huffman::cmp_byte_arrays;
use huffman::decode;
use huffman::encode;
use huffman::find_pop;
use huffman::pop_smallest;
use huffman::DecodeError;
use huffman::Node;
use std::cmp::Ordering;

#[test]
fn round_trip_block_aligned() {
    let data: Vec<u8> = b"the quick brown fox jumps over the lazy dog!".to_vec();
    let coded = encode(&data, 1);
    assert_eq!(decode(&coded, 1), Ok(data));
}

#[test]
fn round_trip_two_byte_blocks() {
    let data: Vec<u8> = vec![1, 2, 3, 4, 1, 2, 1, 2, 9, 9, 1, 2];
    let coded = encode(&data, 2);
    assert_eq!(decode(&coded, 2), Ok(data));
}

#[test]
fn round_trip_pads_with_zero_bytes() {
    let data: Vec<u8> = vec![7, 8, 9, 10, 11, 12, 13];
    let coded = encode(&data, 3);
    let mut padded = data.clone();
    padded.push(0);
    padded.push(0);
    assert_eq!(decode(&coded, 3), Ok(padded));
}

#[test]
fn empty_input_round_trips_to_empty() {
    let coded = encode(&[], 2);
    assert_eq!(decode(&coded, 2), Ok(Vec::new()));
}

#[test]
fn single_distinct_block_uses_zero_body_bits() {
    // 64 identical one-byte blocks: the tree is a bare leaf (1 + 8 bits), the
    // count takes 32 bits and the body none at all: 41 bits pack into 6 bytes.
    let data: Vec<u8> = vec![b'A'; 64];
    let coded = encode(&data, 1);
    assert_eq!(coded.len(), 6);
    assert_eq!(decode(&coded, 1), Ok(data));
}

#[test]
fn concrete_scenario_three_values() {
    // Frequencies A:3, B:2, C:1.  Under the first-found minimum rule the tree
    // is A against (C, B): code lengths 1, 2 and 2, so the container holds
    // 29 tree bits + 32 count bits + 9 body bits = 70 bits in 9 bytes.
    let data: Vec<u8> = vec![b'A', b'A', b'A', b'B', b'B', b'C'];
    let coded = encode(&data, 1);
    assert_eq!(coded.len(), 9);
    // the first bits: internal marker, then the leaf for A
    assert_eq!(coded[0], 0b0101_0000);
    assert_eq!(coded[1], 0b0101_0100);
    assert_eq!(decode(&coded, 1), Ok(data));
}

#[test]
fn decoding_nothing_is_malformed() {
    assert_eq!(decode(&[], 1), Err(DecodeError::MalformedContainer));
}

#[test]
fn truncated_container_is_malformed() {
    let data: Vec<u8> = b"abracadabra".to_vec();
    let coded = encode(&data, 1);
    let cut = &coded[..coded.len() - 1];
    assert_eq!(decode(cut, 1), Err(DecodeError::MalformedContainer));
}

#[test]
fn truncated_single_leaf_container_is_malformed() {
    let data: Vec<u8> = vec![b'A'; 64];
    let coded = encode(&data, 1);
    let cut = &coded[..coded.len() - 1];
    assert_eq!(decode(cut, 1), Err(DecodeError::MalformedContainer));
}

#[test]
fn garbage_declaring_many_blocks_is_malformed() {
    // a two-leaf tree, then a block count far past the available body bits
    let bytes: Vec<u8> = vec![0x40, 0x20, 0x3f, 0xff, 0xff, 0xff, 0xe0];
    assert_eq!(decode(&bytes, 1), Err(DecodeError::MalformedContainer));
}

#[test]
fn compresses_skewed_input() {
    // 1000 copies of one byte and a few others: far below one byte per block
    let mut data: Vec<u8> = vec![b'x'; 1000];
    data.extend_from_slice(b"yz");
    let coded = encode(&data, 1);
    assert!(coded.len() < 300);
    assert_eq!(decode(&coded, 1), Ok(data));
}

#[test]
fn cmp_byte_arrays_orders_from_highest_index() {
    // the byte at the highest index is the most significant
    assert_eq!(cmp_byte_arrays(&[9, 1], &[0, 2]), Ordering::Less);
    assert_eq!(cmp_byte_arrays(&[0, 2], &[9, 1]), Ordering::Greater);
    assert_eq!(cmp_byte_arrays(&[5, 5], &[5, 5]), Ordering::Equal);
    // missing bytes read as zero
    assert_eq!(cmp_byte_arrays(&[1], &[1, 0]), Ordering::Equal);
    assert_eq!(cmp_byte_arrays(&[1], &[1, 1]), Ordering::Less);
    assert_eq!(cmp_byte_arrays(&[], &[0, 0]), Ordering::Equal);
}

#[test]
fn node_new_leaf_and_internal() {
    let leaf = Node::new(Some(vec![42]));
    assert_eq!(leaf.valor, Some(vec![42]));
    assert_eq!(leaf.freq, 1);
    assert!(leaf.esq.is_none() && leaf.dir.is_none());
    let inner = Node::new(None);
    assert_eq!(inner.valor, None);
    assert_eq!(inner.freq, 0);
}

#[test]
fn find_pop_removes_first_match_swapping_last_in() {
    let mut lista = vec![
        Node::new(Some(vec![1])),
        Node::new(Some(vec![2])),
        Node::new(Some(vec![3])),
    ];
    let got = find_pop(&mut lista, &[2]).expect("value 2 is present");
    assert_eq!(got.valor, Some(vec![2]));
    assert_eq!(lista.len(), 2);
    assert_eq!(lista[0].valor, Some(vec![1]));
    assert_eq!(lista[1].valor, Some(vec![3]));
    assert!(find_pop(&mut lista, &[9]).is_none());
    assert_eq!(lista.len(), 2);
}

#[test]
fn pop_smallest_takes_first_minimum() {
    let mut a = Node::new(Some(vec![1]));
    a.freq = 5;
    let mut b = Node::new(Some(vec![2]));
    b.freq = 2;
    let mut c = Node::new(Some(vec![3]));
    c.freq = 2;
    let mut lista = vec![a, b, c];
    let got = pop_smallest(&mut lista).expect("list is not empty");
    // ties keep the earliest: value 2, not value 3
    assert_eq!(got.valor, Some(vec![2]));
    assert_eq!(lista.len(), 2);
    assert!(pop_smallest(&mut Vec::new()).is_none());
}

#[test]
fn all_byte_values_round_trip() {
    let data: Vec<u8> = (0..=255u8).collect();
    let coded = encode(&data, 1);
    assert_eq!(decode(&coded, 1), Ok(data));
}
