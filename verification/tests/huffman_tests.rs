use std::collections::{HashMap, HashSet};

use rath::bit_vector::Bit;
use rath::huffman_codes::{
    build, code_tree, decode_bits, encode_char, encode_data2, frequency_count, HuffNode,
};

#[test]
fn test_frequency_count() {
    let result: HashMap<char, u32> = frequency_count("message");
    let mut expected: HashMap<char, u32> = HashMap::new();
    expected.insert('m', 1);
    expected.insert('e', 2);
    expected.insert('s', 2);
    expected.insert('a', 1);
    expected.insert('g', 1);

    assert_eq!(result, expected);
}

#[test]
fn test_frequency_count_empty_message() {
    let result: HashMap<char, u32> = frequency_count("");
    assert_eq!(result.is_empty(), true);
}

#[test]
fn test_code_tree_returns_head() {
    let mut counts: HashMap<char, u32> = HashMap::new();
    counts.insert('m', 1);
    counts.insert('e', 2);
    counts.insert('s', 2);
    counts.insert('a', 1);
    counts.insert('g', 1);

    let actual = code_tree(&counts);

    assert_eq!(actual.weight, 7);
    assert_eq!(
        HashSet::from_iter(actual.charaters.chars()),
        HashSet::from(['m', 'e', 's', 'a', 'g'])
    );
}

#[test]
fn test_code_tree_correctness() {
    let mut counts: HashMap<char, u32> = HashMap::new();
    counts.insert('A', 5);
    counts.insert('B', 2);
    counts.insert('C', 1);
    counts.insert('D', 1);
    counts.insert('E', 2);

    let actual = code_tree(&counts);

    assert_eq!(actual.weight, 11);
    assert_eq!(
        HashSet::from_iter(actual.charaters.chars()),
        HashSet::from(['A', 'B', 'C', 'D', 'E'])
    );

    let left_a = actual.left.unwrap();
    assert_eq!(left_a.charaters, "A");
    assert_eq!(left_a.weight, 5);
    assert_eq!(left_a.left, None);
    assert_eq!(left_a.right, None);

    let bced = actual.right.unwrap();
    assert_eq!(
        HashSet::from_iter(bced.charaters.chars()),
        HashSet::from(['B', 'E', 'C', 'D'])
    );
    assert_eq!(bced.weight, 6);

    let cd = bced.left.unwrap();
    assert_eq!(
        HashSet::from_iter(cd.charaters.chars()),
        HashSet::from(['C', 'D'])
    );
    assert_eq!(cd.weight, 2);

    let be = bced.right.unwrap();
    assert_eq!(
        HashSet::from_iter(be.charaters.chars()),
        HashSet::from(['B', 'E'])
    );
    assert_eq!(be.weight, 4);

    let b = be.left.unwrap();
    assert_eq!(b.charaters, "B");
    assert_eq!(b.weight, 2);
    assert_eq!(b.left, None);
    assert_eq!(b.right, None);

    let e = be.right.unwrap();
    assert_eq!(e.charaters, "E");
    assert_eq!(e.weight, 2);
    assert_eq!(e.left, None);
    assert_eq!(e.right, None);

    let c = cd.left.unwrap();
    assert_eq!(c.charaters, "C");
    assert_eq!(c.weight, 1);
    assert_eq!(c.left, None);
    assert_eq!(c.right, None);

    let d = cd.right.unwrap();
    assert_eq!(d.charaters, "D");
    assert_eq!(d.weight, 1);
    assert_eq!(d.left, None);
    assert_eq!(d.right, None);
}

#[test]
fn test_encode_char_single_node() {
    let tree = HuffNode::new_leaf(String::from("B"), 1);

    let mut bits: Vec<char> = Vec::new();

    encode_char('B', &tree, &mut bits);
    assert_eq!(bits, vec![]);
}

#[test]
fn test_encode_char_multi_node() {
    let tree = HuffNode::new_branch(
        String::from("ABC"),
        5,
        Some(HuffNode::new_leaf(String::from("A"), 3)),
        Some(HuffNode::new_branch(
            String::from("BC"),
            2,
            Some(HuffNode::new_leaf(String::from("B"), 1)),
            Some(HuffNode::new_leaf(String::from("C"), 1)),
        )),
    );

    let mut bits: Vec<char> = Vec::new();
    encode_char('B', &tree, &mut bits);

    bits.clear();
    encode_char('C', &tree, &mut bits);
    assert_eq!(bits, vec!['1', '1']);

    bits.clear();
    encode_char('A', &tree, &mut bits);
    assert_eq!(bits, vec!['0']);
}

fn big_tree() -> HuffNode {
    HuffNode::new_branch(
        String::from("ABCDEFGH"),
        17,
        Some(HuffNode::new_leaf(String::from("A"), 8)),
        Some(HuffNode::new_branch(
            String::from("BCDEFGH"),
            9,
            Some(HuffNode::new_branch(
                String::from("BCD"),
                5,
                Some(HuffNode::new_leaf(String::from("B"), 3)), /*B*/
                Some(HuffNode::new_branch(
                    String::from("CD"),
                    2,
                    Some(HuffNode::new_leaf(String::from("C"), 1)),
                    Some(HuffNode::new_leaf(String::from("D"), 1)),
                )), /*CD*/
            )), /*BCD*/
            Some(HuffNode::new_branch(
                String::from("EFGH"),
                4,
                Some(HuffNode::new_branch(
                    String::from("EF"),
                    2,
                    Some(HuffNode::new_leaf(String::from("E"), 1)),
                    Some(HuffNode::new_leaf(String::from("F"), 1)),
                )), /*EF*/
                Some(HuffNode::new_branch(
                    String::from("GH"),
                    2,
                    Some(HuffNode::new_leaf(String::from("G"), 1)),
                    Some(HuffNode::new_leaf(String::from("H"), 1)),
                )), /*GH*/
            )), /*EFGH*/
        )),
    )
}

#[test]
fn test_encode_char_big_tree() {
    let tree = big_tree();

    let mut bits: Vec<char> = Vec::new();
    encode_char('D', &tree, &mut bits);

    assert_eq!(bits, vec!['1', '0', '1', '1']);
}

#[test]
fn test_decode_bits_big_tree() {
    let tree = big_tree();

    assert_eq!(decode_bits(&vec![Bit::Zero], &tree), String::from("A"));
    assert_eq!(
        decode_bits(&vec![Bit::One, Bit::Zero, Bit::Zero], &tree),
        String::from("B")
    );

    assert_eq!(
        decode_bits(
            &vec![
                Bit::One,
                Bit::Zero,
                Bit::Zero,
                Bit::Zero,
                Bit::One,
                Bit::Zero,
                Bit::One,
                Bit::Zero
            ],
            &tree,
        ),
        String::from("BAC")
    );
}

#[test]
fn test_full() {
    let data = "BAC";
    let tree = build(data);

    let encoded: Vec<Bit> = encode_data2(data, &tree);

    let decoded = decode_bits(&encoded, &tree);

    assert_eq!(decoded, data);
}

#[test]
fn digit_encoding_matches_bit_encoding() {
    let data = "ABRACADABRA";
    let tree = build(data);

    let digits = rath::huffman_codes::encode_data(data, &tree);
    let bits = encode_data2(data, &tree);

    let written: Vec<char> = bits
        .iter()
        .map(|b| if *b == Bit::Zero { '0' } else { '1' })
        .collect();
    assert_eq!(digits, written);
    assert_eq!(decode_bits(&bits, &tree), data);
}
