use bit_vec::BitVec;
use data_compression::error::DecodeError;
use data_compression::huffman::{FromBitVec, IntoBitVec, Node};
use std::collections::BTreeMap;

fn bits_of(values: &[u8]) -> BitVec {
    let mut v = BitVec::new();
    for &b in values {
        v.push(b != 0);
    }
    v
}

fn values_of(v: &BitVec) -> Vec<u8> {
    v.iter().map(|b| if b { 1 } else { 0 }).collect()
}

fn leaf(x: u8) -> Box<Node<u8>> {
    Box::new(Node::Leaf(x))
}

fn same_tree(a: &Node<u8>, b: &Node<u8>) -> bool {
    match (a, b) {
        (Node::Leaf(x), Node::Leaf(y)) => x == y,
        (Node::Branch(al, ar), Node::Branch(bl, br)) => same_tree(al, bl) && same_tree(ar, br),
        _ => false,
    }
}

fn depth_of(tree: &Node<u8>, symbol: u8) -> Option<usize> {
    match tree {
        Node::Leaf(x) => {
            if *x == symbol {
                Some(0)
            } else {
                None
            }
        }
        Node::Branch(l, r) => match depth_of(r, symbol) {
            Some(d) => Some(d + 1),
            None => depth_of(l, symbol).map(|d| d + 1),
        },
    }
}

#[test]
fn u8_pattern_is_most_significant_bit_first() {
    assert_eq!(values_of(&0b1010_0001u8.encode()), vec![1, 0, 1, 0, 0, 0, 0, 1]);
    assert_eq!(values_of(&0u8.encode()), vec![0; 8]);
    assert_eq!(values_of(&255u8.encode()), vec![1; 8]);
}

#[test]
fn u64_pattern_is_big_endian() {
    let bits = values_of(&0x0123_4567_89ab_cdefu64.encode());
    assert_eq!(bits.len(), 64);
    assert_eq!(
        0x0123_4567_89ab_cdefu64.encode(),
        BitVec::from_bytes(&[0x01, 0x23, 0x45, 0x67, 0x89, 0xab, 0xcd, 0xef])
    );
    let one = values_of(&1u64.encode());
    assert_eq!(one[63], 1);
    assert_eq!(one.iter().map(|b| *b as u32).sum::<u32>(), 1);
    let top = values_of(&(1u64 << 63).encode());
    assert_eq!(top[0], 1);
}

#[test]
fn u8_decode_reads_eight_bits() {
    let bits = bits_of(&[1, 0, 1, 0, 0, 0, 0, 1, 1, 1]);
    let mut it = bits.iter();
    assert_eq!(<u8 as FromBitVec>::decode(&mut it), Ok(0b1010_0001));
    assert_eq!(it.next(), Some(true));
    assert_eq!(it.next(), Some(true));
    assert_eq!(it.next(), None);
}

#[test]
fn u64_decode_reads_sixty_four_bits() {
    let bits = BitVec::from_bytes(&[0xfe, 0xdc, 0xba, 0x98, 0x76, 0x54, 0x32, 0x10, 0xff]);
    let mut it = bits.iter();
    assert_eq!(<u64 as FromBitVec>::decode(&mut it), Ok(0xfedc_ba98_7654_3210));
    assert_eq!(it.count(), 8);
}

#[test]
fn symbol_patterns_round_trip() {
    for x in 0..=255u8 {
        let bits = x.encode();
        assert_eq!(<u8 as FromBitVec>::decode(&mut bits.iter()), Ok(x));
    }
    for x in [0u64, 1, 255, 256, 0xdead_beef, u64::MAX, 1 << 63, (1 << 63) - 1] {
        let bits = x.encode();
        assert_eq!(<u64 as FromBitVec>::decode(&mut bits.iter()), Ok(x));
    }
}

#[test]
fn symbol_decode_fails_on_short_input() {
    let bits = bits_of(&[1, 0, 1]);
    assert_eq!(
        <u8 as FromBitVec>::decode(&mut bits.iter()),
        Err(DecodeError::IncompleteSymbol)
    );
    let bits = BitVec::new();
    assert_eq!(
        <u8 as FromBitVec>::decode(&mut bits.iter()),
        Err(DecodeError::IncompleteSymbol)
    );
    let bits = BitVec::from_bytes(&[1, 2, 3, 4, 5, 6, 7]);
    assert_eq!(
        <u64 as FromBitVec>::decode(&mut bits.iter()),
        Err(DecodeError::IncompleteSymbol)
    );
}

#[test]
fn encode_tree_is_pre_order() {
    let tree = Node::Leaf(0b1100_0011u8);
    assert_eq!(values_of(&tree.encode_tree()), vec![1, 1, 1, 0, 0, 0, 0, 1, 1]);
    let tree = Node::Branch(leaf(0), Box::new(Node::Branch(leaf(255), leaf(1))));
    let mut expected = vec![0, 1];
    expected.extend_from_slice(&[0; 8]);
    expected.extend_from_slice(&[0, 1]);
    expected.extend_from_slice(&[1; 8]);
    expected.push(1);
    expected.extend_from_slice(&[0, 0, 0, 0, 0, 0, 0, 1]);
    assert_eq!(values_of(&tree.encode_tree()), expected);
}

#[test]
fn decode_tree_mirrors_encode_tree() {
    let tree = Node::Branch(
        Box::new(Node::Branch(leaf(7), leaf(9))),
        Box::new(Node::Branch(leaf(255), Box::new(Node::Branch(leaf(0), leaf(1))))),
    );
    let mut bits = tree.encode_tree();
    bits.push(true);
    bits.push(false);
    let mut it = bits.iter();
    let back: Node<u8> = Node::decode_tree(&mut it).unwrap();
    assert!(same_tree(&tree, &back));
    assert_eq!(it.next(), Some(true));
    assert_eq!(it.next(), Some(false));
    assert_eq!(it.next(), None);
}

#[test]
fn decode_tree_of_wide_symbols() {
    let tree: Node<u64> = Node::Branch(
        Box::new(Node::Leaf(u64::MAX)),
        Box::new(Node::Leaf(0x0102_0304_0506_0708)),
    );
    let bits = tree.encode_tree();
    assert_eq!(bits.len(), 1 + 65 + 65);
    match Node::<u64>::decode_tree(&mut bits.iter()).unwrap() {
        Node::Branch(l, r) => {
            assert!(matches!(*l, Node::Leaf(u64::MAX)));
            assert!(matches!(*r, Node::Leaf(0x0102_0304_0506_0708)));
        }
        Node::Leaf(_) => panic!("a branch was encoded"),
    }
}

#[test]
fn decode_tree_fails_when_bits_run_out() {
    let bits = BitVec::new();
    assert_eq!(
        Node::<u8>::decode_tree(&mut bits.iter()).err(),
        Some(DecodeError::UnexpectedEndOfInput)
    );
    let bits = bits_of(&[0]);
    assert_eq!(
        Node::<u8>::decode_tree(&mut bits.iter()).err(),
        Some(DecodeError::UnexpectedEndOfInput)
    );
    let bits = bits_of(&[0, 1, 0, 0, 0, 0, 0, 0, 0, 0]);
    assert_eq!(
        Node::<u8>::decode_tree(&mut bits.iter()).err(),
        Some(DecodeError::UnexpectedEndOfInput)
    );
    let bits = bits_of(&[1, 0, 0, 0]);
    assert_eq!(
        Node::<u8>::decode_tree(&mut bits.iter()).err(),
        Some(DecodeError::IncompleteSymbol)
    );
    let bits = bits_of(&[0, 1, 0, 0, 0, 0, 0, 0, 0, 0, 1, 1]);
    assert_eq!(
        Node::<u8>::decode_tree(&mut bits.iter()).err(),
        Some(DecodeError::IncompleteSymbol)
    );
}

#[test]
fn scan_walks_one_bit_per_branch() {
    let tree = Node::Branch(leaf(10), Box::new(Node::Branch(leaf(20), leaf(30))));
    let bits = bits_of(&[0, 1, 0, 1, 1, 0]);
    let mut it = bits.iter();
    assert_eq!(tree.scan(&mut it), Ok(Some(10)));
    assert_eq!(tree.scan(&mut it), Ok(Some(20)));
    assert_eq!(tree.scan(&mut it), Ok(Some(30)));
    assert_eq!(tree.scan(&mut it), Ok(Some(10)));
    assert_eq!(tree.scan(&mut it), Ok(None));
    assert_eq!(tree.scan(&mut it), Ok(None));
}

#[test]
fn scan_fails_inside_a_code() {
    let tree = Node::Branch(leaf(10), Box::new(Node::Branch(leaf(20), leaf(30))));
    let bits = bits_of(&[0, 1]);
    let mut it = bits.iter();
    assert_eq!(tree.scan(&mut it), Ok(Some(10)));
    assert_eq!(tree.scan(&mut it), Err(DecodeError::UnexpectedEndOfInput));
}

#[test]
fn scan_of_a_lone_leaf_uses_no_bit() {
    let tree = Node::Leaf(42u8);
    let bits = bits_of(&[1]);
    let mut it = bits.iter();
    assert_eq!(tree.scan(&mut it), Ok(Some(42)));
    assert_eq!(tree.scan(&mut it), Ok(Some(42)));
    assert_eq!(it.next(), Some(true));
}

#[test]
fn dictionary_holds_the_path_of_every_leaf() {
    let tree = Node::Branch(leaf(10), Box::new(Node::Branch(leaf(20), leaf(30))));
    let book = tree.to_dictionnary(BitVec::new());
    assert_eq!(book.len(), 3);
    assert_eq!(values_of(&book[&10]), vec![0]);
    assert_eq!(values_of(&book[&20]), vec![1, 0]);
    assert_eq!(values_of(&book[&30]), vec![1, 1]);
}

#[test]
fn dictionary_puts_the_given_word_first() {
    let tree = Node::Branch(leaf(1), leaf(2));
    let book = tree.to_dictionnary(bits_of(&[1, 1, 0]));
    assert_eq!(values_of(&book[&1]), vec![1, 1, 0, 0]);
    assert_eq!(values_of(&book[&2]), vec![1, 1, 0, 1]);
    let book = Node::Leaf(9u8).to_dictionnary(bits_of(&[0, 1]));
    assert_eq!(book.len(), 1);
    assert_eq!(values_of(&book[&9]), vec![0, 1]);
}

#[test]
fn dictionary_takes_the_right_leaf_of_a_repeated_symbol() {
    let tree = Node::Branch(leaf(5), Box::new(Node::Branch(leaf(6), leaf(5))));
    let book = tree.to_dictionnary(BitVec::new());
    assert_eq!(book.len(), 2);
    assert_eq!(values_of(&book[&5]), vec![1, 1]);
    assert_eq!(values_of(&book[&6]), vec![1, 0]);
}

#[test]
fn from_statistics_of_one_symbol_is_a_leaf() {
    let mut stats = BTreeMap::new();
    stats.insert(7u8, 3u64);
    assert!(matches!(Node::from_statistics(&stats), Node::Leaf(7)));
    stats.insert(8u8, 0u64);
    assert!(matches!(Node::from_statistics(&stats), Node::Leaf(7)));
}

#[test]
fn from_statistics_joins_the_two_lightest_first() {
    let mut stats = BTreeMap::new();
    stats.insert(b'a', 1u64);
    stats.insert(b'b', 2u64);
    stats.insert(b'c', 4u64);
    stats.insert(b'd', 8u64);
    stats.insert(b'e', 0u64);
    let tree = Node::from_statistics(&stats);
    // a and b are joined first, the lighter on the left; then c, then d
    let expected = Node::Branch(
        Box::new(Node::Branch(
            Box::new(Node::Branch(leaf(b'a'), leaf(b'b'))),
            leaf(b'c'),
        )),
        leaf(b'd'),
    );
    assert!(same_tree(&tree, &expected));
    assert_eq!(depth_of(&tree, b'e'), None);
}

#[test]
fn from_statistics_gives_frequent_symbols_short_codes() {
    let mut stats = BTreeMap::new();
    stats.insert(0u8, 45u64);
    stats.insert(1u8, 13u64);
    stats.insert(2u8, 12u64);
    stats.insert(3u8, 16u64);
    stats.insert(4u8, 9u64);
    stats.insert(5u8, 5u64);
    let tree = Node::from_statistics(&stats);
    let depths: Vec<usize> = (0..6u8).map(|s| depth_of(&tree, s).unwrap()).collect();
    assert_eq!(depths, vec![1, 3, 3, 3, 4, 4]);
}

#[test]
fn from_statistics_with_large_counts() {
    let mut stats = BTreeMap::new();
    stats.insert(1u64, u64::MAX);
    stats.insert(2u64, u64::MAX);
    stats.insert(3u64, 1);
    let tree = Node::from_statistics(&stats);
    let book = tree.to_dictionnary(BitVec::new());
    assert_eq!(book.len(), 3);
    assert_eq!(book[&3].len(), 2);
    assert_eq!(book[&1].len() + book[&2].len(), 3);
}

#[test]
fn codebook_is_prefix_free() {
    let mut stats = BTreeMap::new();
    for (i, count) in [5u64, 1, 1, 2, 3, 8, 13, 21, 1, 1, 40].iter().enumerate() {
        stats.insert(i as u8 * 3, *count);
    }
    let book = Node::from_statistics(&stats).to_dictionnary(BitVec::new());
    assert_eq!(book.len(), 11);
    for (a, code_a) in book.iter() {
        for (b, code_b) in book.iter() {
            if a != b {
                let is_prefix = code_a.len() <= code_b.len()
                    && code_a.iter().zip(code_b.iter()).all(|(x, y)| x == y);
                assert!(!is_prefix);
            }
        }
    }
}

#[test]
fn scanning_the_codes_gives_the_symbols_back() {
    let mut stats = BTreeMap::new();
    let content = [3u8, 1, 4, 1, 5, 9, 2, 6, 5, 3, 5, 8, 9, 7, 9];
    for &b in content.iter() {
        *stats.entry(b).or_insert(0u64) += 1;
    }
    let tree = Node::from_statistics(&stats);
    let shape = tree.encode_tree();
    let tree_again: Node<u8> = Node::decode_tree(&mut shape.iter()).unwrap();
    let book = tree.to_dictionnary(BitVec::new());
    let mut bits = BitVec::new();
    for b in content.iter() {
        bits.extend(book[b].iter());
    }
    let mut it = bits.iter();
    let mut back = Vec::new();
    while let Some(symbol) = tree_again.scan(&mut it).unwrap() {
        back.push(symbol);
    }
    assert_eq!(back, content.to_vec());
}

#[test]
fn from_statistics_handles_a_large_alphabet() {
    let mut stats = BTreeMap::new();
    for i in 0..50_000u64 {
        stats.insert(i * 7919, 1 + (i * i) % 1000);
    }
    let tree = Node::from_statistics(&stats);
    let book = tree.to_dictionnary(BitVec::new());
    assert_eq!(book.len(), 50_000);
    // a symbol of the highest count has no longer code than one of the lowest
    let heavy = stats.iter().max_by_key(|(_, c)| **c).unwrap().0;
    let light = stats.iter().min_by_key(|(_, c)| **c).unwrap().0;
    assert!(book[heavy].len() <= book[light].len());
}
