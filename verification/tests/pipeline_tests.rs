use bit_vec::BitVec;
use data_compression::bitvec_util::serialize_bit_vec;
use data_compression::error::DecodeError;
use data_compression::{
    compression_huffman, compression_lz77, decompression_huffman, decompression_lz77,
};

#[test]
fn identity_test() {
    let input = vec![1, 2, 3, 4, 4, 4, 3, 4, 1, 2, 3, 4, 1, 2, 2, 3, 3, 4, 4, 3, 2, 1];
    println!("Input {:?}", input);
    let coded = compression_huffman(&input);
    println!("Coded {:?}", coded);
    let decoded = decompression_huffman(&coded).unwrap();
    println!("Decoded {:?}", decoded);
    assert_eq!(input, decoded)
}

#[test]
fn identity2_test() {
    let input = vec![1, 2, 3, 4, 5, 6, 7, 8];
    println!("Input {:?}", input);
    let coded = compression_huffman(&input);
    println!("Coded {:?}", coded);
    let decoded = decompression_huffman(&coded).unwrap();
    println!("Decoded {:?}", decoded);
    assert_eq!(input, decoded)
}

#[test]
fn identity3_test() {
    let input = vec![1];
    println!("Input {:?}", input);
    let coded = compression_huffman(&input);
    println!("Coded {:?}", coded);
    let decoded = decompression_huffman(&coded).unwrap();
    println!("Decoded {:?}", decoded);
    assert_eq!(input, decoded)
}

#[test]
fn identity4_test() {
    let input = vec![];
    println!("Input {:?}", input);
    let coded = compression_huffman(&input);
    println!("Coded {:?}", coded);
    let decoded = decompression_huffman(&coded).unwrap();
    println!("Decoded {:?}", decoded);
    assert_eq!(input, decoded)
}

#[test]
fn identity5_test() {
    let input = vec![1, 1, 1, 1, 1, 1, 1, 1, 1, 1, 1];
    println!("Input {:?}", input);
    let coded = compression_huffman(&input);
    println!("Coded {:?}", coded);
    let decoded = decompression_huffman(&coded).unwrap();
    println!("Decoded {:?}", decoded);
    assert_eq!(input, decoded)
}

#[test]
fn huffman_empty_is_empty() {
    assert_eq!(compression_huffman(&[]), Vec::<u8>::new());
    assert_eq!(decompression_huffman(&[]), Ok(vec![]));
}

#[test]
fn huffman_stream_of_a_single_byte() {
    // counts {1: 1} get the placeholder 0: tree Branch(Leaf(0), Leaf(1)) or its mirror,
    // 19 bits of tree and one bit of code, so 4 padding bits
    let coded = compression_huffman(&[1]);
    assert_eq!(coded.len(), 4);
    assert_eq!(coded[3], 4);
}

#[test]
fn huffman_stream_of_a_run_has_one_bit_per_byte() {
    let coded = compression_huffman(&[1; 11]);
    // 19 bits of tree and 11 bits of codes: 30 bits, 2 padding bits
    assert_eq!(coded.len(), 5);
    assert_eq!(coded[4], 2);
}

#[test]
fn huffman_stream_of_zero_bytes_uses_one_as_placeholder() {
    let coded = compression_huffman(&[0, 0, 0]);
    assert_eq!(decompression_huffman(&coded), Ok(vec![0, 0, 0]));
    // the two leaves are 0 and 1
    let zero_then_one = vec![0b0100_0000, 0b0010_0000, 0b0010_0000];
    let one_then_zero = vec![0b0100_0000, 0b0110_0000, 0b0000_0000];
    assert!(coded[..2] == zero_then_one[..2] || coded[..2] == one_then_zero[..2]);
}

#[test]
fn huffman_every_single_byte_round_trips() {
    for b in 0..=255u8 {
        assert_eq!(decompression_huffman(&compression_huffman(&[b])), Ok(vec![b]));
        let run = vec![b; 9];
        assert_eq!(decompression_huffman(&compression_huffman(&run)), Ok(run));
    }
}

#[test]
fn huffman_round_trips() {
    let mut long = Vec::new();
    for i in 0..20000u32 {
        long.push(((i * i) % 251) as u8);
    }
    let inputs: Vec<Vec<u8>> = vec![
        vec![0, 1],
        vec![255, 0, 255],
        (0..=255u8).collect(),
        b"the quick brown fox jumps over the lazy dog".to_vec(),
        long,
    ];
    for input in inputs {
        assert_eq!(decompression_huffman(&compression_huffman(&input)), Ok(input));
    }
}

#[test]
fn huffman_compresses_skewed_content() {
    let mut input = vec![7u8; 4000];
    input.extend_from_slice(&[1, 2, 3, 4]);
    let coded = compression_huffman(&input);
    assert!(coded.len() < 600);
    assert_eq!(decompression_huffman(&coded), Ok(input));
}

#[test]
fn decompression_huffman_rejects_a_lone_leaf() {
    let mut bits = BitVec::new();
    bits.push(true);
    for _ in 0..8 {
        bits.push(false);
    }
    assert_eq!(
        decompression_huffman(&serialize_bit_vec(&bits)),
        Err(DecodeError::MalformedTokenStream)
    );
    bits.push(true);
    bits.push(true);
    assert_eq!(
        decompression_huffman(&serialize_bit_vec(&bits)),
        Err(DecodeError::MalformedTokenStream)
    );
}

#[test]
fn decompression_huffman_rejects_truncated_streams() {
    assert_eq!(decompression_huffman(&[0]), Err(DecodeError::UnexpectedEndOfInput));
    assert_eq!(decompression_huffman(&[3]), Err(DecodeError::UnexpectedEndOfInput));
    assert_eq!(
        decompression_huffman(&[0b1000_0000, 4]),
        Err(DecodeError::IncompleteSymbol)
    );
    // a tree with leaves 0 and 1 under a second branch, then a code that stops at a branch
    let mut bits = BitVec::new();
    for b in [0, 1, 0, 0, 0, 0, 0, 0, 0, 0, 0, 1, 0, 0, 0, 0, 0, 0, 0, 1, 1, 0, 0, 0, 0, 0, 0, 1, 0] {
        bits.push(b == 1);
    }
    // tree: Branch(Leaf(0), Branch(Leaf(1), Leaf(2))); payload so far: none
    bits.push(false);
    bits.push(true);
    assert_eq!(
        decompression_huffman(&serialize_bit_vec(&bits)),
        Err(DecodeError::UnexpectedEndOfInput)
    );
}

#[test]
fn decompression_huffman_reads_a_hand_made_stream() {
    let mut bits = BitVec::new();
    for b in [0, 1, 0, 0, 0, 0, 0, 0, 0, 0, 0, 1, 0, 0, 0, 0, 0, 0, 0, 1, 1, 0, 0, 0, 0, 0, 0, 1, 0] {
        bits.push(b == 1);
    }
    for b in [0, 1, 0, 1, 1, 0] {
        bits.push(b == 1);
    }
    assert_eq!(decompression_huffman(&serialize_bit_vec(&bits)), Ok(vec![0, 1, 2, 0]));
}

#[test]
fn lz77_then_huffman_round_trips() {
    let mut long = Vec::new();
    for i in 0..6000u32 {
        long.push(((i / 3) % 17) as u8);
    }
    let inputs: Vec<Vec<u8>> = vec![
        vec![],
        vec![1],
        vec![9; 50],
        b"abcabcabcabcabcabcabcabcx".to_vec(),
        long,
    ];
    for input in inputs {
        let packed = compression_huffman(&compression_lz77(&input));
        let flat = decompression_huffman(&packed).unwrap();
        assert_eq!(decompression_lz77(&flat), Ok(input));
    }
}
