use data_compression::error::DecodeError;
use data_compression::lz_78::{lz78_coding, lz78_decoding};
use data_compression::{compression_lz78, decompression_lz78};

#[test]
fn lz_78_testing() {
    let input: Vec<u8> = vec![
        1, 1, 2, 1, 2, 2, 2, 1, 2, 1, 1, 2, 1, 2, 2, 2, 1, 2, 2, 1, 2, 2, 6, 5, 4, 3, 6, 5, 4, 3,
        2, 3, 4, 4, 4, 4, 4, 5, 6, 7, 8, 4, 9, 9, 9, 9, 9, 9, 9, 9, 9, 9, 9, 9, 7,
    ];
    println!("Input {:?}", input);
    let coded = lz78_coding(&input);
    println!("Coded {:?}", coded);
    let decoded = lz78_decoding(&coded);

    println!("Decoded {:?}", decoded);
    assert_eq!(input, decoded.unwrap());
}

#[test]
fn lz78_tokens_of_a_short_input() {
    // phrases: 1 = [1], 2 = [1, 2]; the last phrase [1, 2] is known and is spelled out
    assert_eq!(lz78_coding(&[1, 1, 2, 1, 2]), vec![(0, 1), (1, 2), (1, 2)]);
}

#[test]
fn lz78_tokens_of_empty_and_single() {
    assert_eq!(lz78_coding(&[]), Vec::<(u64, u8)>::new());
    assert_eq!(lz78_coding(&[7]), vec![(0, 7)]);
}

#[test]
fn lz78_last_phrase_of_one_byte_points_at_the_empty_phrase() {
    assert_eq!(lz78_coding(&[5, 5]), vec![(0, 5), (0, 5)]);
}

#[test]
fn lz78_pointers_grow_with_a_run() {
    // phrases: [9], [9, 9], [9, 9, 9]
    assert_eq!(lz78_coding(&[9, 9, 9, 9, 9, 9]), vec![(0, 9), (1, 9), (2, 9)]);
    assert_eq!(lz78_coding(&[9, 9, 9, 9, 9, 9, 9]), vec![(0, 9), (1, 9), (2, 9), (0, 9)]);
    assert_eq!(
        lz78_coding(&[9, 9, 9, 9, 9, 9, 9, 9]),
        vec![(0, 9), (1, 9), (2, 9), (1, 9)]
    );
}

#[test]
fn lz78_decoding_rebuilds_the_dictionary() {
    assert_eq!(lz78_decoding(&[]), Ok(vec![]));
    assert_eq!(lz78_decoding(&[(0, 1), (1, 2), (1, 2)]), Ok(vec![1, 1, 2, 1, 2]));
    assert_eq!(lz78_decoding(&[(0, 3), (1, 4), (2, 5)]), Ok(vec![3, 3, 4, 3, 4, 5]));
    // a token may point at the phrase of the token just before it
    assert_eq!(lz78_decoding(&[(0, 1), (1, 1)]), Ok(vec![1, 1, 1]));
}

#[test]
fn lz78_unregistered_pointer_is_an_error() {
    assert_eq!(lz78_decoding(&[(1, 0)]), Err(DecodeError::InvalidDictionaryReference));
    assert_eq!(
        lz78_decoding(&[(0, 1), (2, 0)]),
        Err(DecodeError::InvalidDictionaryReference)
    );
    assert_eq!(
        lz78_decoding(&[(0, 1), (1, 2), (u64::MAX, 3)]),
        Err(DecodeError::InvalidDictionaryReference)
    );
}

#[test]
fn lz78_round_trips() {
    let mut long = Vec::new();
    for i in 0..5000u32 {
        long.push(((i * i + 7 * i) % 13) as u8);
    }
    let inputs: Vec<Vec<u8>> = vec![vec![], vec![0], vec![1, 1], vec![2; 1000], long];
    for input in inputs {
        assert_eq!(lz78_decoding(&lz78_coding(&input)), Ok(input));
    }
}

#[test]
fn lz78_pipeline_empty_is_empty() {
    assert_eq!(compression_lz78(&[]), Vec::<u8>::new());
    assert_eq!(decompression_lz78(&[]), Ok(vec![]));
}

#[test]
fn lz78_pipeline_round_trips() {
    let mut long = Vec::new();
    for i in 0..3000u32 {
        long.push(((i * 31 + i / 7) % 256) as u8);
    }
    let inputs: Vec<Vec<u8>> = vec![
        vec![5],
        vec![5, 5],
        vec![5, 5, 5],
        vec![1, 2],
        vec![0; 11],
        vec![1, 1, 2, 1, 2, 2, 2, 1, 2, 1, 1, 2, 1, 2, 2, 2, 1, 2, 2],
        (0..=255u8).collect(),
        long,
    ];
    for input in inputs {
        let coded = compression_lz78(&input);
        assert_eq!(decompression_lz78(&coded), Ok(input));
    }
}

#[test]
fn lz78_pipeline_every_single_byte_round_trips() {
    for b in 0..=255u8 {
        let coded = compression_lz78(&[b]);
        assert_eq!(decompression_lz78(&coded), Ok(vec![b]));
        let coded = compression_lz78(&[b, b, b, b]);
        assert_eq!(decompression_lz78(&coded), Ok(vec![b, b, b, b]));
    }
}

#[test]
fn lz78_pipeline_stream_of_a_single_byte() {
    // One token (0, 5). Both trees get a placeholder: pointers {0, 1}, literals {5, 0}.
    // Each tree takes 1 + 2 * (1 + width) bits, then one bit per code:
    // 131 + 19 + 2 = 152 bits, which is 19 bytes without padding.
    let coded = compression_lz78(&[5]);
    assert_eq!(coded.len(), 19 + 1);
    assert_eq!(coded[coded.len() - 1], 0);
}

#[test]
fn decompression_lz78_rejects_truncated_streams() {
    let coded = compression_lz78(&[1, 2, 3, 1, 2, 3, 1, 2, 3]);
    assert_eq!(
        decompression_lz78(&coded[coded.len() - 1..]).err(),
        Some(DecodeError::UnexpectedEndOfInput)
    );
    // only the start of the pointer tree
    assert_eq!(
        decompression_lz78(&[0b0100_0000, 0]).err(),
        Some(DecodeError::IncompleteSymbol)
    );
    // a branch and nothing below it
    assert_eq!(
        decompression_lz78(&[0b0000_0000, 7]).err(),
        Some(DecodeError::UnexpectedEndOfInput)
    );
}
