use data_compression::error::DecodeError;
use data_compression::lz_77::{lz77_coding, lz77_decoding, Cycle, VIEW_SIZE, WINDOW_SIZE};
use data_compression::{compression_lz77, decompression_lz77};

fn round_trip(input: Vec<u8>) {
    let coded: Vec<(u16, u8, u8)> = lz77_coding(&input).collect();
    let decoded: Vec<u8> = lz77_decoding(&coded).collect().unwrap();
    assert_eq!(input, decoded);
}

#[test]
fn lz_77_testing() {
    round_trip(vec![]);
    round_trip(vec![1]);
    round_trip(vec![1, 1, 1, 1, 1, 1, 1]);
    round_trip(vec![1, 2, 3, 1, 1, 2, 3, 1]);
    round_trip(vec![
        1, 2, 3, 1, 1, 2, 3, 1, 1, 2, 3, 1, 1, 2, 3, 1, 2, 2, 1, 2, 3, 4, 5, 1, 2, 3, 4, 3, 2, 1,
        5, 4, 3, 4,
    ]);
    round_trip(vec![
        91, 114, 111, 111, 116, 93, 10, 110, 97, 109, 101, 32, 61, 32, 34, 100, 97, 116, 97, 95,
        99, 111, 109, 112, 114, 101, 115, 115, 105, 111, 110, 34, 10, 118, 101, 114, 115, 105,
        111, 110, 32, 61, 32, 34, 48, 46, 49, 46, 48, 34, 10, 100, 101, 112, 101, 110, 100, 101,
        110, 99, 105, 101, 115, 32, 61, 32, 91, 10, 32, 34, 98, 105, 110, 97, 114, 121, 95, 104,
        101, 97, 112, 95, 99, 111, 109, 112, 97, 114, 101, 32, 48, 46, 49, 46, 48, 32, 40, 103,
        105, 116, 43, 104, 116, 116, 112, 115, 58, 47, 47, 103, 105, 116, 104, 117, 98, 46, 99,
        111, 109, 47, 97, 110, 116, 105, 103, 111, 108, 47, 98, 105, 110, 97, 114, 121, 95, 104,
        101, 97, 112, 95, 99, 111, 109, 112, 97, 114, 101, 41, 34, 44, 10, 32, 34, 98, 105, 116,
        45, 118, 101, 99, 32, 48, 46, 52, 46, 52, 32, 40, 114, 101, 103, 105, 115, 116, 114, 121,
        43, 104, 116, 116, 112, 115, 58, 47, 47, 103, 105, 116, 104, 117, 98, 46, 99, 111, 109,
        47, 114, 117, 115, 116, 45, 108, 97, 110,
    ]);
    let mut xs = Vec::new();
    for i in 0..1024 * 128 {
        xs.push(((123 * i + 7) % 5) as u8);
    }
    round_trip(xs);
}

#[test]
fn lz77_configuration() {
    assert_eq!(WINDOW_SIZE, 4096);
    assert_eq!(VIEW_SIZE, 16);
}

#[test]
fn lz77_tokens_of_a_run() {
    let input = vec![1u8, 1, 1, 1, 1, 1, 1];
    let coded = lz77_coding(&input).collect();
    assert_eq!(coded, vec![(0u16, 0u8, 1u8), (1, 5, 1)]);
}

#[test]
fn lz77_tokens_without_repeats() {
    let input = vec![1u8, 2, 3];
    let coded = lz77_coding(&input).collect();
    assert_eq!(coded, vec![(0u16, 0u8, 1u8), (0, 0, 2), (0, 0, 3)]);
}

#[test]
fn lz77_prefers_the_longest_copy() {
    // at position 5 the copy from distance 5 gives two bytes, the one from distance 2 a single one
    let input = vec![7u8, 8, 9, 7, 1, 7, 8, 2];
    let coded = lz77_coding(&input).collect();
    assert_eq!(
        coded,
        vec![(0u16, 0u8, 7u8), (0, 0, 8), (0, 0, 9), (3, 1, 1), (5, 2, 2)]
    );
}

#[test]
fn lz77_prefers_the_farthest_of_equal_copies() {
    // at position 6 the distances 3 and 6 both give two bytes; the farther one is taken
    let input = vec![1u8, 2, 9, 1, 2, 8, 1, 2, 7];
    let coded = lz77_coding(&input).collect();
    assert_eq!(
        coded,
        vec![(0u16, 0u8, 1u8), (0, 0, 2), (0, 0, 9), (3, 2, 8), (6, 2, 7)]
    );
}

#[test]
fn lz77_next_hands_out_one_token_per_call() {
    let input = vec![9u8, 9, 9];
    let mut it = lz77_coding(&input);
    assert_eq!(it.next(), Some((0, 0, 9)));
    assert_eq!(it.next(), Some((1, 1, 9)));
    assert_eq!(it.next(), None);
    assert_eq!(it.next(), None);
}

#[test]
fn lz77_decoding_hands_out_one_byte_per_call() {
    let coded = vec![(0u16, 0u8, 3u8), (1, 2, 4)];
    let mut it = lz77_decoding(&coded);
    assert_eq!(it.next(), Ok(Some(3)));
    assert_eq!(it.next(), Ok(Some(3)));
    assert_eq!(it.next(), Ok(Some(3)));
    assert_eq!(it.next(), Ok(Some(4)));
    assert_eq!(it.next(), Ok(None));
}

#[test]
fn lz77_overlapping_copy_decodes_byte_by_byte() {
    let coded = vec![(0u16, 0u8, 1u8), (0, 0, 2), (2, 5, 9)];
    let decoded = lz77_decoding(&coded).collect().unwrap();
    assert_eq!(decoded, vec![1, 2, 1, 2, 1, 2, 1, 9]);
}

#[test]
fn lz77_long_run_round_trips() {
    let input = vec![0xabu8; 5 * VIEW_SIZE + 3];
    let coded = lz77_coding(&input).collect();
    assert!(coded.iter().any(|t| t.1 as u16 > t.0));
    assert_eq!(lz77_decoding(&coded).collect(), Ok(input));
}

#[test]
fn lz77_beyond_the_window_round_trips() {
    let mut input = Vec::new();
    for i in 0..3 * WINDOW_SIZE + 17 {
        input.push(((i * i + 3 * i) % 251) as u8);
    }
    round_trip(input);
}

#[test]
fn lz77_zero_bytes_at_the_start_are_not_copied_from_nowhere() {
    let input = vec![0u8, 0, 0, 0];
    let coded = lz77_coding(&input).collect();
    assert_eq!(coded[0], (0, 0, 0));
    assert_eq!(lz77_decoding(&coded).collect(), Ok(input));
}

#[test]
fn lz77_distance_before_the_start_is_an_error() {
    let coded = vec![(1u16, 1u8, 0u8)];
    assert_eq!(
        lz77_decoding(&coded).collect(),
        Err(DecodeError::MalformedTokenStream)
    );
    let coded = vec![(0u16, 0u8, 5u8), (2, 1, 0)];
    assert_eq!(
        lz77_decoding(&coded).collect(),
        Err(DecodeError::MalformedTokenStream)
    );
}

#[test]
fn lz77_copy_with_distance_zero_is_an_error() {
    let coded = vec![(0u16, 0u8, 5u8), (0, 1, 0)];
    assert_eq!(
        lz77_decoding(&coded).collect(),
        Err(DecodeError::MalformedTokenStream)
    );
}

#[test]
fn lz77_bytes_before_a_bad_token_are_still_handed_out() {
    let coded = vec![(0u16, 0u8, 5u8), (3, 1, 0)];
    let mut it = lz77_decoding(&coded);
    assert_eq!(it.next(), Ok(Some(5)));
    assert_eq!(it.next(), Err(DecodeError::MalformedTokenStream));
}

#[test]
fn compression_lz77_writes_three_bytes_per_token() {
    assert_eq!(compression_lz77(&[]), Vec::<u8>::new());
    assert_eq!(compression_lz77(&[1]), vec![0, 0, 1]);
    // (1, 5, 1) packs to 1 * 16 + 5 = 21
    assert_eq!(compression_lz77(&[1, 1, 1, 1, 1, 1, 1]), vec![0, 0, 1, 21, 0, 1]);
}

#[test]
fn compression_lz77_packs_a_large_distance() {
    let mut input = vec![0u8; 300];
    for i in 0..300 {
        input[i] = (i % 256) as u8;
    }
    input[299] = 0;
    // the last bytes repeat what stood 256 bytes earlier
    let out = compression_lz77(&input);
    assert_eq!(out.len() % 3, 0);
    let n = out.len();
    let packed = (out[n - 2] as u16) * 256 + out[n - 3] as u16;
    assert_eq!(packed / 16, 256);
    assert_eq!(decompression_lz77(&out), Ok(input));
}

#[test]
fn decompression_lz77_reads_the_flat_form() {
    assert_eq!(decompression_lz77(&[]), Ok(vec![]));
    assert_eq!(decompression_lz77(&[0, 0, 1, 21, 0, 1]), Ok(vec![1, 1, 1, 1, 1, 1, 1]));
}

#[test]
fn decompression_lz77_rejects_a_broken_group() {
    assert_eq!(decompression_lz77(&[0]), Err(DecodeError::MalformedTokenStream));
    assert_eq!(decompression_lz77(&[0, 0]), Err(DecodeError::MalformedTokenStream));
    assert_eq!(
        decompression_lz77(&[0, 0, 1, 21]),
        Err(DecodeError::MalformedTokenStream)
    );
}

#[test]
fn decompression_lz77_rejects_a_distance_before_the_start() {
    assert_eq!(decompression_lz77(&[17, 0, 1]), Err(DecodeError::MalformedTokenStream));
}

#[test]
fn lz77_pipeline_round_trips() {
    let inputs: Vec<Vec<u8>> = vec![
        vec![],
        vec![0],
        vec![255],
        vec![3; 100],
        vec![1, 2, 3, 1, 2, 3, 1, 2, 3, 4],
        (0..=255u8).collect(),
    ];
    for input in inputs {
        assert_eq!(decompression_lz77(&compression_lz77(&input)), Ok(input));
    }
}

#[test]
fn cycle_starts_with_zero_bytes() {
    let ring = Cycle::new(4);
    assert_eq!(ring.index(0), 0);
    assert_eq!(ring.index(3), 0);
    assert_eq!(ring.index(-1), 0);
}

#[test]
fn cycle_push_drops_the_oldest() {
    let mut ring = Cycle::new(3);
    ring.push(1);
    ring.push(2);
    assert_eq!(ring.index(-1), 2);
    assert_eq!(ring.index(-2), 1);
    assert_eq!(ring.index(0), 0);
    ring.push(3);
    ring.push(4);
    assert_eq!(ring.index(0), 2);
    assert_eq!(ring.index(1), 3);
    assert_eq!(ring.index(2), 4);
    assert_eq!(ring.index(-3), 2);
}

#[test]
fn cycle_modulo_wraps_both_ways() {
    let mut ring = Cycle::new(5);
    assert_eq!(ring.modulo(0), 0);
    assert_eq!(ring.modulo(-1), 4);
    assert_eq!(ring.modulo(5), 0);
    assert_eq!(ring.modulo(-5), 0);
    assert_eq!(ring.modulo(12), 2);
    assert_eq!(ring.modulo(-12), 3);
    ring.push(9);
    ring.push(9);
    assert_eq!(ring.modulo(0), 2);
    assert_eq!(ring.modulo(4), 1);
    assert_eq!(ring.modulo(-3), 4);
}
