use lzss::decoder::{decode, Decoder};
use lzss::encoder::Encoder;
use lzss::{calc_threshold, power_of_two, CodecError};

fn encode_with(input: &[u8], history_bits: u8, match_length_bits: u8, depth: u8) -> Vec<u8> {
    let mut encoder = Encoder::new(history_bits, match_length_bits, depth).unwrap();
    encoder.encode(input.to_vec()).unwrap()
}

fn sample_text() -> Vec<u8> {
    b"the quick brown fox jumps over the lazy dog; the quick brown fox jumps over the lazy dog again and again"
        .to_vec()
}

#[test]
fn threshold_formula() {
    assert_eq!(calc_threshold(4, 2), 1);
    assert_eq!(calc_threshold(3, 2), 1);
    assert_eq!(calc_threshold(6, 2), 2);
    assert_eq!(calc_threshold(12, 4), 2);
    assert_eq!(calc_threshold(13, 4), 3);
    assert_eq!(calc_threshold(31, 15), 6);
}

#[test]
fn powers_of_two() {
    assert_eq!(power_of_two(0), 1);
    assert_eq!(power_of_two(2), 4);
    assert_eq!(power_of_two(15), 32768);
    assert_eq!(power_of_two(31), 2147483648);
}

#[test]
fn encoder_refuses_parameters_out_of_range() {
    assert_eq!(Encoder::new(2, 2, 0).err(), Some(CodecError::Configuration));
    assert_eq!(Encoder::new(32, 4, 0).err(), Some(CodecError::Configuration));
    assert_eq!(Encoder::new(12, 1, 0).err(), Some(CodecError::Configuration));
    assert_eq!(Encoder::new(31, 16, 0).err(), Some(CodecError::Configuration));
    assert_eq!(Encoder::new(4, 4, 0).err(), Some(CodecError::Configuration));
    assert_eq!(Encoder::new(4, 5, 0).err(), Some(CodecError::Configuration));
    assert!(Encoder::new(3, 2, 0).is_ok());
    assert!(Encoder::new(31, 15, 255).is_ok());
}

#[test]
fn repeated_run_is_encoded_as_one_reference() {
    let input = b"AAAAAAAA".to_vec();
    let archive = encode_with(&input, 4, 2, 0);
    assert_eq!(archive, vec![33, 32, 160, 160, 160, 131]);
    assert_eq!(decode(archive), Ok(input));
}

#[test]
fn exact_stream_of_mixed_records() {
    let input = b"abcabcabcabcxyzabcabc".to_vec();
    let archive = encode_with(&input, 4, 2, 0);
    assert_eq!(archive, vec![33, 48, 177, 49, 176, 134, 14, 34, 241, 121, 189, 3, 11]);
    assert_eq!(decode(archive), Ok(input));
}

#[test]
fn exact_stream_of_literals_only() {
    let input: Vec<u8> = vec![0, 1, 2, 3, 4, 5, 6, 7, 8];
    let archive = encode_with(&input, 3, 2, 0);
    assert_eq!(archive, vec![25, 0, 0, 129, 1, 193, 32, 176, 104, 60, 34]);
    assert_eq!(decode(archive), Ok(input));
}

#[test]
fn exact_stream_with_default_parameters() {
    let input = sample_text();
    let archive = encode_with(&input, 12, 4, 0);
    assert_eq!(
        archive,
        vec![
            98, 58, 52, 50, 144, 56, 186, 180, 177, 181, 144, 49, 57, 55, 187, 183, 16, 51, 91,
            239, 18, 11, 85, 214, 219, 112, 185, 200, 45, 247, 107, 45, 202, 64, 0, 2, 182, 88,
            111, 87, 153, 5, 146, 223, 103, 157, 128, 120, 192, 9, 224, 21, 240, 19, 28, 130, 195,
            103, 176, 218, 64, 28, 22, 27, 117, 144, 11, 9
        ]
    );
    assert_eq!(decode(archive), Ok(input));
}

#[test]
fn round_trip_over_parameters_and_depths() {
    let mut input: Vec<u8> = Vec::new();
    let mut state: u32 = 12345;
    for _ in 0..3000 {
        state = state.wrapping_mul(1103515245).wrapping_add(12345);
        input.push(((state >> 16) % 5) as u8);
    }
    for (history_bits, match_length_bits) in [(3u8, 2u8), (4, 2), (8, 3), (12, 4), (10, 9), (16, 6)] {
        for depth in [0u8, 1, 2, 7] {
            let archive = encode_with(&input, history_bits, match_length_bits, depth);
            assert_eq!(decode(archive), Ok(input.clone()));
        }
    }
}

#[test]
fn round_trip_of_incompressible_bytes() {
    let input: Vec<u8> = (0..=255u8).collect();
    let archive = encode_with(&input, 12, 4, 0);
    assert_eq!(decode(archive), Ok(input));
}

#[test]
fn header_carries_the_parameters() {
    let input = sample_text();
    for (history_bits, match_length_bits) in [(3u8, 2u8), (12, 4), (20, 5), (31, 4)] {
        let archive = encode_with(&input, history_bits, match_length_bits, 0);
        let first = archive[0] as usize;
        let second = archive[1] as usize;
        assert_eq!(first >> 3, history_bits as usize);
        assert_eq!(((first & 7) << 1) | (second >> 7), match_length_bits as usize);
        assert!(Decoder::new(archive).is_ok());
    }
}

#[test]
fn ending_on_byte_boundary_adds_nothing() {
    let archive = encode_with(b"AAAAAAAA", 4, 2, 0);
    assert_eq!(archive.len() * 8, 48);
    assert_eq!(archive[5], 0b1000_0011);
}

#[test]
fn ending_off_byte_boundary_adds_one_tag_bit() {
    let input: Vec<u8> = vec![1, 2, 3, 4, 5, 6, 7, 8];
    let archive = encode_with(&input, 4, 2, 0);
    assert_eq!(archive, vec![33, 0, 129, 1, 130, 65, 96, 208, 120, 68]);
    assert_eq!(archive[9] & 0b0000_0111, 0b100);
    assert_eq!(decode(archive), Ok(input));
}

#[test]
fn smallest_input_is_two_windows() {
    let mut encoder = Encoder::new(4, 2, 0).unwrap();
    assert_eq!(encoder.encode(vec![1, 2, 3, 4, 5, 6, 7]), Err(CodecError::TruncatedInput));
    assert_eq!(encoder.encode(vec![1, 2, 3, 4]), Err(CodecError::TruncatedInput));
    assert_eq!(encoder.encode(Vec::new()), Err(CodecError::TruncatedInput));
    let archive = encoder.encode(vec![1, 2, 3, 4, 5, 6, 7, 8]).unwrap();
    assert_eq!(decode(archive), Ok(vec![1, 2, 3, 4, 5, 6, 7, 8]));
}

#[test]
fn stream_of_prime_bytes_alone_decodes_to_them() {
    assert_eq!(decode(vec![33, 5, 10, 15, 20, 64]), Ok(vec![10, 20, 30, 40]));
}

#[test]
fn encoder_can_be_used_again() {
    let mut encoder = Encoder::new(4, 2, 0).unwrap();
    let first = encoder.encode(vec![1, 2, 3, 4, 5, 6, 7, 8]).unwrap();
    let second = encoder.encode(vec![1, 2, 3, 4, 5, 6, 7, 8]).unwrap();
    assert_eq!(first, second);
}

#[test]
fn reference_is_resolved_against_history() {
    assert_eq!(decode(vec![33, 5, 10, 15, 20, 6]), Ok(vec![10, 20, 30, 40, 20, 30, 40]));
}

#[test]
fn reference_beyond_history_is_corrupt() {
    assert_eq!(decode(vec![33, 5, 10, 15, 20, 15]), Err(CodecError::CorruptStream));
}

#[test]
fn stream_cut_inside_header_or_prime_is_truncated() {
    assert_eq!(decode(Vec::new()), Err(CodecError::TruncatedInput));
    assert_eq!(decode(vec![33]), Err(CodecError::TruncatedInput));
    assert_eq!(decode(vec![33, 5, 10]), Err(CodecError::TruncatedInput));
    assert_eq!(decode(vec![33, 5, 10, 15, 20]), Err(CodecError::TruncatedInput));
}

#[test]
fn stream_cut_inside_reference_is_truncated() {
    let archive = vec![98, 0, 0, 129, 1, 130, 2, 131, 3, 132, 4, 133, 5, 134, 6, 135, 7, 136, 0];
    assert_eq!(decode(archive), Err(CodecError::TruncatedInput));
}

#[test]
fn header_out_of_range_is_refused() {
    assert_eq!(decode(vec![17, 0]), Err(CodecError::Configuration));
    assert_eq!(decode(vec![34, 0]), Err(CodecError::Configuration));
    assert_eq!(Decoder::new(vec![17, 0]).err(), Some(CodecError::Configuration));
}

#[test]
fn decoder_in_steps() {
    let mut decoder = Decoder::new(vec![33, 5, 10, 15, 20, 6]).ok().unwrap();
    assert_eq!(decoder.decode(), Ok(()));
    assert_eq!(decoder.into_output(), vec![10, 20, 30, 40, 20, 30, 40]);
}
