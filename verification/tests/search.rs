use lzss::encoder::Encoder;
use lzss::search::{best_match, first_match};

fn fill_with_random(buffer: &mut [u8], prob: u8) {
    for el in buffer {
        *el = rand::random::<u8>() % prob;
    }
}

#[test]
fn are_matches_valid() {
    for _ in 0..12 {
        let mut sequence: [u8; 16] = [0; 16];
        fill_with_random(&mut sequence, 4);
        let subsequence: [u8; 8] = [0, 3, 3, 2, 1, 0, 3, 0];

        let (pos, len) = first_match(&sequence, &subsequence);
        println!("Match: {}, {}", pos, len);
        assert!(
            sequence[pos..pos + len] == subsequence[0..len],
            "This is not a match"
        );
    }
}

#[test]
fn alternative_best_match_impl_test() {
    for _ in 0..8 {
        let mut sequence: [u8; 64] = [0; 64];
        fill_with_random(&mut sequence, 4);
        let subsequence: [u8; 8] = [0, 3, 1, 2, 1, 0, 3, 0];

        let threshold = 3;
        let (pos, len) = best_match(&sequence, &subsequence, threshold, 0);

        let alt_find = || {
            for len in (threshold..subsequence.len()).rev() {
                if let Some(pos) = sequence
                    .windows(len)
                    .position(|window| window == &subsequence[0..len])
                {
                    return (pos, len);
                }
            }
            (0, 0)
        };

        let (pos1, len1) = alt_find();
        assert!(pos == pos1 && len == len1, "Results don't match");
        println!("pos: {}, len: {}", pos, len);
    }
}

#[test]
fn first_match_returns_first_partial_run() {
    assert_eq!(first_match(&[5, 1, 2, 7, 1, 2, 3], &[1, 2, 3]), (1, 2));
}

#[test]
fn first_match_returns_whole_match() {
    assert_eq!(first_match(&[9, 9, 1, 2, 3, 4], &[1, 2, 3]), (2, 3));
}

#[test]
fn first_match_without_any_matching_byte() {
    assert_eq!(first_match(&[4, 5, 6], &[1, 2]), (0, 0));
}

#[test]
fn first_match_on_empty_inputs() {
    assert_eq!(first_match(&[], &[]), (0, 0));
    assert_eq!(first_match(&[1, 2, 3], &[]), (0, 0));
    assert_eq!(first_match(&[], &[1]), (0, 0));
}

#[test]
fn first_match_run_cut_by_end_of_sequence() {
    assert_eq!(first_match(&[7, 1, 2], &[1, 2, 3]), (1, 2));
    assert_eq!(first_match(&[1, 2], &[1, 2, 3]), (0, 2));
}

#[test]
fn first_match_range_equals_prefix() {
    let sequence = [3u8, 0, 3, 3, 1, 0, 3, 3, 2, 1, 0, 3, 0, 2];
    let subsequence = [0u8, 3, 3, 2, 1, 0, 3, 0];
    let (pos, len) = first_match(&sequence, &subsequence);
    assert_eq!((pos, len), (1, 3));
    assert_eq!(sequence[pos..pos + len], subsequence[0..len]);
}

#[test]
fn best_match_exhaustive_finds_longest() {
    let sequence = [1u8, 2, 9, 1, 2, 3, 9, 1, 2, 3, 4];
    assert_eq!(best_match(&sequence, &[1, 2, 3, 4], 2, 0), (7, 4));
}

#[test]
fn best_match_depth_one_takes_first_candidate() {
    let sequence = [1u8, 2, 9, 1, 2, 3, 9, 1, 2, 3, 4];
    assert_eq!(best_match(&sequence, &[1, 2, 3, 4], 2, 1), (0, 2));
}

#[test]
fn best_match_depth_two_takes_longest_of_first_two() {
    let sequence = [1u8, 2, 9, 1, 2, 3, 9, 1, 2, 3, 4];
    assert_eq!(best_match(&sequence, &[1, 2, 3, 4], 2, 2), (3, 3));
}

#[test]
fn best_match_counts_only_candidates_at_threshold() {
    let sequence = [1u8, 2, 9, 1, 2, 3, 9, 1, 2, 3, 4];
    assert_eq!(best_match(&sequence, &[1, 2, 3, 4], 3, 1), (3, 3));
    assert_eq!(best_match(&sequence, &[1, 2, 3, 4], 4, 1), (7, 4));
}

#[test]
fn best_match_below_threshold_is_empty() {
    let sequence = [1u8, 2, 9, 1, 2, 3, 9, 1, 2, 3, 4];
    assert_eq!(best_match(&sequence, &[1, 2, 3, 4], 5, 0), (0, 0));
    assert_eq!(best_match(&sequence, &[8, 8], 1, 0), (0, 0));
    assert_eq!(best_match(&sequence, &[], 0, 0), (0, 0));
    assert_eq!(best_match(&[], &[1, 2], 1, 0), (0, 0));
}

#[test]
fn best_match_keeps_earliest_of_equally_long() {
    assert_eq!(best_match(&[1, 2, 0, 1, 2, 0, 1, 2], &[1, 2, 5], 1, 0), (0, 2));
}

#[test]
fn best_match_run_cut_by_end_of_sequence() {
    assert_eq!(best_match(&[0, 0, 1, 2, 3], &[1, 2, 3, 4, 5], 3, 0), (2, 3));
    assert_eq!(best_match(&[6, 6, 6], &[6, 6, 6, 6], 1, 0), (0, 3));
}

#[test]
fn best_match_is_at_least_brute_force_longest() {
    let sequence = [0u8, 3, 1, 0, 3, 1, 2, 2, 0, 3, 1, 2, 1, 0, 0, 3, 1, 2, 1, 0, 3, 3];
    let subsequence = [0u8, 3, 1, 2, 1, 0, 3, 0];
    let threshold = 3;
    let (pos, len) = best_match(&sequence, &subsequence, threshold, 0);
    let mut longest = 0;
    for start in 0..sequence.len() {
        let mut run = 0;
        while run < subsequence.len()
            && start + run < sequence.len()
            && sequence[start + run] == subsequence[run]
        {
            run += 1;
        }
        if run >= threshold && run > longest {
            longest = run;
        }
    }
    assert_eq!(longest, 7);
    assert_eq!((pos, len), (14, 7));
}

#[test]
fn encoder_searches_with_its_own_threshold_and_depth() {
    let sequence = [1u8, 2, 9, 1, 2, 3, 9, 1, 2, 3, 4];
    let exhaustive = Encoder::new(12, 4, 0).unwrap();
    assert_eq!(exhaustive.find_best_match(&sequence, &[1, 2, 3, 4]), (7, 4));
    let first = Encoder::new(12, 4, 1).unwrap();
    assert_eq!(first.find_best_match(&sequence, &[1, 2, 3, 4]), (0, 2));
    let high = Encoder::new(31, 15, 0).unwrap();
    assert_eq!(high.find_best_match(&sequence, &[1, 2, 3, 4]), (0, 0));
    assert_eq!(first.find_first_match(&sequence, &[1, 2, 3, 4]), (0, 2));
}
