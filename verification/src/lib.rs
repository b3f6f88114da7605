//! A lossless byte-stream codec of the LZSS family: backward references into a
//! bounded sliding history, written as a bit-exact record stream.

pub mod bits;
pub mod decoder;
pub mod deque;
pub mod encoder;
pub mod history_reader;
pub mod search;
pub mod stream;

use vstd::arithmetic::power2::{lemma2_to64, lemma_pow2_strictly_increases, pow2};
use vstd::prelude::*;

verus! {

/// Width of the header field that holds the history address width.
pub const BITS_FOR_HISTORY_ADDR_NBITS: usize = 5;

/// Width of the header field that holds the match length width.
pub const BITS_FOR_MATCH_LENGTH_NBITS: usize = 4;

/// Narrowest history address that the codec takes, in bits.
pub const MIN_HISTORY_ADDR_BITS: usize = 3;

/// Widest history address that the codec takes, in bits.
pub const MAX_HISTORY_ADDR_BITS: usize = 31;

/// Narrowest match length that the codec takes, in bits.
pub const MIN_MATCH_LENGTH_BITS: usize = 2;

/// Widest match length that the codec takes, in bits.
pub const MAX_MATCH_LENGTH_BITS: usize = 15;

/// Tag bit of a literal record.
pub const RECORD_TYPE_LITERAL: bool = true;

/// Tag bit of a reference record.
pub const RECORD_TYPE_REFERENCE: bool = false;

/// Why a stream could not be encoded or decoded.
#[derive(Clone, Copy, Debug, PartialEq, Eq, Structural)]
pub enum CodecError {
    /// The parameters, given or read from a header, are outside their ranges.
    Configuration,
    /// The input ends before the codec has what it must have.
    TruncatedInput,
    /// A reference points outside the history.
    CorruptStream,
}

/// The parameters are usable: both widths within their ranges, and the
/// history address wider than the match length.
pub open spec fn valid_parameters(history_bits: int, match_length_bits: int) -> bool {
    &&& 3 <= history_bits <= 31
    &&& 2 <= match_length_bits <= 15
    &&& history_bits > match_length_bits
}

/// The shortest match worth a reference: one more than the number of whole
/// literal records that fit into a reference record.
pub open spec fn threshold_spec(history_bits: int, match_length_bits: int) -> int {
    (1 + history_bits + match_length_bits) / 9 + 1
}

/// Capacity of the history, in bytes.
pub open spec fn history_capacity(history_bits: int) -> int {
    pow2(history_bits as nat) as int
}

/// Capacity of the window, in bytes: the longest match that a reference can
/// express.
pub open spec fn window_capacity(history_bits: int, match_length_bits: int) -> int {
    pow2(match_length_bits as nat) + threshold_spec(history_bits, match_length_bits) - 1
}

/// With usable parameters the window is not empty and fits into the history,
/// and a reference record is shorter than the literals it stands for.
pub proof fn lemma_capacities(history_bits: int, match_length_bits: int)
    requires
        valid_parameters(history_bits, match_length_bits),
    ensures
        1 <= threshold_spec(history_bits, match_length_bits) <= 6,
        1 + history_bits + match_length_bits < 9 * threshold_spec(history_bits, match_length_bits),
        4 <= pow2(match_length_bits as nat) <= 0x8000,
        8 <= history_capacity(history_bits) <= 0x8000_0000,
        0 < window_capacity(history_bits, match_length_bits) <= history_capacity(history_bits),
        window_capacity(history_bits, match_length_bits) <= 0x8005,
{
    lemma2_to64();
    let m = match_length_bits as nat;
    let h = history_bits as nat;
    if m < 15 {
        lemma_pow2_strictly_increases(m, 15);
    }
    if 2 < m {
        lemma_pow2_strictly_increases(2, m);
    }
    if h < 31 {
        lemma_pow2_strictly_increases(h, 31);
    }
    if 3 < h {
        lemma_pow2_strictly_increases(3, h);
    }
    lemma_pow2_strictly_increases(m, h);
    if m + 1 < h {
        lemma_pow2_strictly_increases(m + 1, h);
    }
    assert(pow2(m + 1) == 2 * pow2(m)) by {
        vstd::arithmetic::power2::lemma_pow2_unfold(m + 1);
    }
}

/// The shortest match length that is encoded as a reference.
pub fn calc_threshold(history_addr_nbits: usize, match_length_nbits: usize) -> (threshold: usize)
    requires
        1 + history_addr_nbits + match_length_nbits <= usize::MAX,
    ensures
        threshold == threshold_spec(history_addr_nbits as int, match_length_nbits as int),
{
    (1 + history_addr_nbits + match_length_nbits) / 9 + 1
}

/// Two to the power `bits`.
pub fn power_of_two(bits: usize) -> (power: usize)
    requires
        bits <= 31,
    ensures
        power == pow2(bits as nat),
{
    let mut power: usize = 1;
    let mut done: usize = 0;
    proof {
        lemma2_to64();
    }
    while done < bits
        invariant
            done <= bits <= 31,
            power == pow2(done as nat),
        decreases bits - done,
    {
        proof {
            lemma2_to64();
            lemma_pow2_strictly_increases(done as nat, 31);
            vstd::arithmetic::power2::lemma_pow2_unfold((done + 1) as nat);
        }
        power = power * 2;
        done += 1;
    }
    power
}

} // verus!
