//! The encoder: header, prime bytes, one record after another, ending.

use crate::bits::{
    bytes_bits, sink_into_bytes, sink_new, sink_pad_to_byte, sink_write_bit, sink_write_bits,
    sink_write_byte, written_bits, BitSink,
};
use crate::history_reader::{min_int, HistoryReader};
use crate::search::{best_match, best_match_spec, first_match, first_match_spec, is_occurrence};
use crate::stream::{
    body_bits, encoded_bits, ending_bits, header_bits, lemma_bytes_bits, lemma_bytes_bits_push,
    lemma_ending, lemma_msb_bits_len, literal_bits, record_bits, reference_bits,
};
use crate::{
    calc_threshold, history_capacity, lemma_capacities, power_of_two, threshold_spec,
    valid_parameters, window_capacity, CodecError, BITS_FOR_HISTORY_ADDR_NBITS,
    BITS_FOR_MATCH_LENGTH_NBITS, RECORD_TYPE_LITERAL, RECORD_TYPE_REFERENCE,
};
use vstd::prelude::*;

verus! {

/// An encoder with its parameters fixed: the width of a history address, the
/// width of a match length, and how many candidates the search looks at.
pub struct Encoder {
    threshold: u8,
    history_addr_nbits: u8,
    match_length_nbits: u8,
    search_depth: u8,
    bits_written: u128,
}

/// The bits that the encoder counts for a stream whose body has `len` bits:
/// the body and, where it does not end on a byte boundary, the one tag bit of
/// the ending; the padding is not counted.
pub open spec fn counted_bits(len: nat) -> nat {
    if len % 8 == 0 {
        len
    } else {
        len + 1
    }
}

impl Encoder {
    /// Width of a history address, in bits.
    pub closed spec fn history_bits(&self) -> int {
        self.history_addr_nbits as int
    }

    /// Width of a match length, in bits.
    pub closed spec fn match_length_bits(&self) -> int {
        self.match_length_nbits as int
    }

    /// How many candidates the search counts before it stops; 0 for all.
    pub closed spec fn depth(&self) -> int {
        self.search_depth as int
    }

    /// The shortest match that is written as a reference.
    pub closed spec fn threshold(&self) -> int {
        self.threshold as int
    }

    /// How many bits were counted for the last stream.
    pub closed spec fn bits_written(&self) -> int {
        self.bits_written as int
    }

    /// The parameters are usable and the threshold is the one they give.
    pub closed spec fn wf(&self) -> bool {
        &&& valid_parameters(self.history_addr_nbits as int, self.match_length_nbits as int)
        &&& self.threshold == threshold_spec(
            self.history_addr_nbits as int,
            self.match_length_nbits as int,
        )
    }

    /// The two encoders differ at most in their bit count.
    closed spec fn same_parameters(&self, other: &Encoder) -> bool {
        &&& self.threshold == other.threshold
        &&& self.history_addr_nbits == other.history_addr_nbits
        &&& self.match_length_nbits == other.match_length_nbits
        &&& self.search_depth == other.search_depth
    }

    /// Makes an encoder, if the parameters are usable.
    pub fn new(history_addr_nbits: u8, match_length_nbits: u8, search_depth: u8) -> (made: Result<
        Encoder,
        CodecError,
    >)
        ensures
            match made {
                Ok(encoder) => {
                    &&& valid_parameters(history_addr_nbits as int, match_length_nbits as int)
                    &&& encoder.wf()
                    &&& encoder.history_bits() == history_addr_nbits
                    &&& encoder.match_length_bits() == match_length_nbits
                    &&& encoder.depth() == search_depth
                    &&& encoder.threshold() == threshold_spec(
                        history_addr_nbits as int,
                        match_length_nbits as int,
                    )
                    &&& encoder.bits_written() == 0
                },
                Err(error) => {
                    &&& !valid_parameters(history_addr_nbits as int, match_length_nbits as int)
                    &&& error == CodecError::Configuration
                },
            },
    {
        if history_addr_nbits < 3 || history_addr_nbits > 31 {
            return Err(CodecError::Configuration);
        }
        if match_length_nbits < 2 || match_length_nbits > 15 {
            return Err(CodecError::Configuration);
        }
        if history_addr_nbits <= match_length_nbits {
            return Err(CodecError::Configuration);
        }
        proof {
            lemma_capacities(history_addr_nbits as int, match_length_nbits as int);
        }
        let threshold = calc_threshold(history_addr_nbits as usize, match_length_nbits as usize) as u8;
        Ok(Encoder { threshold, history_addr_nbits, match_length_nbits, search_depth, bits_written: 0 })
    }

    /// The first run in `sequence` that agrees with the beginning of
    /// `subsequence`: where it starts and how long it is.
    pub fn find_first_match(&self, sequence: &[u8], subsequence: &[u8]) -> (found: (usize, usize))
        ensures
            (found.0 as int, found.1 as int) == first_match_spec(sequence@, subsequence@),
            is_occurrence(sequence@, subsequence@, (found.0 as int, found.1 as int)),
            sequence@.subrange(found.0 as int, found.0 + found.1) == subsequence@.take(
                found.1 as int,
            ),
    {
        first_match(sequence, subsequence)
    }

    /// The match that this encoder would refer to for `subsequence` within
    /// `sequence`, by its threshold and search depth.
    pub fn find_best_match(&self, sequence: &[u8], subsequence: &[u8]) -> (found: (usize, usize))
        ensures
            (found.0 as int, found.1 as int) == best_match_spec(
                sequence@,
                subsequence@,
                self.threshold(),
                self.depth(),
            ),
            found.1 == 0 || found.1 >= self.threshold(),
            is_occurrence(sequence@, subsequence@, (found.0 as int, found.1 as int)),
            sequence@.subrange(found.0 as int, found.0 + found.1) == subsequence@.take(
                found.1 as int,
            ),
    {
        best_match(sequence, subsequence, self.threshold as usize, self.search_depth as usize)
    }

    /// Encodes `input`. Inputs shorter than two windows are refused as
    /// truncated; every other input gives the stream of its header, prime
    /// bytes, records and ending, as whole bytes.
    pub fn encode(&mut self, input: Vec<u8>) -> (result: Result<Vec<u8>, CodecError>)
        requires
            old(self).wf(),
        ensures
            final(self).wf(),
            final(self).history_bits() == old(self).history_bits(),
            final(self).match_length_bits() == old(self).match_length_bits(),
            final(self).depth() == old(self).depth(),
            final(self).threshold() == old(self).threshold(),
            match result {
                Ok(archive) => {
                    &&& input@.len() >= 2 * window_capacity(
                        old(self).history_bits(),
                        old(self).match_length_bits(),
                    )
                    &&& bytes_bits(archive@) == encoded_bits(
                        input@,
                        old(self).history_bits(),
                        old(self).match_length_bits(),
                        old(self).depth(),
                    )
                    &&& final(self).bits_written() == counted_bits(
                        body_bits(
                            input@,
                            old(self).history_bits(),
                            old(self).match_length_bits(),
                            old(self).depth(),
                        ).len(),
                    )
                },
                Err(error) => {
                    &&& input@.len() < 2 * window_capacity(
                        old(self).history_bits(),
                        old(self).match_length_bits(),
                    )
                    &&& error == CodecError::TruncatedInput
                    &&& final(self).bits_written() == 9
                },
            },
    {
        let ghost source = input@;
        let input_len: usize = input.len();
        let ghost h = self.history_addr_nbits as int;
        let ghost m = self.match_length_nbits as int;
        let ghost depth = self.search_depth as int;
        proof {
            lemma_capacities(h, m);
        }
        self.bits_written = 0;
        let mut bw = sink_new();
        self.write_header(&mut bw);

        let history_size: usize = power_of_two(self.history_addr_nbits as usize);
        let current_window_size: usize = power_of_two(self.match_length_nbits as usize)
            + self.threshold as usize - 1;
        let mut reader = match HistoryReader::new(input, history_size, current_window_size) {
            Ok(reader) => reader,
            Err(error) => {
                return Err(error);
            },
        };
        let (history, window) = reader.current();
        self.write_initial_history(&mut bw, history);
        let mut remaining: usize = window.len();
        proof {
            reader.lemma_wf();
            assert(history@ =~= source.take(current_window_size as int));
            lemma_bytes_bits(history@);
            assert(written_bits(bw) + record_bits(source, h, m, depth, reader.consumed())
                =~= body_bits(source, h, m, depth));
        }

        let threshold: usize = self.threshold as usize;
        let search_depth: usize = self.search_depth as usize;
        while remaining > 0
            invariant
                self.wf(),
                self.same_parameters(old(self)),
                h == self.history_addr_nbits,
                m == self.match_length_nbits,
                depth == self.search_depth,
                threshold == self.threshold,
                search_depth == self.search_depth,
                valid_parameters(h, m),
                reader.wf(),
                reader.source_bytes() == source,
                source.len() == input_len,
                reader.history_limit() == history_capacity(h),
                current_window_size == window_capacity(h, m),
                current_window_size <= reader.consumed() <= source.len(),
                reader.fetched() == min_int(
                    reader.consumed() + current_window_size,
                    source.len() as int,
                ),
                remaining == reader.window_view().len(),
                self.bits_written == written_bits(bw).len(),
                self.bits_written <= 9 + 9 * reader.consumed(),
                written_bits(bw) + record_bits(source, h, m, depth, reader.consumed())
                    == body_bits(source, h, m, depth),
            decreases source.len() - reader.consumed(),
        {
            let (history, window) = reader.current();
            let bmatch = best_match(history, window, threshold, search_depth);
            let match_pos: usize = bmatch.0;
            let match_len: usize = bmatch.1;
            let ghost before = written_bits(bw);
            let ghost consumed = reader.consumed();
            proof {
                reader.lemma_wf();
                lemma_capacities(h, m);
            }
            let bytes_encoded: usize = if match_len > 0 {
                self.write_reference_record(&mut bw, match_pos, match_len);
                proof {
                    assert(before + reference_bits(h, m, match_pos as int, match_len as int)
                        + record_bits(source, h, m, depth, consumed + match_len) =~= before + (
                    reference_bits(h, m, match_pos as int, match_len as int) + record_bits(
                        source,
                        h,
                        m,
                        depth,
                        consumed + match_len,
                    )));
                }
                match_len
            } else {
                self.write_literal_record(&mut bw, window[0]);
                proof {
                    assert(before + literal_bits(window@[0]) + record_bits(
                        source,
                        h,
                        m,
                        depth,
                        consumed + 1,
                    ) =~= before + (literal_bits(window@[0]) + record_bits(
                        source,
                        h,
                        m,
                        depth,
                        consumed + 1,
                    )));
                }
                1
            };
            let new = reader.next(bytes_encoded);
            remaining = new.1.len();
        }
        proof {
            reader.lemma_wf();
            assert(record_bits(source, h, m, depth, reader.consumed()) =~= Seq::<bool>::empty());
            assert(written_bits(bw) =~= body_bits(source, h, m, depth));
        }
        let ghost body = written_bits(bw);
        self.write_ending(&mut bw);
        proof {
            lemma_ending(body.len());
            let all = written_bits(bw);
            assert(all.take(all.len() - all.len() % 8) =~= all);
        }
        Ok(sink_into_bytes(bw))
    }

    /// Writes a reference record: tag, position in the history, and length
    /// less the threshold.
    fn write_reference_record(&mut self, bw: &mut BitSink, pos: usize, length: usize)
        requires
            old(self).wf(),
            old(self).bits_written == written_bits(*old(bw)).len(),
            old(self).bits_written <= u128::MAX - 64,
            pos <= u32::MAX,
            old(self).threshold <= length,
            length - old(self).threshold <= u32::MAX,
        ensures
            final(self).same_parameters(old(self)),
            final(self).wf(),
            final(self).bits_written == written_bits(*final(bw)).len(),
            final(self).bits_written == old(self).bits_written + 1 + old(self).history_addr_nbits
                + old(self).match_length_nbits,
            written_bits(*final(bw)) == written_bits(*old(bw)) + reference_bits(
                old(self).history_addr_nbits as int,
                old(self).match_length_nbits as int,
                pos as int,
                length as int,
            ),
    {
        let ghost before = written_bits(*bw);
        sink_write_bit(bw, RECORD_TYPE_REFERENCE);
        let history_addr_nbits: usize = self.history_addr_nbits as usize;
        let match_length_nbits: usize = self.match_length_nbits as usize;
        sink_write_bits(bw, pos as u32, history_addr_nbits);
        let enc_len: u32 = (length - self.threshold as usize) as u32;
        sink_write_bits(bw, enc_len, match_length_nbits);
        self.bits_written = self.bits_written + 1 + history_addr_nbits as u128
            + match_length_nbits as u128;
        proof {
            lemma_msb_bits_len(pos as nat, history_addr_nbits as nat);
            lemma_msb_bits_len(enc_len as nat, match_length_nbits as nat);
            assert(written_bits(*bw) =~= before + reference_bits(
                self.history_addr_nbits as int,
                self.match_length_nbits as int,
                pos as int,
                length as int,
            ));
        }
    }

    /// Writes a literal record: tag, then the byte.
    fn write_literal_record(&mut self, bw: &mut BitSink, byte: u8)
        requires
            old(self).bits_written == written_bits(*old(bw)).len(),
            old(self).bits_written <= u128::MAX - 64,
        ensures
            final(self).same_parameters(old(self)),
            final(self).wf() == old(self).wf(),
            final(self).bits_written == written_bits(*final(bw)).len(),
            final(self).bits_written == old(self).bits_written + 9,
            written_bits(*final(bw)) == written_bits(*old(bw)) + literal_bits(byte),
    {
        let ghost before = written_bits(*bw);
        sink_write_bit(bw, RECORD_TYPE_LITERAL);
        sink_write_byte(bw, byte);
        self.bits_written = self.bits_written + 1 + 8;
        proof {
            lemma_msb_bits_len(byte as nat, 8);
            assert(written_bits(*bw) =~= before + literal_bits(byte));
        }
    }

    /// Ends the stream: if it does not stand on a byte boundary, one literal
    /// tag bit marks the end; zero bits then fill the last byte.
    fn write_ending(&mut self, bw: &mut BitSink)
        requires
            old(self).bits_written == written_bits(*old(bw)).len(),
            old(self).bits_written <= u128::MAX - 64,
        ensures
            final(self).same_parameters(old(self)),
            final(self).wf() == old(self).wf(),
            written_bits(*final(bw)) == written_bits(*old(bw)) + ending_bits(
                written_bits(*old(bw)).len(),
            ),
            final(self).bits_written == old(self).bits_written + if old(self).bits_written % 8
                == 0 {
                0int
            } else {
                1int
            },
    {
        let ghost before = written_bits(*bw);
        if self.bits_written % 8 != 0 {
            sink_write_bit(bw, RECORD_TYPE_LITERAL);
            self.bits_written = self.bits_written + 1;
        }
        sink_pad_to_byte(bw);
        proof {
            assert(written_bits(*bw) =~= before + ending_bits(before.len()));
        }
    }

    /// Writes the first history as it stands, byte by byte, so that a decoder
    /// has a history to resolve the first reference against.
    fn write_initial_history(&mut self, bw: &mut BitSink, bytes: &[u8])
        requires
            old(self).bits_written == written_bits(*old(bw)).len(),
            old(self).bits_written + 8 * bytes@.len() <= u128::MAX,
        ensures
            final(self).same_parameters(old(self)),
            final(self).wf() == old(self).wf(),
            final(self).bits_written == written_bits(*final(bw)).len(),
            final(self).bits_written == old(self).bits_written + 8 * bytes@.len(),
            written_bits(*final(bw)) == written_bits(*old(bw)) + bytes_bits(bytes@),
    {
        let ghost before = written_bits(*bw);
        let mut done: usize = 0;
        proof {
            assert(before + bytes_bits(bytes@.take(0)) =~= before);
        }
        while done < bytes.len()
            invariant
                done <= bytes@.len(),
                written_bits(*bw) == before + bytes_bits(bytes@.take(done as int)),
            decreases bytes@.len() - done,
        {
            sink_write_byte(bw, bytes[done]);
            proof {
                lemma_bytes_bits_push(bytes@.take(done as int), bytes@[done as int]);
                assert(bytes@.take(done as int).push(bytes@[done as int]) =~= bytes@.take(
                    done + 1,
                ));
                assert(written_bits(*bw) =~= before + bytes_bits(bytes@.take(done + 1)));
            }
            done += 1;
        }
        proof {
            assert(bytes@.take(bytes@.len() as int) =~= bytes@);
            lemma_bytes_bits(bytes@);
        }
        self.bits_written = self.bits_written + (bytes.len() as u128) * 8;
    }

    /// Writes the header: both widths, each in its field.
    fn write_header(&mut self, bw: &mut BitSink)
        requires
            old(self).bits_written == written_bits(*old(bw)).len(),
            old(self).bits_written <= u128::MAX - 64,
        ensures
            final(self).same_parameters(old(self)),
            final(self).wf() == old(self).wf(),
            final(self).bits_written == written_bits(*final(bw)).len(),
            final(self).bits_written == old(self).bits_written + 9,
            written_bits(*final(bw)) == written_bits(*old(bw)) + header_bits(
                old(self).history_addr_nbits as int,
                old(self).match_length_nbits as int,
            ),
    {
        let ghost before = written_bits(*bw);
        sink_write_bits(bw, self.history_addr_nbits as u32, BITS_FOR_HISTORY_ADDR_NBITS);
        sink_write_bits(bw, self.match_length_nbits as u32, BITS_FOR_MATCH_LENGTH_NBITS);
        self.bits_written = self.bits_written + (BITS_FOR_HISTORY_ADDR_NBITS
            + BITS_FOR_MATCH_LENGTH_NBITS) as u128;
        proof {
            lemma_msb_bits_len(self.history_addr_nbits as nat, 5);
            lemma_msb_bits_len(self.match_length_nbits as nat, 4);
            assert(written_bits(*bw) =~= before + header_bits(
                self.history_addr_nbits as int,
                self.match_length_nbits as int,
            ));
        }
    }
}

} // verus!
