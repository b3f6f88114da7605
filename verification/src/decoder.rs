//! The decoder: header, prime bytes, then one record after another, each
//! resolved against the history of bytes decoded so far.

use crate::bits::{
    bits_value, bytes_bits, source_new, source_read_bit, source_read_bits, source_read_byte,
    unread_bits, BitSource,
};
use crate::deque::{deque_as_slice, deque_bytes, deque_len, deque_new, deque_pop_front, deque_push_back};
use crate::history_reader::history_of;
use crate::stream::{
    bits_bytes, decoded, decoded_records, decoded_stream, lemma_bits_value_bound, parsed_header,
};
use crate::{
    calc_threshold, history_capacity, lemma_capacities, power_of_two, threshold_spec,
    valid_parameters, window_capacity, CodecError, BITS_FOR_HISTORY_ADDR_NBITS,
    BITS_FOR_MATCH_LENGTH_NBITS, MAX_HISTORY_ADDR_BITS, MAX_MATCH_LENGTH_BITS,
    MIN_HISTORY_ADDR_BITS, MIN_MATCH_LENGTH_BITS, RECORD_TYPE_LITERAL,
};
use slice_deque::SliceDeque;
use vstd::prelude::*;
use vstd::slice::{slice_subrange, slice_to_vec};

verus! {

/// One unit of a stream: a byte as it stands, or a run of bytes of the
/// history, given by where it starts there and how long it is.
#[derive(Clone, Copy, Debug, PartialEq, Eq, Structural)]
pub(crate) enum Record {
    Reference { position: usize, length: usize },
    Literal { byte: u8 },
}

/// A decoder in the middle of a stream: the bits not yet read, the bytes
/// decoded so far, and the history that references are resolved against.
pub struct Decoder {
    br: BitSource,
    output: Vec<u8>,
    history_addr_nbits: usize,
    match_length_nbits: usize,
    threshold: usize,
    history: SliceDeque<u8>,
    history_size: usize,
    current_window_size: usize,
}

impl Decoder {
    /// Width of a history address, in bits, as the header gave it.
    pub closed spec fn history_bits(&self) -> int {
        self.history_addr_nbits as int
    }

    /// Width of a match length, in bits, as the header gave it.
    pub closed spec fn match_length_bits(&self) -> int {
        self.match_length_nbits as int
    }

    /// The bits of the stream that were not read yet.
    pub closed spec fn unread(&self) -> Seq<bool> {
        unread_bits(self.br)
    }

    /// The bytes decoded so far.
    pub closed spec fn decoded_bytes(&self) -> Seq<u8> {
        self.output@
    }

    /// The widths are usable, the sizes are the ones they give, and the
    /// history holds the last bytes decoded, up to its capacity.
    pub closed spec fn wf(&self) -> bool {
        &&& valid_parameters(self.history_addr_nbits as int, self.match_length_nbits as int)
        &&& self.threshold == threshold_spec(
            self.history_addr_nbits as int,
            self.match_length_nbits as int,
        )
        &&& self.history_size == history_capacity(self.history_addr_nbits as int)
        &&& self.current_window_size == window_capacity(
            self.history_addr_nbits as int,
            self.match_length_nbits as int,
        )
        &&& deque_bytes(self.history) == history_of(
            self.output@,
            self.output@.len() as int,
            self.history_size as int,
        )
    }

    /// The two decoders have the same widths and sizes.
    closed spec fn same_parameters(&self, other: &Decoder) -> bool {
        &&& self.history_addr_nbits == other.history_addr_nbits
        &&& self.match_length_nbits == other.match_length_nbits
        &&& self.threshold == other.threshold
        &&& self.history_size == other.history_size
        &&& self.current_window_size == other.current_window_size
    }

    /// Starts decoding `archive`: reads the header and sets up an empty
    /// history of the size it asks for.
    pub fn new(archive: Vec<u8>) -> (made: Result<Decoder, CodecError>)
        ensures
            match made {
                Ok(decoder) => {
                    &&& parsed_header(bytes_bits(archive@)) == Ok::<(int, int), CodecError>(
                        (decoder.history_bits(), decoder.match_length_bits()),
                    )
                    &&& decoder.wf()
                    &&& decoder.unread() == bytes_bits(archive@).skip(9)
                    &&& decoder.decoded_bytes() == Seq::<u8>::empty()
                },
                Err(error) => parsed_header(bytes_bits(archive@)) == Err::<(int, int), CodecError>(
                    error,
                ),
            },
    {
        let mut br = source_new(archive);
        let (history_addr_nbits, match_length_nbits) = match Decoder::read_header(&mut br) {
            Ok(widths) => widths,
            Err(error) => {
                return Err(error);
            },
        };
        if history_addr_nbits < MIN_HISTORY_ADDR_BITS || history_addr_nbits
            > MAX_HISTORY_ADDR_BITS {
            return Err(CodecError::Configuration);
        }
        if match_length_nbits < MIN_MATCH_LENGTH_BITS || match_length_nbits
            > MAX_MATCH_LENGTH_BITS {
            return Err(CodecError::Configuration);
        }
        if history_addr_nbits <= match_length_nbits {
            return Err(CodecError::Configuration);
        }
        proof {
            lemma_capacities(history_addr_nbits as int, match_length_nbits as int);
        }
        let history_size: usize = power_of_two(history_addr_nbits);
        let threshold: usize = calc_threshold(history_addr_nbits, match_length_nbits);
        let current_window_size: usize = power_of_two(match_length_nbits) + threshold - 1;
        let decoder = Decoder {
            br,
            output: Vec::new(),
            history_addr_nbits,
            match_length_nbits,
            threshold,
            history: deque_new(),
            history_size,
            current_window_size,
        };
        proof {
            assert(deque_bytes(decoder.history) =~= history_of(
                decoder.output@,
                0,
                history_size as int,
            ));
        }
        Ok(decoder)
    }

    /// Decodes the rest of the stream: the prime bytes, then records until
    /// the stream ends.
    pub fn decode(&mut self) -> (result: Result<(), CodecError>)
        requires
            old(self).wf(),
        ensures
            final(self).history_bits() == old(self).history_bits(),
            final(self).match_length_bits() == old(self).match_length_bits(),
            match result {
                Ok(()) => {
                    &&& final(self).wf()
                    &&& decoded_stream(
                        old(self).unread(),
                        old(self).history_bits(),
                        old(self).match_length_bits(),
                        old(self).decoded_bytes(),
                    ) == Ok::<Seq<u8>, CodecError>(final(self).decoded_bytes())
                },
                Err(error) => decoded_stream(
                    old(self).unread(),
                    old(self).history_bits(),
                    old(self).match_length_bits(),
                    old(self).decoded_bytes(),
                ) == Err::<Seq<u8>, CodecError>(error),
            },
    {
        let ghost h = self.history_addr_nbits as int;
        let ghost m = self.match_length_nbits as int;
        let ghost goal = decoded_stream(unread_bits(self.br), h, m, self.output@);
        match self.init() {
            Ok(()) => {},
            Err(error) => {
                return Err(error);
            },
        }
        loop
            invariant
                self.wf(),
                self.same_parameters(old(self)),
                h == self.history_addr_nbits,
                m == self.match_length_nbits,
                goal == decoded_stream(
                    old(self).unread(),
                    old(self).history_bits(),
                    old(self).match_length_bits(),
                    old(self).decoded_bytes(),
                ),
                goal == decoded_records(unread_bits(self.br), h, m, self.output@),
            decreases unread_bits(self.br).len(),
        {
            let next = match self.read_next_record() {
                Ok(next) => next,
                Err(error) => {
                    return Err(error);
                },
            };
            match next {
                Some(record) => {
                    match self.write_decoded(&record) {
                        Ok(()) => {},
                        Err(error) => {
                            return Err(error);
                        },
                    }
                },
                None => {
                    return Ok(());
                },
            }
        }
    }

    /// The bytes decoded, once decoding is over.
    pub fn into_output(self) -> (bytes: Vec<u8>)
        ensures
            bytes@ == self.decoded_bytes(),
    {
        self.output
    }

    /// Reads the next record. `None` where the stream ends: before a tag
    /// bit, or inside the byte of a literal, which is how a stream that does
    /// not end on a byte boundary is marked.
    fn read_next_record(&mut self) -> (result: Result<Option<Record>, CodecError>)
        requires
            old(self).wf(),
        ensures
            final(self).same_parameters(old(self)),
            final(self).output == old(self).output,
            final(self).history == old(self).history,
            match result {
                Ok(None) => decoded_records(
                    unread_bits(old(self).br),
                    old(self).history_addr_nbits as int,
                    old(self).match_length_nbits as int,
                    old(self).output@,
                ) == Ok::<Seq<u8>, CodecError>(old(self).output@),
                Ok(Some(record)) => old(self).follows(unread_bits(final(self).br), record),
                Err(error) => decoded_records(
                    unread_bits(old(self).br),
                    old(self).history_addr_nbits as int,
                    old(self).match_length_nbits as int,
                    old(self).output@,
                ) == Err::<Seq<u8>, CodecError>(error),
            },
    {
        let ghost bits = unread_bits(self.br);
        let ghost h = self.history_addr_nbits as int;
        let ghost m = self.match_length_nbits as int;
        match source_read_bit(&mut self.br) {
            Some(rec_type_bit) => {
                proof {
                    assert(bits.skip(1).len() == bits.len() - 1);
                    if bits.len() >= 9 {
                        assert(bits.skip(1).take(8) =~= bits.subrange(1, 9));
                        assert(bits.skip(1).skip(8) =~= bits.skip(9));
                    }
                    if bits.len() >= 1 + h + m {
                        assert(bits.skip(1).take(h) =~= bits.subrange(1, 1 + h));
                        assert(bits.skip(1).subrange(h, h + m) =~= bits.subrange(
                            1 + h,
                            1 + h + m,
                        ));
                        assert(bits.skip(1).skip(h + m) =~= bits.skip(1 + h + m));
                    }
                }
                if rec_type_bit == RECORD_TYPE_LITERAL {
                    self.read_literal()
                } else {
                    self.read_reference()
                }
            },
            None => Ok(None),
        }
    }

    /// `record` is the first record of this decoder's unread bits, and `rest`
    /// is what follows it.
    closed spec fn follows(&self, rest: Seq<bool>, record: Record) -> bool {
        let bits = unread_bits(self.br);
        let h = self.history_addr_nbits as int;
        let m = self.match_length_nbits as int;
        match record {
            Record::Literal { byte } => {
                &&& bits.len() >= 9
                &&& bits[0]
                &&& byte == bits_value(bits.subrange(1, 9)) as u8
                &&& rest == bits.skip(9)
            },
            Record::Reference { position, length } => {
                &&& bits.len() >= 1 + h + m
                &&& !bits[0]
                &&& position == bits_value(bits.subrange(1, 1 + h))
                &&& length == bits_value(bits.subrange(1 + h, 1 + h + m)) + self.threshold
                &&& rest == bits.skip(1 + h + m)
            },
        }
    }

    /// Reads the byte of a literal, after its tag.
    fn read_literal(&mut self) -> (result: Result<Option<Record>, CodecError>)
        ensures
            final(self).same_parameters(old(self)),
            final(self).output == old(self).output,
            final(self).history == old(self).history,
            result.is_ok(),
            match result {
                Ok(None) => unread_bits(old(self).br).len() < 8,
                Ok(Some(record)) => {
                    &&& unread_bits(old(self).br).len() >= 8
                    &&& record == (Record::Literal {
                        byte: bits_value(unread_bits(old(self).br).take(8)) as u8,
                    })
                    &&& unread_bits(final(self).br) == unread_bits(old(self).br).skip(8)
                },
                Err(error) => false,
            },
    {
        match source_read_byte(&mut self.br) {
            Some(byte) => Ok(Some(Record::Literal { byte })),
            None => Ok(None),
        }
    }

    /// Reads position and length of a reference, after its tag.
    fn read_reference(&mut self) -> (result: Result<Option<Record>, CodecError>)
        requires
            old(self).wf(),
        ensures
            final(self).same_parameters(old(self)),
            final(self).output == old(self).output,
            final(self).history == old(self).history,
            match result {
                Ok(None) => false,
                Ok(Some(record)) => {
                    let bits = unread_bits(old(self).br);
                    let h = old(self).history_addr_nbits as int;
                    let m = old(self).match_length_nbits as int;
                    &&& bits.len() >= h + m
                    &&& record == (Record::Reference {
                        position: bits_value(bits.take(h)) as usize,
                        length: (bits_value(bits.subrange(h, h + m)) + old(
                            self,
                        ).threshold) as usize,
                    })
                    &&& bits_value(bits.take(h)) <= u32::MAX
                    &&& bits_value(bits.subrange(h, h + m)) + old(self).threshold <= usize::MAX
                    &&& unread_bits(final(self).br) == bits.skip(h + m)
                },
                Err(error) => {
                    &&& error == CodecError::TruncatedInput
                    &&& unread_bits(old(self).br).len() < old(self).history_addr_nbits + old(
                        self,
                    ).match_length_nbits
                },
            },
    {
        let ghost bits = unread_bits(self.br);
        let position: usize = match source_read_bits(&mut self.br, self.history_addr_nbits) {
            Some(value) => value as usize,
            None => {
                return Err(CodecError::TruncatedInput);
            },
        };
        let length: usize = match source_read_bits(&mut self.br, self.match_length_nbits) {
            Some(value) => value as usize,
            None => {
                return Err(CodecError::TruncatedInput);
            },
        };
        proof {
            let h = self.history_addr_nbits as int;
            let m = self.match_length_nbits as int;
            assert(bits.skip(h).take(m) =~= bits.subrange(h, h + m));
            assert(bits.skip(h).skip(m) =~= bits.skip(h + m));
            lemma_capacities(h, m);
            lemma_bits_value_bound(bits.subrange(h, h + m));
        }
        Ok(Some(Record::Reference { position, length: length + self.threshold }))
    }

    /// Reads the prime bytes, which stand unencoded at the beginning of a
    /// stream, and takes each as a literal.
    fn init(&mut self) -> (result: Result<(), CodecError>)
        requires
            old(self).wf(),
        ensures
            final(self).same_parameters(old(self)),
            match result {
                Ok(()) => {
                    &&& final(self).wf()
                    &&& unread_bits(old(self).br).len() >= 8 * old(self).current_window_size
                    &&& final(self).output@ == old(self).output@ + bits_bytes(
                        unread_bits(old(self).br),
                        old(self).current_window_size as int,
                    )
                    &&& unread_bits(final(self).br) == unread_bits(old(self).br).skip(
                        8 * old(self).current_window_size,
                    )
                },
                Err(error) => {
                    &&& error == CodecError::TruncatedInput
                    &&& unread_bits(old(self).br).len() < 8 * old(self).current_window_size
                },
            },
    {
        let ghost bits = unread_bits(self.br);
        let ghost start = self.output@;
        let mut done: usize = 0;
        proof {
            assert(bits.skip(0) =~= bits);
            assert(start + bits_bytes(bits, 0) =~= start);
        }
        while done < self.current_window_size
            invariant
                self.wf(),
                self.same_parameters(old(self)),
                done <= self.current_window_size,
                bits == unread_bits(old(self).br),
                start == old(self).output@,
                bits.len() >= 8 * done,
                unread_bits(self.br) == bits.skip(8 * done),
                self.output@ == start + bits_bytes(bits, done as int),
            decreases self.current_window_size - done,
        {
            match source_read_byte(&mut self.br) {
                Some(byte) => {
                    let _ = self.write_decoded(&Record::Literal { byte });
                    proof {
                        assert(bits.skip(8 * done).take(8) =~= bits.subrange(
                            8 * done,
                            8 * done + 8,
                        ));
                        assert(bits.skip(8 * done).skip(8) =~= bits.skip(8 * (done + 1)));
                        assert(self.output@ =~= start + bits_bytes(bits, done + 1));
                    }
                },
                None => {
                    return Err(CodecError::TruncatedInput);
                },
            }
            done += 1;
        }
        Ok(())
    }

    /// Resolves a record to its bytes, appends them to the output and to the
    /// history, and drops the oldest history beyond its capacity. A
    /// reference that reaches beyond the history is refused.
    fn write_decoded(&mut self, record: &Record) -> (result: Result<(), CodecError>)
        requires
            old(self).wf(),
        ensures
            final(self).same_parameters(old(self)),
            final(self).br == old(self).br,
            match *record {
                Record::Literal { byte } => {
                    &&& result.is_ok()
                    &&& final(self).wf()
                    &&& final(self).output@ == old(self).output@.push(byte)
                },
                Record::Reference { position, length } => if position + length > deque_bytes(
                    old(self).history,
                ).len() {
                    result == Err::<(), CodecError>(CodecError::CorruptStream)
                } else {
                    &&& result.is_ok()
                    &&& final(self).wf()
                    &&& final(self).output@ == old(self).output@ + deque_bytes(
                        old(self).history,
                    ).subrange(position as int, position + length)
                },
            },
    {
        proof {
            lemma_capacities(self.history_addr_nbits as int, self.match_length_nbits as int);
        }
        let history_len: usize = deque_len(&self.history);
        let byte_vec: Vec<u8> = match record {
            Record::Literal { byte } => {
                let mut one: Vec<u8> = Vec::new();
                one.push(*byte);
                proof {
                    assert(self.output@ + one@ =~= self.output@.push(*byte));
                }
                one
            },
            Record::Reference { position, length } => {
                if *length > history_len || *position > history_len - *length {
                    return Err(CodecError::CorruptStream);
                }
                let history = deque_as_slice(&self.history);
                slice_to_vec(slice_subrange(history, *position, *position + *length))
            },
        };
        let to_pop: usize = if byte_vec.len() > self.history_size - history_len {
            byte_vec.len() - (self.history_size - history_len)
        } else {
            0
        };
        let ghost held = deque_bytes(self.history);
        let ghost written = self.output@;
        let mut popped: usize = 0;
        while popped < to_pop
            invariant
                popped <= to_pop <= held.len(),
                deque_bytes(self.history) == held.skip(popped as int),
                self.same_parameters(old(self)),
                self.br == old(self).br,
                self.output@ == written,
            decreases to_pop - popped,
        {
            let _ = deque_pop_front(&mut self.history);
            popped += 1;
            proof {
                assert(held.skip(popped - 1).skip(1) =~= held.skip(popped as int));
            }
        }
        let mut copied: usize = 0;
        while copied < byte_vec.len()
            invariant
                copied <= byte_vec@.len(),
                deque_bytes(self.history) == held.skip(to_pop as int) + byte_vec@.take(
                    copied as int,
                ),
                self.output@ == written + byte_vec@.take(copied as int),
                self.same_parameters(old(self)),
                self.br == old(self).br,
            decreases byte_vec@.len() - copied,
        {
            let byte: u8 = byte_vec[copied];
            self.output.push(byte);
            deque_push_back(&mut self.history, byte);
            copied += 1;
            proof {
                assert(byte_vec@.take(copied - 1).push(byte) =~= byte_vec@.take(copied as int));
                assert(deque_bytes(self.history) =~= held.skip(to_pop as int) + byte_vec@.take(
                    copied as int,
                ));
                assert(self.output@ =~= written + byte_vec@.take(copied as int));
            }
        }
        proof {
            assert(byte_vec@.take(copied as int) =~= byte_vec@);
            assert(deque_bytes(self.history) =~= history_of(
                self.output@,
                self.output@.len() as int,
                self.history_size as int,
            ));
        }
        Ok(())
    }

    /// Reads the two widths from the header.
    fn read_header(br: &mut BitSource) -> (result: Result<(usize, usize), CodecError>)
        ensures
            match result {
                Ok(widths) => {
                    &&& unread_bits(*old(br)).len() >= 9
                    &&& widths.0 == bits_value(unread_bits(*old(br)).take(5))
                    &&& widths.1 == bits_value(unread_bits(*old(br)).subrange(5, 9))
                    &&& unread_bits(*final(br)) == unread_bits(*old(br)).skip(9)
                },
                Err(error) => {
                    &&& error == CodecError::TruncatedInput
                    &&& unread_bits(*old(br)).len() < 9
                },
            },
    {
        let ghost bits = unread_bits(*br);
        let history_nbits: u32 = match source_read_bits(br, BITS_FOR_HISTORY_ADDR_NBITS) {
            Some(value) => value,
            None => {
                return Err(CodecError::TruncatedInput);
            },
        };
        let match_len_nbits: u32 = match source_read_bits(br, BITS_FOR_MATCH_LENGTH_NBITS) {
            Some(value) => value,
            None => {
                return Err(CodecError::TruncatedInput);
            },
        };
        proof {
            assert(bits.skip(5).take(4) =~= bits.subrange(5, 9));
            assert(bits.skip(5).skip(4) =~= bits.skip(9));
        }
        Ok((history_nbits as usize, match_len_nbits as usize))
    }
}

/// Decodes a whole archive into the bytes it was made from.
pub fn decode(archive: Vec<u8>) -> (result: Result<Vec<u8>, CodecError>)
    ensures
        match result {
            Ok(bytes) => decoded(bytes_bits(archive@)) == Ok::<Seq<u8>, CodecError>(bytes@),
            Err(error) => decoded(bytes_bits(archive@)) == Err::<Seq<u8>, CodecError>(error),
        },
{
    let mut decoder = match Decoder::new(archive) {
        Ok(decoder) => decoder,
        Err(error) => {
            return Err(error);
        },
    };
    match decoder.decode() {
        Ok(()) => Ok(decoder.into_output()),
        Err(error) => Err(error),
    }
}

} // verus!
