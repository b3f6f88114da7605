//! The stream format: header, unencoded prime bytes, records and ending, as
//! bit sequences; how a bit sequence is read back; and why reading gives
//! back what was written.

use crate::bits::{bits_value, bytes_bits, msb_bits, padding_len, zero_bits};
use crate::history_reader::{history_of, min_int};
use crate::search::{best_match_spec, lemma_best_match};
use crate::{
    history_capacity, lemma_capacities, threshold_spec, valid_parameters, window_capacity,
    CodecError,
};
use vstd::arithmetic::power2::{lemma2_to64, lemma_pow2_unfold, pow2};
use vstd::prelude::*;

verus! {

/// The header: the history address width in 5 bits, then the match length
/// width in 4 bits.
pub open spec fn header_bits(history_bits: int, match_length_bits: int) -> Seq<bool> {
    msb_bits(history_bits as nat, 5) + msb_bits(match_length_bits as nat, 4)
}

/// A literal record: the tag bit 1, then the byte.
pub open spec fn literal_bits(byte: u8) -> Seq<bool> {
    seq![true] + msb_bits(byte as nat, 8)
}

/// A reference record: the tag bit 0, the position in the history, then the
/// length less the threshold.
pub open spec fn reference_bits(
    history_bits: int,
    match_length_bits: int,
    position: int,
    length: int,
) -> Seq<bool> {
    seq![false] + msb_bits(position as nat, history_bits as nat) + msb_bits(
        (length - threshold_spec(history_bits, match_length_bits)) as nat,
        match_length_bits as nat,
    )
}

/// The window once `consumed` bytes of `source` have left it.
pub open spec fn window_of(source: Seq<u8>, consumed: int, capacity: int) -> Seq<u8> {
    source.subrange(consumed, min_int(consumed + capacity, source.len() as int))
}

/// The records for the bytes of `source` from `consumed` on: a reference
/// where the search finds a match for the window in the history, a literal
/// for the window's first byte where it finds none.
pub open spec fn record_bits(
    source: Seq<u8>,
    history_bits: int,
    match_length_bits: int,
    depth: int,
    consumed: int,
) -> Seq<bool>
    decreases source.len() - consumed,
    when valid_parameters(history_bits, match_length_bits)
    via record_bits_terminates
{
    if consumed < 0 || consumed >= source.len() {
        Seq::empty()
    } else {
        let history = history_of(source, consumed, history_capacity(history_bits));
        let window = window_of(
            source,
            consumed,
            window_capacity(history_bits, match_length_bits),
        );
        let found = best_match_spec(
            history,
            window,
            threshold_spec(history_bits, match_length_bits),
            depth,
        );
        if found.1 > 0 {
            reference_bits(history_bits, match_length_bits, found.0, found.1) + record_bits(
                source,
                history_bits,
                match_length_bits,
                depth,
                consumed + found.1,
            )
        } else {
            literal_bits(source[consumed]) + record_bits(
                source,
                history_bits,
                match_length_bits,
                depth,
                consumed + 1,
            )
        }
    }
}

#[via_fn]
proof fn record_bits_terminates(
    source: Seq<u8>,
    history_bits: int,
    match_length_bits: int,
    depth: int,
    consumed: int,
) {
    if 0 <= consumed < source.len() {
        lemma_capacities(history_bits, match_length_bits);
        lemma_best_match(
            history_of(source, consumed, history_capacity(history_bits)),
            window_of(source, consumed, window_capacity(history_bits, match_length_bits)),
            threshold_spec(history_bits, match_length_bits),
            depth,
        );
    }
}

/// What ends a stream of `len` bits: nothing on a byte boundary; otherwise
/// one literal tag bit and zero bits up to the next boundary.
pub open spec fn ending_bits(len: nat) -> Seq<bool> {
    if len % 8 == 0 {
        Seq::empty()
    } else {
        seq![true] + zero_bits(padding_len(len + 1))
    }
}

/// Header, prime bytes and records of `source`.
pub open spec fn body_bits(source: Seq<u8>, history_bits: int, match_length_bits: int, depth: int) -> Seq<
    bool,
> {
    let capacity = window_capacity(history_bits, match_length_bits);
    header_bits(history_bits, match_length_bits) + bytes_bits(source.take(capacity)) + record_bits(
        source,
        history_bits,
        match_length_bits,
        depth,
        capacity,
    )
}

/// The whole stream for `source`: its body and the ending that the body's
/// length calls for.
pub open spec fn encoded_bits(
    source: Seq<u8>,
    history_bits: int,
    match_length_bits: int,
    depth: int,
) -> Seq<bool> {
    let body = body_bits(source, history_bits, match_length_bits, depth);
    body + ending_bits(body.len())
}

/// The two widths at the head of a stream, or why they cannot be had.
pub open spec fn parsed_header(bits: Seq<bool>) -> Result<(int, int), CodecError> {
    if bits.len() < 9 {
        Err(CodecError::TruncatedInput)
    } else {
        let history_bits = bits_value(bits.take(5)) as int;
        let match_length_bits = bits_value(bits.subrange(5, 9)) as int;
        if valid_parameters(history_bits, match_length_bits) {
            Ok((history_bits, match_length_bits))
        } else {
            Err(CodecError::Configuration)
        }
    }
}

/// The first `count` bytes spelled by a bit sequence.
pub open spec fn bits_bytes(bits: Seq<bool>, count: int) -> Seq<u8> {
    Seq::new(count as nat, |i: int| bits_value(bits.subrange(8 * i, 8 * i + 8)) as u8)
}

/// What the records in `bits` add to the bytes `out` decoded so far. The
/// stream ends cleanly before a tag bit or inside a literal's byte; it is
/// truncated where it ends inside a reference, and corrupt where a reference
/// reaches beyond the history.
pub open spec fn decoded_records(
    bits: Seq<bool>,
    history_bits: int,
    match_length_bits: int,
    out: Seq<u8>,
) -> Result<Seq<u8>, CodecError>
    decreases bits.len(),
    when history_bits >= 0 && match_length_bits >= 0
{
    if bits.len() == 0 {
        Ok(out)
    } else if bits[0] {
        if bits.len() < 9 {
            Ok(out)
        } else {
            decoded_records(
                bits.skip(9),
                history_bits,
                match_length_bits,
                out.push(bits_value(bits.subrange(1, 9)) as u8),
            )
        }
    } else if bits.len() < 1 + history_bits + match_length_bits {
        Err(CodecError::TruncatedInput)
    } else {
        let position = bits_value(bits.subrange(1, 1 + history_bits)) as int;
        let length = bits_value(
            bits.subrange(1 + history_bits, 1 + history_bits + match_length_bits),
        ) + threshold_spec(history_bits, match_length_bits);
        let history = history_of(out, out.len() as int, history_capacity(history_bits));
        if position + length > history.len() {
            Err(CodecError::CorruptStream)
        } else {
            decoded_records(
                bits.skip(1 + history_bits + match_length_bits),
                history_bits,
                match_length_bits,
                out + history.subrange(position, position + length),
            )
        }
    }
}

/// What a stream without its header adds to `out`: the prime bytes as they
/// stand, then what the records give.
pub open spec fn decoded_stream(
    bits: Seq<bool>,
    history_bits: int,
    match_length_bits: int,
    out: Seq<u8>,
) -> Result<Seq<u8>, CodecError> {
    let capacity = window_capacity(history_bits, match_length_bits);
    if bits.len() < 8 * capacity {
        Err(CodecError::TruncatedInput)
    } else {
        decoded_records(
            bits.skip(8 * capacity),
            history_bits,
            match_length_bits,
            out + bits_bytes(bits, capacity),
        )
    }
}

/// The bytes that a whole stream stands for, or why it stands for none.
pub open spec fn decoded(bits: Seq<bool>) -> Result<Seq<u8>, CodecError> {
    match parsed_header(bits) {
        Err(error) => Err(error),
        Ok(widths) => decoded_stream(bits.skip(9), widths.0, widths.1, Seq::empty()),
    }
}

/// A field of `width` bits is `width` bits long.
pub proof fn lemma_msb_bits_len(value: nat, width: nat)
    ensures
        msb_bits(value, width).len() == width,
    decreases width,
{
    if width > 0 {
        lemma_msb_bits_len(value / 2, (width - 1) as nat);
    }
}

/// A number that fits into `width` bits is read back from its field.
pub proof fn lemma_msb_bits_value(value: nat, width: nat)
    requires
        value < pow2(width),
    ensures
        bits_value(msb_bits(value, width)) == value,
    decreases width,
{
    if width == 0 {
        lemma2_to64();
    } else {
        lemma_pow2_unfold(width);
        lemma_msb_bits_value(value / 2, (width - 1) as nat);
        let field = msb_bits(value, width);
        assert(field.drop_last() =~= msb_bits(value / 2, (width - 1) as nat));
        assert(field.last() == (value % 2 == 1));
        lemma_msb_bits_len(value, width);
    }
}

/// A number spelled by bits is below two to the power of their count.
pub proof fn lemma_bits_value_bound(bits: Seq<bool>)
    ensures
        bits_value(bits) < pow2(bits.len()),
    decreases bits.len(),
{
    if bits.len() == 0 {
        lemma2_to64();
    } else {
        lemma_bits_value_bound(bits.drop_last());
        lemma_pow2_unfold(bits.len());
    }
}

/// The bits of a byte sequence are eight per byte, each byte in its place.
pub proof fn lemma_bytes_bits(bytes: Seq<u8>)
    ensures
        bytes_bits(bytes).len() == 8 * bytes.len(),
        forall|i: int|
            0 <= i < bytes.len() ==> #[trigger] bytes_bits(bytes).subrange(8 * i, 8 * i + 8)
                == msb_bits(bytes[i] as nat, 8),
    decreases bytes.len(),
{
    if bytes.len() > 0 {
        let front = bytes.drop_last();
        lemma_bytes_bits(front);
        lemma_msb_bits_len(bytes.last() as nat, 8);
        assert forall|i: int| 0 <= i < bytes.len() implies #[trigger] bytes_bits(bytes).subrange(
            8 * i,
            8 * i + 8,
        ) == msb_bits(bytes[i] as nat, 8) by {
            if i < front.len() {
                assert(bytes_bits(front).subrange(8 * i, 8 * i + 8) == msb_bits(
                    front[i] as nat,
                    8,
                ));
                assert(bytes_bits(bytes).subrange(8 * i, 8 * i + 8) =~= bytes_bits(
                    front,
                ).subrange(8 * i, 8 * i + 8));
            } else {
                assert(bytes_bits(bytes).subrange(8 * i, 8 * i + 8) =~= msb_bits(
                    bytes.last() as nat,
                    8,
                ));
            }
        }
    }
}

/// Appending a byte appends its eight bits.
pub proof fn lemma_bytes_bits_push(bytes: Seq<u8>, byte: u8)
    ensures
        bytes_bits(bytes.push(byte)) == bytes_bits(bytes) + msb_bits(byte as nat, 8),
{
    assert(bytes.push(byte).drop_last() =~= bytes);
}

/// Bytes are read back from their bits, whatever follows them.
pub proof fn lemma_bits_bytes(bytes: Seq<u8>, rest: Seq<bool>)
    ensures
        bits_bytes(bytes_bits(bytes) + rest, bytes.len() as int) == bytes,
{
    lemma_bytes_bits(bytes);
    lemma2_to64();
    let bits = bytes_bits(bytes) + rest;
    assert forall|i: int| 0 <= i < bytes.len() implies bits_bytes(bits, bytes.len() as int)[i]
        == bytes[i] by {
        assert(bits.subrange(8 * i, 8 * i + 8) =~= bytes_bits(bytes).subrange(8 * i, 8 * i + 8));
        lemma_msb_bits_value(bytes[i] as nat, 8);
    }
    assert(bits_bytes(bits, bytes.len() as int) =~= bytes);
}

/// The ending of a stream: nothing if the stream is byte-aligned; otherwise
/// exactly one literal tag bit, followed by zero bits only, which bring the
/// stream to the next byte boundary.
pub proof fn lemma_ending(len: nat)
    ensures
        len % 8 == 0 ==> ending_bits(len).len() == 0,
        len % 8 != 0 ==> {
            &&& 1 <= ending_bits(len).len() <= 7
            &&& ending_bits(len)[0]
            &&& forall|i: int| 1 <= i < ending_bits(len).len() ==> !#[trigger] ending_bits(len)[i]
        },
        (len + ending_bits(len).len()) % 8 == 0,
{
}

/// An ending adds nothing to what was decoded.
pub proof fn lemma_ending_decodes(
    len: nat,
    history_bits: int,
    match_length_bits: int,
    out: Seq<u8>,
)
    requires
        history_bits >= 0,
        match_length_bits >= 0,
    ensures
        decoded_records(ending_bits(len), history_bits, match_length_bits, out) == Ok::<
            Seq<u8>,
            CodecError,
        >(out),
{
    lemma_ending(len);
}

/// A reference whose position and length, the threshold added, reach beyond
/// the history is refused as corrupt, whatever follows it.
pub proof fn lemma_overlong_reference_is_corrupt(
    bits: Seq<bool>,
    history_bits: int,
    match_length_bits: int,
    out: Seq<u8>,
)
    requires
        history_bits >= 0,
        match_length_bits >= 0,
        bits.len() >= 1 + history_bits + match_length_bits,
        !bits[0],
        bits_value(bits.subrange(1, 1 + history_bits)) + bits_value(
            bits.subrange(1 + history_bits, 1 + history_bits + match_length_bits),
        ) + threshold_spec(history_bits, match_length_bits) > history_of(
            out,
            out.len() as int,
            history_capacity(history_bits),
        ).len(),
    ensures
        decoded_records(bits, history_bits, match_length_bits, out) == Err::<Seq<u8>, CodecError>(
            CodecError::CorruptStream,
        ),
{
}

/// Records are decoded one by one into the bytes they were made from: the
/// records for the bytes of `source` from `consumed` on, read after those
/// first `consumed` bytes, bring the decoder to the whole of `source`.
pub proof fn lemma_records_decode(
    source: Seq<u8>,
    history_bits: int,
    match_length_bits: int,
    depth: int,
    consumed: int,
    tail: Seq<bool>,
)
    requires
        valid_parameters(history_bits, match_length_bits),
        0 <= consumed <= source.len(),
    ensures
        decoded_records(
            record_bits(source, history_bits, match_length_bits, depth, consumed) + tail,
            history_bits,
            match_length_bits,
            source.take(consumed),
        ) == decoded_records(tail, history_bits, match_length_bits, source),
    decreases source.len() - consumed,
{
    let h = history_bits;
    let m = match_length_bits;
    let records = record_bits(source, h, m, depth, consumed);
    let out = source.take(consumed);
    lemma_capacities(h, m);
    lemma2_to64();
    if consumed == source.len() {
        assert(records + tail =~= tail);
        assert(out =~= source);
    } else {
        let threshold = threshold_spec(h, m);
        let history = history_of(source, consumed, history_capacity(h));
        let window = window_of(source, consumed, window_capacity(h, m));
        let found = best_match_spec(history, window, threshold, depth);
        lemma_best_match(history, window, threshold, depth);
        assert(history_of(out, out.len() as int, history_capacity(h)) =~= history);
        let all = records + tail;
        if found.1 > 0 {
            let rest = record_bits(source, h, m, depth, consumed + found.1);
            let position_field = msb_bits(found.0 as nat, h as nat);
            let length_field = msb_bits((found.1 - threshold) as nat, m as nat);
            lemma_msb_bits_len(found.0 as nat, h as nat);
            lemma_msb_bits_len((found.1 - threshold) as nat, m as nat);
            lemma_msb_bits_value(found.0 as nat, h as nat);
            lemma_msb_bits_value((found.1 - threshold) as nat, m as nat);
            assert(records == reference_bits(h, m, found.0, found.1) + rest);
            assert(!all[0]);
            assert(all.subrange(1, 1 + h) =~= position_field);
            assert(all.subrange(1 + h, 1 + h + m) =~= length_field);
            assert(all.skip(1 + h + m) =~= rest + tail);
            assert(history.subrange(found.0, found.0 + found.1) == window.take(found.1));
            assert(out + window.take(found.1) =~= source.take(consumed + found.1));
            lemma_records_decode(source, h, m, depth, consumed + found.1, tail);
        } else {
            let rest = record_bits(source, h, m, depth, consumed + 1);
            let byte = source[consumed];
            lemma_msb_bits_len(byte as nat, 8);
            lemma_msb_bits_value(byte as nat, 8);
            assert(records == literal_bits(byte) + rest);
            assert(all[0]);
            assert(all.subrange(1, 9) =~= msb_bits(byte as nat, 8));
            assert(all.skip(9) =~= rest + tail);
            assert(out.push(byte) =~= source.take(consumed + 1));
            lemma_records_decode(source, h, m, depth, consumed + 1, tail);
        }
    }
}

/// Decoding gives back what was encoded: for usable parameters, any search
/// depth and any input of at least two windows, the stream made from the
/// input is read back as the same widths and the same bytes.
pub proof fn lemma_round_trip(
    source: Seq<u8>,
    history_bits: int,
    match_length_bits: int,
    depth: int,
)
    requires
        valid_parameters(history_bits, match_length_bits),
        source.len() >= 2 * window_capacity(history_bits, match_length_bits),
    ensures
        parsed_header(encoded_bits(source, history_bits, match_length_bits, depth)) == Ok::<
            (int, int),
            CodecError,
        >((history_bits, match_length_bits)),
        decoded(encoded_bits(source, history_bits, match_length_bits, depth)) == Ok::<
            Seq<u8>,
            CodecError,
        >(source),
{
    let h = history_bits;
    let m = match_length_bits;
    let capacity = window_capacity(h, m);
    lemma_capacities(h, m);
    lemma2_to64();
    let header = header_bits(h, m);
    let prime = bytes_bits(source.take(capacity));
    let records = record_bits(source, h, m, depth, capacity);
    let body = body_bits(source, h, m, depth);
    let ending = ending_bits(body.len());
    let bits = encoded_bits(source, h, m, depth);
    lemma_msb_bits_len(h as nat, 5);
    lemma_msb_bits_len(m as nat, 4);
    lemma_msb_bits_value(h as nat, 5);
    lemma_msb_bits_value(m as nat, 4);
    lemma_bytes_bits(source.take(capacity));
    assert(bits.take(5) =~= msb_bits(h as nat, 5));
    assert(bits.subrange(5, 9) =~= msb_bits(m as nat, 4));
    let after_header = bits.skip(9);
    assert(after_header =~= prime + (records + ending));
    lemma_bits_bytes(source.take(capacity), records + ending);
    assert(after_header.skip(8 * capacity) =~= records + ending);
    assert(Seq::<u8>::empty() + source.take(capacity) =~= source.take(capacity));
    lemma_records_decode(source, h, m, depth, capacity, ending);
    lemma_ending_decodes(body.len(), h, m, source);
}

} // verus!
