//! Bit sequences, most significant bit first, and the bit writer and reader
//! of `bitbit` over bytes in memory.

use bitbit::{BitReader, BitWriter, MSB};
use std::io::Cursor;
use vstd::prelude::*;

verus! {

/// The lowest `width` bits of `value`, the most significant of them first.
pub open spec fn msb_bits(value: nat, width: nat) -> Seq<bool>
    decreases width,
{
    if width == 0 {
        Seq::empty()
    } else {
        msb_bits(value / 2, (width - 1) as nat).push(value % 2 == 1)
    }
}

/// The number that a bit sequence spells, most significant bit first.
pub open spec fn bits_value(bits: Seq<bool>) -> nat
    decreases bits.len(),
{
    if bits.len() == 0 {
        0
    } else {
        2 * bits_value(bits.drop_last()) + if bits.last() {
            1nat
        } else {
            0nat
        }
    }
}

/// The bits of a byte sequence: eight per byte, most significant first.
pub open spec fn bytes_bits(bytes: Seq<u8>) -> Seq<bool>
    decreases bytes.len(),
{
    if bytes.len() == 0 {
        Seq::empty()
    } else {
        bytes_bits(bytes.drop_last()) + msb_bits(bytes.last() as nat, 8)
    }
}

/// `count` zero bits.
pub open spec fn zero_bits(count: nat) -> Seq<bool> {
    Seq::new(count, |i: int| false)
}

/// How many zero bits fill a stream of `len` bits up to a whole byte.
pub open spec fn padding_len(len: nat) -> nat {
    ((8 - len % 8) % 8) as nat
}

/// A bit sequence filled up with zero bits to a whole number of bytes.
pub open spec fn padded(bits: Seq<bool>) -> Seq<bool> {
    bits + zero_bits(padding_len(bits.len()))
}

/// A bit writer of `bitbit` that collects its bytes in memory.
#[verifier::external_body]
pub struct BitSink {
    inner: BitWriter<Vec<u8>>,
}

/// A bit reader of `bitbit`, most significant bit first, over bytes in memory.
#[verifier::external_body]
pub struct BitSource {
    inner: BitReader<Cursor<Vec<u8>>, MSB>,
}

/// All the bits written to a sink so far, in the order they were written.
pub uninterp spec fn written_bits(w: BitSink) -> Seq<bool>;

/// The bits that a source has not handed out yet, the next one first.
pub uninterp spec fn unread_bits(r: BitSource) -> Seq<bool>;

/// `BitWriter::new` over an empty `Vec<u8>`: nothing is written yet.
#[verifier::external_body]
pub(crate) fn sink_new() -> (w: BitSink)
    ensures
        written_bits(w) == Seq::<bool>::empty(),
{
    BitSink { inner: BitWriter::new(Vec::new()) }
}

/// `BitWriter::write_bit`: the bit is appended. Writing to a `Vec<u8>`
/// cannot fail, so the call's result carries nothing.
#[verifier::external_body]
pub(crate) fn sink_write_bit(w: &mut BitSink, bit: bool)
    ensures
        written_bits(*final(w)) == written_bits(*old(w)).push(bit),
{
    let _ = w.inner.write_bit(bit);
}

/// `BitWriter::write_bits`: the lowest `nbits` bits of `value` are appended,
/// the most significant of them first. A width of 0 is left out: the shift
/// that builds the mask underflows on it.
#[verifier::external_body]
pub(crate) fn sink_write_bits(w: &mut BitSink, value: u32, nbits: usize)
    requires
        1 <= nbits <= 32,
    ensures
        written_bits(*final(w)) == written_bits(*old(w)) + msb_bits(value as nat, nbits as nat),
{
    let _ = w.inner.write_bits(value, nbits);
}

/// `BitWriter::write_byte`: the eight bits of the byte are appended, the
/// most significant first.
#[verifier::external_body]
pub(crate) fn sink_write_byte(w: &mut BitSink, byte: u8)
    ensures
        written_bits(*final(w)) == written_bits(*old(w)) + msb_bits(byte as nat, 8),
{
    let _ = w.inner.write_byte(byte);
}

/// `BitWriter::pad_to_byte`: zero bits are appended up to the next byte
/// boundary, none if the stream already ends on one.
#[verifier::external_body]
pub(crate) fn sink_pad_to_byte(w: &mut BitSink)
    ensures
        written_bits(*final(w)) == padded(written_bits(*old(w))),
{
    let _ = w.inner.pad_to_byte();
}

/// `BitWriter::get_ref`: the bytes that reached the underlying `Vec<u8>`,
/// which are the whole bytes of what was written.
#[verifier::external_body]
pub(crate) fn sink_into_bytes(w: BitSink) -> (bytes: Vec<u8>)
    ensures
        bytes_bits(bytes@) == written_bits(w).take(
            written_bits(w).len() - written_bits(w).len() % 8,
        ),
{
    let mut w = w;
    w.inner.get_ref().clone()
}

/// `BitReader::new` over a cursor on the bytes: all their bits are unread.
#[verifier::external_body]
pub(crate) fn source_new(bytes: Vec<u8>) -> (r: BitSource)
    ensures
        unread_bits(r) == bytes_bits(bytes@),
{
    BitSource { inner: BitReader::new(Cursor::new(bytes)) }
}

/// `BitReader::read_bit`: hands out the next bit, or fails at the end of the
/// bytes, which is the only failure of a cursor in memory.
#[verifier::external_body]
pub(crate) fn source_read_bit(r: &mut BitSource) -> (bit: Option<bool>)
    ensures
        unread_bits(*old(r)).len() == 0 ==> bit.is_none() && unread_bits(*final(r)) == unread_bits(
            *old(r),
        ),
        unread_bits(*old(r)).len() > 0 ==> bit == Some(unread_bits(*old(r))[0]) && unread_bits(
            *final(r),
        ) == unread_bits(*old(r)).skip(1),
{
    r.inner.read_bit().ok()
}

/// `BitReader::read_bits`: hands out the number spelled by the next `nbits`
/// bits, most significant first. If fewer are left it fails, and has used up
/// what was left.
#[verifier::external_body]
pub(crate) fn source_read_bits(r: &mut BitSource, nbits: usize) -> (value: Option<u32>)
    requires
        nbits <= 32,
    ensures
        unread_bits(*old(r)).len() < nbits ==> value.is_none() && unread_bits(*final(r)).len()
            == 0,
        unread_bits(*old(r)).len() >= nbits ==> value.is_some() && value.unwrap() as nat
            == bits_value(unread_bits(*old(r)).take(nbits as int)) && unread_bits(*final(r))
            == unread_bits(*old(r)).skip(nbits as int),
{
    r.inner.read_bits(nbits).ok()
}

/// `BitReader::read_byte`: hands out the next eight bits as a byte, most
/// significant first. If fewer are left it fails, and has used up what was
/// left.
#[verifier::external_body]
pub(crate) fn source_read_byte(r: &mut BitSource) -> (byte: Option<u8>)
    ensures
        unread_bits(*old(r)).len() < 8 ==> byte.is_none() && unread_bits(*final(r)).len() == 0,
        unread_bits(*old(r)).len() >= 8 ==> byte.is_some() && byte.unwrap() as nat == bits_value(
            unread_bits(*old(r)).take(8),
        ) && unread_bits(*final(r)) == unread_bits(*old(r)).skip(8),
{
    r.inner.read_byte().ok()
}

} // verus!
