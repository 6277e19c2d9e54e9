//! The bit channel: bitstream_io's big-endian bit writer over a byte vector,
//! and its bit reader over a byte queue.
use crate::bits::{bits_of_bytes, bits_of_value, padding_for, two_pow, value_of_bits, zero_bits};
use bitstream_io::{BigEndian, BitRead, BitReader, BitWrite, BitWriter};
use std::collections::VecDeque;
use vstd::prelude::*;

verus! {

/// bitstream_io's big-endian bit writer over a growing byte vector.
#[verifier::external_body]
pub struct BitSink {
    inner: BitWriter<Vec<u8>, BigEndian>,
}

/// bitstream_io's big-endian bit reader over a queue of bytes.
#[verifier::external_body]
pub struct BitSource {
    inner: BitReader<VecDeque<u8>, BigEndian>,
}

/// Every bit handed to the writer so far, in order, the partial byte included.
pub uninterp spec fn bits_written(w: BitSink) -> Seq<bool>;

/// The bits that the reader has not handed out yet.
pub uninterp spec fn bits_unread(r: BitSource) -> Seq<bool>;

/// Relies on `BitWriter::endian`: a writer over an empty vector holds no bits.
#[verifier::external_body]
pub(crate) fn new_writer() -> (w: BitSink)
    ensures
        bits_written(w) == Seq::<bool>::empty(),
{
    BitSink { inner: BitWriter::endian(Vec::new(), BigEndian) }
}

/// Relies on `BitWrite::write_var`: it appends the `bits` low bits of `value`,
/// most significant first; into a vector it fails only on more than 64 bits or
/// on a value that does not fit them.
#[verifier::external_body]
pub(crate) fn write_bits(w: &mut BitSink, bits: u32, value: u64) -> (ok: bool)
    requires
        1 <= bits <= 64,
        value < two_pow(bits as nat),
    ensures
        ok,
        bits_written(*final(w)) == bits_written(*old(w)) + bits_of_value(value as nat, bits as nat),
{
    w.inner.write_var(bits, value).is_ok()
}

/// Relies on `BitWrite::byte_align`: it appends zero bits up to the next byte
/// boundary; into a vector it does not fail.
#[verifier::external_body]
pub(crate) fn align_to_byte(w: &mut BitSink) -> (ok: bool)
    ensures
        ok,
        bits_written(*final(w)) == bits_written(*old(w)) + zero_bits(
            padding_for(bits_written(*old(w)).len()),
        ),
{
    w.inner.byte_align().is_ok()
}

/// Relies on `BitWriter::into_writer`: on a byte boundary the vector holds
/// every bit written, each byte most significant bit first.
#[verifier::external_body]
pub(crate) fn into_bytes(w: BitSink) -> (r: Vec<u8>)
    requires
        bits_written(w).len() % 8 == 0,
    ensures
        bits_of_bytes(r@) == bits_written(w),
{
    w.inner.into_writer()
}

/// Relies on `BitReader::endian`: a new reader over the bytes has all their
/// bits still to read, each byte most significant bit first.
#[verifier::external_body]
pub(crate) fn new_reader(bytes: Vec<u8>) -> (r: BitSource)
    ensures
        bits_unread(r) == bits_of_bytes(bytes@),
{
    BitSource { inner: BitReader::endian(VecDeque::from(bytes), BigEndian) }
}

/// Relies on `BitRead::read_var`: with at least `bits` bits left (at most 64)
/// it returns the value that the next `bits` bits spell and consumes them.
#[verifier::external_body]
pub(crate) fn read_bits(r: &mut BitSource, bits: u32) -> (v: Option<u64>)
    requires
        1 <= bits <= 64,
        bits <= bits_unread(*old(r)).len(),
    ensures
        v.is_some(),
        v.unwrap() as nat == value_of_bits(bits_unread(*old(r)).take(bits as int)),
        bits_unread(*final(r)) == bits_unread(*old(r)).skip(bits as int),
{
    r.inner.read_var::<u64>(bits).ok()
}

} // verus!
