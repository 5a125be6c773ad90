//! Fixed-width little- and big-endian integers over byte buffers.
//!
//! Readers take their bytes from a [`ByteReader`] cursor and fail with
//! [`LemError::UnexpectedEof`] on a short read; writers append to a `Vec<u8>`.
#![allow(unused_imports)]
use vstd::prelude::*;

use crate::LemError;

verus! {

/// The little-endian byte pair of a 16-bit value.
pub open spec fn le16_bytes(v: u16) -> Seq<u8> {
    seq![(v % 256) as u8, (v / 256) as u8]
}

/// The little-endian byte quadruple of a 32-bit value.
pub open spec fn le32_bytes(v: u32) -> Seq<u8> {
    seq![
        (v % 256) as u8,
        ((v / 256) % 256) as u8,
        ((v / 0x10000) % 256) as u8,
        (v / 0x1000000) as u8,
    ]
}

/// The big-endian byte pair of a 16-bit value.
pub open spec fn be16_bytes(v: u16) -> Seq<u8> {
    seq![(v / 256) as u8, (v % 256) as u8]
}

/// The big-endian byte quadruple of a 32-bit value.
pub open spec fn be32_bytes(v: u32) -> Seq<u8> {
    seq![
        (v / 0x1000000) as u8,
        ((v / 0x10000) % 256) as u8,
        ((v / 256) % 256) as u8,
        (v % 256) as u8,
    ]
}

/// The 16-bit value with low byte `b0` and high byte `b1`.
pub open spec fn u16_from(b0: u8, b1: u8) -> u16 {
    (b1 as u16 * 256 + b0 as u16) as u16
}

/// The 32-bit value with bytes `b0` (lowest) through `b3` (highest).
pub open spec fn u32_from(b0: u8, b1: u8, b2: u8, b3: u8) -> u32 {
    (b3 as u32 * 0x1000000 + b2 as u32 * 0x10000 + b1 as u32 * 256 + b0 as u32) as u32
}

/// Reading back the bytes of a value yields the value again.
pub proof fn lemma_le16_round_trip(v: u16)
    ensures
        u16_from(le16_bytes(v)[0], le16_bytes(v)[1]) == v,
{
}

/// Reading back the bytes of a value yields the value again.
pub proof fn lemma_le32_round_trip(v: u32)
    ensures
        u32_from(le32_bytes(v)[0], le32_bytes(v)[1], le32_bytes(v)[2], le32_bytes(v)[3]) == v,
{
}

/// Reading back the bytes of a value yields the value again.
pub proof fn lemma_be16_round_trip(v: u16)
    ensures
        u16_from(be16_bytes(v)[1], be16_bytes(v)[0]) == v,
{
}

/// Reading back the bytes of a value yields the value again.
pub proof fn lemma_be32_round_trip(v: u32)
    ensures
        u32_from(be32_bytes(v)[3], be32_bytes(v)[2], be32_bytes(v)[1], be32_bytes(v)[0]) == v,
{
}

/// Serialising a value assembled from two bytes yields those bytes again.
pub proof fn lemma_u16_to_le_bytes(b0: u8, b1: u8)
    ensures
        le16_bytes(u16_from(b0, b1)) == seq![b0, b1],
{
    assert(le16_bytes(u16_from(b0, b1)) =~= seq![b0, b1]);
}

/// Serialising a value assembled from four bytes yields those bytes again.
pub proof fn lemma_u32_to_le_bytes(b0: u8, b1: u8, b2: u8, b3: u8)
    ensures
        le32_bytes(u32_from(b0, b1, b2, b3)) == seq![b0, b1, b2, b3],
{
    let v = u32_from(b0, b1, b2, b3);
    assert(v % 256 == b0 && (v / 256) % 256 == b1 && (v / 0x10000) % 256 == b2 && v / 0x1000000
        == b3);
    assert(le32_bytes(v) =~= seq![b0, b1, b2, b3]);
}

/// Append a whole buffer to another.
pub fn append_bytes(writer: &mut Vec<u8>, data: &Vec<u8>)
    ensures
        final(writer)@ == old(writer)@ + data@,
{
    let mut i: usize = 0;
    while i < data.len()
        invariant
            i <= data@.len(),
            writer@ == old(writer)@ + data@.subrange(0, i as int),
        decreases data@.len() - i,
    {
        writer.push(data[i]);
        i = i + 1;
        assert(writer@ =~= old(writer)@ + data@.subrange(0, i as int));
    }
    assert(writer@ =~= old(writer)@ + data@);
}

/// Copy `len` bytes of a buffer starting at `start`.
pub fn slice_range(data: &Vec<u8>, start: usize, len: usize) -> (r: Vec<u8>)
    requires
        start + len <= data@.len(),
    ensures
        r@ == data@.subrange(start as int, start + len),
{
    let dl = data.len();
    let mut out: Vec<u8> = Vec::new();
    let mut i: usize = 0;
    while i < len
        invariant
            i <= len,
            start + len <= data@.len(),
            dl == data@.len(),
            out@ == data@.subrange(start as int, start + i),
        decreases len - i,
    {
        out.push(data[start + i]);
        i = i + 1;
        assert(out@ =~= data@.subrange(start as int, start + i));
    }
    out
}

/// A cursor over an owned byte buffer, advanced by the `read_*` functions.
pub struct ByteReader {
    data: Vec<u8>,
    pos: usize,
}

impl ByteReader {
    /// The underlying bytes.
    pub closed spec fn bytes(self) -> Seq<u8> {
        self.data@
    }

    /// The index of the next byte to be read.
    pub closed spec fn position(self) -> int {
        self.pos as int
    }

    /// The cursor never points past the end of the buffer.
    pub open spec fn wf(self) -> bool {
        0 <= self.position() <= self.bytes().len()
    }

    /// The bytes not yet consumed.
    pub open spec fn remaining(self) -> Seq<u8> {
        self.bytes().skip(self.position())
    }

    /// Wrap a buffer in a cursor positioned at its start.
    pub fn new(data: Vec<u8>) -> (r: ByteReader)
        ensures
            r.bytes() == data@,
            r.position() == 0,
    {
        ByteReader { data, pos: 0 }
    }

    /// How many bytes are left to read.
    pub fn remaining_len(&self) -> (n: usize)
        requires
            self.wf(),
        ensures
            n == self.remaining().len(),
    {
        self.data.len() - self.pos
    }
}

/// Read one byte.
pub fn read_byte(reader: &mut ByteReader) -> (r: Result<u8, LemError>)
    requires
        old(reader).wf(),
    ensures
        final(reader).wf(),
        final(reader).bytes() == old(reader).bytes(),
        old(reader).position() + 1 <= old(reader).bytes().len() ==> {
            &&& r == Ok::<u8, LemError>(old(reader).bytes()[old(reader).position()])
            &&& final(reader).position() == old(reader).position() + 1
        },
        old(reader).position() + 1 > old(reader).bytes().len() ==> {
            &&& r == Err::<u8, LemError>(LemError::UnexpectedEof)
            &&& final(reader).position() == old(reader).position()
        },
{
    if reader.pos < reader.data.len() {
        let b = reader.data[reader.pos];
        reader.pos = reader.pos + 1;
        Ok(b)
    } else {
        Err(LemError::UnexpectedEof)
    }
}

/// Read a 16-bit little-endian value.
pub fn read_le16(reader: &mut ByteReader) -> (r: Result<u16, LemError>)
    requires
        old(reader).wf(),
    ensures
        final(reader).wf(),
        final(reader).bytes() == old(reader).bytes(),
        old(reader).position() + 2 <= old(reader).bytes().len() ==> {
            &&& r == Ok::<u16, LemError>(
                u16_from(
                    old(reader).bytes()[old(reader).position()],
                    old(reader).bytes()[old(reader).position() + 1],
                ),
            )
            &&& final(reader).position() == old(reader).position() + 2
        },
        old(reader).position() + 2 > old(reader).bytes().len() ==> r == Err::<u16, LemError>(
            LemError::UnexpectedEof,
        ),
{
    if reader.data.len() - reader.pos >= 2 {
        let b0 = reader.data[reader.pos];
        let b1 = reader.data[reader.pos + 1];
        reader.pos = reader.pos + 2;
        Ok(b1 as u16 * 256 + b0 as u16)
    } else {
        Err(LemError::UnexpectedEof)
    }
}

/// Read a 32-bit little-endian value.
pub fn read_le32(reader: &mut ByteReader) -> (r: Result<u32, LemError>)
    requires
        old(reader).wf(),
    ensures
        final(reader).wf(),
        final(reader).bytes() == old(reader).bytes(),
        old(reader).position() + 4 <= old(reader).bytes().len() ==> {
            &&& r == Ok::<u32, LemError>(
                u32_from(
                    old(reader).bytes()[old(reader).position()],
                    old(reader).bytes()[old(reader).position() + 1],
                    old(reader).bytes()[old(reader).position() + 2],
                    old(reader).bytes()[old(reader).position() + 3],
                ),
            )
            &&& final(reader).position() == old(reader).position() + 4
        },
        old(reader).position() + 4 > old(reader).bytes().len() ==> r == Err::<u32, LemError>(
            LemError::UnexpectedEof,
        ),
{
    if reader.data.len() - reader.pos >= 4 {
        let b0 = reader.data[reader.pos];
        let b1 = reader.data[reader.pos + 1];
        let b2 = reader.data[reader.pos + 2];
        let b3 = reader.data[reader.pos + 3];
        reader.pos = reader.pos + 4;
        Ok(b3 as u32 * 0x1000000 + b2 as u32 * 0x10000 + b1 as u32 * 256 + b0 as u32)
    } else {
        Err(LemError::UnexpectedEof)
    }
}

/// Read a 16-bit big-endian value.
pub fn read_be16(reader: &mut ByteReader) -> (r: Result<u16, LemError>)
    requires
        old(reader).wf(),
    ensures
        final(reader).wf(),
        final(reader).bytes() == old(reader).bytes(),
        old(reader).position() + 2 <= old(reader).bytes().len() ==> {
            &&& r == Ok::<u16, LemError>(
                u16_from(
                    old(reader).bytes()[old(reader).position() + 1],
                    old(reader).bytes()[old(reader).position()],
                ),
            )
            &&& final(reader).position() == old(reader).position() + 2
        },
        old(reader).position() + 2 > old(reader).bytes().len() ==> r == Err::<u16, LemError>(
            LemError::UnexpectedEof,
        ),
{
    if reader.data.len() - reader.pos >= 2 {
        let b0 = reader.data[reader.pos];
        let b1 = reader.data[reader.pos + 1];
        reader.pos = reader.pos + 2;
        Ok(b0 as u16 * 256 + b1 as u16)
    } else {
        Err(LemError::UnexpectedEof)
    }
}

/// Read a 32-bit big-endian value.
pub fn read_be32(reader: &mut ByteReader) -> (r: Result<u32, LemError>)
    requires
        old(reader).wf(),
    ensures
        final(reader).wf(),
        final(reader).bytes() == old(reader).bytes(),
        old(reader).position() + 4 <= old(reader).bytes().len() ==> {
            &&& r == Ok::<u32, LemError>(
                u32_from(
                    old(reader).bytes()[old(reader).position() + 3],
                    old(reader).bytes()[old(reader).position() + 2],
                    old(reader).bytes()[old(reader).position() + 1],
                    old(reader).bytes()[old(reader).position()],
                ),
            )
            &&& final(reader).position() == old(reader).position() + 4
        },
        old(reader).position() + 4 > old(reader).bytes().len() ==> r == Err::<u32, LemError>(
            LemError::UnexpectedEof,
        ),
{
    if reader.data.len() - reader.pos >= 4 {
        let b0 = reader.data[reader.pos];
        let b1 = reader.data[reader.pos + 1];
        let b2 = reader.data[reader.pos + 2];
        let b3 = reader.data[reader.pos + 3];
        reader.pos = reader.pos + 4;
        Ok(b0 as u32 * 0x1000000 + b1 as u32 * 0x10000 + b2 as u32 * 256 + b3 as u32)
    } else {
        Err(LemError::UnexpectedEof)
    }
}

/// Read `n` bytes into a fresh buffer.
pub fn read_bytes(reader: &mut ByteReader, n: usize) -> (r: Result<Vec<u8>, LemError>)
    requires
        old(reader).wf(),
    ensures
        final(reader).wf(),
        final(reader).bytes() == old(reader).bytes(),
        old(reader).position() + n <= old(reader).bytes().len() ==> {
            &&& r is Ok
            &&& r->Ok_0@ == old(reader).bytes().subrange(
                old(reader).position(),
                old(reader).position() + n,
            )
            &&& final(reader).position() == old(reader).position() + n
        },
        old(reader).position() + n > old(reader).bytes().len() ==> {
            &&& r == Err::<Vec<u8>, LemError>(LemError::UnexpectedEof)
            &&& final(reader).position() == old(reader).position()
        },
{
    if reader.data.len() - reader.pos < n {
        return Err(LemError::UnexpectedEof);
    }
    let mut out: Vec<u8> = Vec::new();
    let mut i: usize = 0;
    while i < n
        invariant
            i <= n,
            reader.pos + n <= reader.data.len(),
            out@ == reader.data@.subrange(reader.pos as int, reader.pos + i),
        decreases n - i,
    {
        out.push(reader.data[reader.pos + i]);
        i = i + 1;
        assert(out@ =~= reader.data@.subrange(reader.pos as int, reader.pos + i));
    }
    reader.pos = reader.pos + n;
    Ok(out)
}

/// Append one byte.
pub fn write_byte(out_byte: u8, writer: &mut Vec<u8>)
    ensures
        final(writer)@ == old(writer)@.push(out_byte),
{
    writer.push(out_byte);
}

/// Append a 16-bit value in big-endian order.
pub fn write_be16(out_val: u16, writer: &mut Vec<u8>)
    ensures
        final(writer)@ == old(writer)@ + be16_bytes(out_val),
{
    writer.push((out_val / 256) as u8);
    writer.push((out_val % 256) as u8);
    assert(writer@ =~= old(writer)@ + be16_bytes(out_val));
}

/// Append a 32-bit value in big-endian order.
pub fn write_be32(out_val: u32, writer: &mut Vec<u8>)
    ensures
        final(writer)@ == old(writer)@ + be32_bytes(out_val),
{
    writer.push((out_val / 0x1000000) as u8);
    writer.push((out_val / 0x10000 % 256) as u8);
    writer.push((out_val / 256 % 256) as u8);
    writer.push((out_val % 256) as u8);
    assert(writer@ =~= old(writer)@ + be32_bytes(out_val));
}

/// Append a 16-bit value in little-endian order.
pub fn write_le16(out_val: u16, writer: &mut Vec<u8>)
    ensures
        final(writer)@ == old(writer)@ + le16_bytes(out_val),
{
    writer.push((out_val % 256) as u8);
    writer.push((out_val / 256) as u8);
    assert(writer@ =~= old(writer)@ + le16_bytes(out_val));
}

/// Append a 32-bit value in little-endian order.
pub fn write_le32(out_val: u32, writer: &mut Vec<u8>)
    ensures
        final(writer)@ == old(writer)@ + le32_bytes(out_val),
{
    writer.push((out_val % 256) as u8);
    writer.push((out_val / 256 % 256) as u8);
    writer.push((out_val / 0x10000 % 256) as u8);
    writer.push((out_val / 0x1000000) as u8);
    assert(writer@ =~= old(writer)@ + le32_bytes(out_val));
}

} // verus!
