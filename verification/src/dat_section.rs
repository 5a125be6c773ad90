//! The DAT section codec.
//!
//! A `.dat` container concatenates sections.  Each section is a 10-byte
//! big-endian header followed by compressed data: a bit-aligned LZ stream
//! that is consumed from its last byte toward its first, so that compressed
//! and decompressed data can share a buffer.  The writer therefore appends
//! bits going forward, and the reader walks the finished payload backwards.
#![allow(unused_imports)]
use vstd::prelude::*;

use crate::LemError;
use crate::binary_io::{
    be32_bytes, ByteReader, read_byte, read_be32, read_bytes, u32_from, write_byte, write_be32,
};
use crate::bitmath::{lemma_pow2_increases, lemma_pow2_values, lemma_shr_zero, pow2};

verus! {

/// The `n` low bits of `v`, least significant first: the order in which the
/// bit writer lays them down.
pub open spec fn bits_lsb(v: u32, n: nat) -> Seq<u8> {
    Seq::new(n, |i: int| (((v >> (i as u32)) & 1) as u8))
}

/// The value of a bit string read most-significant-bit first, as the bit
/// reader accumulates it.
pub open spec fn bits_val(s: Seq<u8>) -> nat
    decreases s.len(),
{
    if s.len() == 0 {
        0
    } else {
        2 * bits_val(s.drop_last()) + (s.last() as nat)
    }
}

/// The `k` bits stored in byte `b` by the writer, earliest first.  The
/// writer shifts each new bit in at the bottom, so the earliest bit sits
/// highest.
pub open spec fn byte_bits_msb(b: u8, k: nat) -> Seq<u8> {
    Seq::new(k, |i: int| (((b >> ((k - 1 - i) as u8)) & 1) as u8))
}

/// The bits of byte `b` in the reader's order: positions `from` up to `to`,
/// least significant first.
pub open spec fn byte_read_bits(b: u8, from: int, to: int) -> Seq<u8> {
    Seq::new((if to >= from { to - from } else { 0 }) as nat, |i: int| (((b >> ((from + i) as u8)) & 1) as u8))
}

/// The bits the writer has parked in the full bytes `data[0 .. j]`.  Byte 0
/// holds seven bits once flushed; every later byte holds eight.
pub open spec fn full_bytes_bits(data: Seq<u8>, j: nat) -> Seq<u8>
    decreases j,
{
    if j == 0 {
        Seq::empty()
    } else {
        full_bytes_bits(data, (j - 1) as nat) + byte_bits_msb(
            data[j - 1],
            if j - 1 == 0 {
                7
            } else {
                8
            },
        )
    }
}

/// The bits the reader has still to consume from the bytes below `j`: each
/// contributes its eight bit positions from the bottom up, highest byte
/// first.
pub open spec fn low_bytes_bits(data: Seq<u8>, j: nat) -> Seq<u8>
    decreases j,
{
    if j == 0 {
        Seq::empty()
    } else {
        byte_read_bits(data[j - 1], 0, 8) + low_bytes_bits(data, (j - 1) as nat)
    }
}

/// The exclusive-or of all bytes of `s`.
pub open spec fn xor_bytes(s: Seq<u8>) -> u8
    decreases s.len(),
{
    if s.len() == 0 {
        0
    } else {
        xor_bytes(s.drop_last()) ^ s.last()
    }
}

/// One compressed section: the framed header fields and the bit-packed
/// payload, together with the cursor state of whichever side (writer or
/// reader) is at work.
pub struct DatSection {
    uncomp_size: u32,
    comp_size: u32,
    checksum: u8,
    num_bits_in_first_byte: u8,
    byte_offset: u32,
    bit_offset: u32,
    comp_data: Vec<u8>,
}

impl DatSection {
    /// The decompressed length this section encodes.
    pub closed spec fn uncomp_len(self) -> int {
        self.uncomp_size as int
    }

    /// The compressed payload bytes.
    pub closed spec fn payload(self) -> Seq<u8> {
        self.comp_data@
    }

    /// The stored payload checksum.
    pub closed spec fn checksum_spec(self) -> u8 {
        self.checksum
    }

    /// The writer cursor: how many bits the current (last) byte holds, plus
    /// one until the first flush.
    pub closed spec fn w_bit_offset(self) -> int {
        self.bit_offset as int
    }

    /// The writer cursor: the index of the byte being filled.
    pub closed spec fn w_byte_offset(self) -> int {
        self.byte_offset as int
    }

    /// Bits held by the byte the writer is currently filling.
    pub open spec fn partial_bits(self) -> nat {
        if self.w_byte_offset() == 0 {
            (self.w_bit_offset() - 1) as nat
        } else {
            self.w_bit_offset() as nat
        }
    }

    /// The writer's well-formedness: the payload ends at the byte being
    /// filled, and the bit cursor stays within it.
    pub open spec fn writer_wf(self) -> bool {
        &&& self.payload().len() == self.w_byte_offset() + 1
        &&& 1 <= self.w_bit_offset() <= 8
        &&& self.w_byte_offset() == 0 ==> self.w_bit_offset() <= 8
        &&& self.payload().len() <= 0xF000_0000
    }

    /// Every bit written so far, in the order written.
    pub open spec fn stream(self) -> Seq<u8> {
        full_bytes_bits(self.payload(), self.w_byte_offset() as nat) + byte_bits_msb(
            self.payload()[self.w_byte_offset()],
            self.partial_bits(),
        )
    }

    /// Create a new empty section, ready for the bit writer.
    pub fn new_empty() -> (r: DatSection)
        ensures
            r.writer_wf(),
            r.stream() == Seq::<u8>::empty(),
            r.uncomp_len() == 0,
            r.payload().len() == 1,
    {
        let r = DatSection {
            uncomp_size: 0,
            comp_size: 0,
            checksum: 0,
            num_bits_in_first_byte: 0,
            byte_offset: 0,
            bit_offset: 1,
            comp_data: vec![0u8],
        };
        proof {
            assert(r.stream() =~= Seq::<u8>::empty());
        }
        r
    }
}

impl DatSection {
    /// The decompressed length, as stored in the header.
    pub closed spec fn uncomp_size32(self) -> u32 {
        self.uncomp_size
    }

    /// The framed size (payload plus ten header bytes), as canonicalised on
    /// read.
    pub closed spec fn comp_size32(self) -> u32 {
        self.comp_size
    }

    /// The number of valid bits in the byte the reader consumes first.
    pub closed spec fn stored_first_bits(self) -> u8 {
        self.num_bits_in_first_byte
    }

    /// The reader cursor: index of the byte being consumed.
    pub closed spec fn r_byte(self) -> int {
        self.byte_offset as int
    }

    /// The reader cursor: next bit position within that byte.
    pub closed spec fn r_bit(self) -> int {
        self.bit_offset as int
    }

    /// The payload index the reader starts from: the last byte, or the one
    /// below it when the stored bit count was zero.
    pub open spec fn first_index(self) -> int {
        self.comp_size32() - 11
    }

    /// How many valid bits byte `j` carries for the reader.
    pub open spec fn bits_in(self, j: int) -> int {
        if j == self.first_index() {
            self.stored_first_bits() as int
        } else {
            8
        }
    }

    /// The reader's well-formedness: the cursor walks from the first index
    /// down to byte zero, within each byte's valid bits.
    pub open spec fn reader_wf(self) -> bool {
        &&& 1 <= self.stored_first_bits() <= 8
        &&& 0 <= self.r_byte() <= self.first_index() < self.payload().len()
        &&& 0 <= self.r_bit() <= self.bits_in(self.r_byte())
        &&& self.r_bit() == self.bits_in(self.r_byte()) ==> self.r_byte() == 0
        &&& self.payload().len() <= 0xFFFF_FFFF
    }

    /// The bits the reader has still to consume, in reading order.
    pub open spec fn remaining_bits(self) -> Seq<u8> {
        byte_read_bits(self.payload()[self.r_byte()], self.r_bit(), self.bits_in(self.r_byte()))
            + low_bytes_bits(self.payload(), self.r_byte() as nat)
    }

    /// The on-disk form of the section: bit count, checksum, decompressed
    /// size, framed size, payload.
    pub open spec fn section_bytes(self) -> Seq<u8> {
        seq![self.stored_first_bits(), self.checksum_spec()] + be32_bytes(self.uncomp_size32())
            + be32_bytes(self.comp_size32()) + self.payload()
    }

    /// Append the framed section.
    pub fn write(&self, writer: &mut Vec<u8>)
        ensures
            final(writer)@ == old(writer)@ + self.section_bytes(),
    {
        write_byte(self.num_bits_in_first_byte, writer);
        write_byte(self.checksum, writer);
        write_be32(self.uncomp_size, writer);
        write_be32(self.comp_size, writer);
        crate::binary_io::append_bytes(writer, &self.comp_data);
        assert(writer@ =~= old(writer)@ + self.section_bytes());
    }
}

/// `full_bytes_bits` reads only the bytes below `j`.
proof fn lemma_full_bytes_stable(d1: Seq<u8>, d2: Seq<u8>, j: nat)
    requires
        forall|i: int| 0 <= i < j ==> d1[i] == d2[i],
    ensures
        full_bytes_bits(d1, j) == full_bytes_bits(d2, j),
    decreases j,
{
    if j > 0 {
        lemma_full_bytes_stable(d1, d2, (j - 1) as nat);
    }
}

/// Shifting a fresh bit into the bottom of a byte appends it to the byte's
/// bit string.
pub proof fn lemma_byte_append_bit(cur: u8, bit: u8, k: nat)
    requires
        k <= 7,
        bit <= 1,
    ensures
        byte_bits_msb((cur << 1) | bit, k + 1) == byte_bits_msb(cur, k) + seq![bit],
{
    let nb: u8 = (cur << 1) | bit;
    assert forall|s: u8| 1 <= s <= 7 implies ((nb >> s) & 1) == ((cur >> (s - 1) as u8) & 1) by {
        assert(1 <= s <= 7 && bit <= 1 ==> ((((cur << 1) | bit) >> s) & 1) == ((cur >> (s - 1) as u8)
            & 1)) by (bit_vector);
    }
    assert((nb & 1) == bit) by (bit_vector)
        requires
            nb == (cur << 1) | bit,
            bit <= 1,
    ;
    assert((nb >> 0) & 1 == nb & 1) by (bit_vector);
    assert(byte_bits_msb(nb, k + 1) =~= byte_bits_msb(cur, k) + seq![bit]);
}

impl DatSection {
    /// Append the low `num_bits` bits of `bits` to the compressed stream,
    /// least significant first.
    pub fn add_bits(&mut self, num_bits: usize, bits: u32)
        requires
            old(self).writer_wf(),
            num_bits <= 31,
            (bits >> (num_bits as u32)) == 0,
            old(self).payload().len() + 32 <= 0xF000_0000,
        ensures
            final(self).writer_wf(),
            final(self).stream() == old(self).stream() + bits_lsb(bits, num_bits as nat),
            final(self).payload().len() <= old(self).payload().len() + num_bits,
            final(self).uncomp_len() == old(self).uncomp_len(),
            final(self).checksum_spec() == old(self).checksum_spec(),
    {
        let mut n: usize = 0;
        let mut b: u32 = bits;
        proof {
            assert(bits >> 0u32 == bits) by (bit_vector);
        }
        while n < num_bits
            invariant
                self.writer_wf(),
                n <= num_bits,
                num_bits <= 31,
                b == bits >> (n as u32),
                (bits >> (num_bits as u32)) == 0,
                self.stream() == old(self).stream() + bits_lsb(bits, n as nat),
                self.payload().len() <= old(self).payload().len() + n,
                old(self).payload().len() + 32 <= 0xF000_0000,
                self.uncomp_size == old(self).uncomp_size,
                self.checksum == old(self).checksum,
                self.comp_size == old(self).comp_size,
                self.num_bits_in_first_byte == old(self).num_bits_in_first_byte,
            decreases num_bits - n,
        {
            let bit: u8 = (b & 1) as u8;
            proof {
                assert((b & 1) <= 1) by (bit_vector);
                assert((bits >> (n as u32)) & 1 == ((bits >> ((n + 1) as u32)) * 2 + ((bits >> (
                n as u32)) & 1)) - (bits >> ((n + 1) as u32)) * 2) by (bit_vector);
                assert((b >> 1) == bits >> ((n + 1) as u32)) by (bit_vector)
                    requires
                        b == bits >> (n as u32),
                        n < 31,
                ;
            }
            b = b >> 1;
            let ghost pre = *self;
            let ghost flushed = pre.w_bit_offset() >= 8;
            if self.bit_offset >= 8 {
                // The current byte is full (seven bits before the first
                // flush, eight afterwards): start a new one.
                self.byte_offset = self.byte_offset + 1;
                self.bit_offset = 1;
                self.comp_data.push(0);
            } else {
                self.bit_offset = self.bit_offset + 1;
            }
            let ghost mid = *self;
            let idx = self.byte_offset as usize;
            let cur = self.comp_data[idx];
            self.comp_data[idx] = (cur << 1) | bit;
            proof {
                let bo = mid.w_byte_offset() as nat;
                let kk: nat = if flushed {
                    0
                } else {
                    pre.partial_bits()
                };
                lemma_byte_append_bit(cur, bit, kk);
                lemma_full_bytes_stable(self.comp_data@, mid.comp_data@, bo);
                if flushed {
                    assert(cur == 0);
                    lemma_full_bytes_stable(mid.comp_data@, pre.comp_data@, (bo - 1) as nat);
                    assert(full_bytes_bits(mid.comp_data@, bo) == full_bytes_bits(
                        mid.comp_data@,
                        (bo - 1) as nat,
                    ) + byte_bits_msb(
                        mid.comp_data@[bo - 1],
                        if bo - 1 == 0 {
                            7nat
                        } else {
                            8nat
                        },
                    ));
                    assert(mid.comp_data@[bo - 1] == pre.comp_data@[pre.w_byte_offset()]);
                    assert(pre.partial_bits() == if pre.w_byte_offset() == 0 {
                        7nat
                    } else {
                        8nat
                    });
                    assert(full_bytes_bits(mid.comp_data@, bo) == pre.stream());
                } else {
                    assert(full_bytes_bits(mid.comp_data@, bo) == full_bytes_bits(
                        pre.comp_data@,
                        bo,
                    ));
                    assert(byte_bits_msb(cur, kk) == byte_bits_msb(
                        pre.comp_data@[pre.w_byte_offset()],
                        pre.partial_bits(),
                    ));
                }
                assert(self.partial_bits() == kk + 1);
                assert(self.stream() == full_bytes_bits(mid.comp_data@, bo) + byte_bits_msb(
                    (cur << 1) | bit,
                    kk + 1,
                ));
                assert(self.stream() == pre.stream() + seq![bit]);
                assert(bit == bits_lsb(bits, (n + 1) as nat)[n as int]);
                assert(bits_lsb(bits, (n + 1) as nat) =~= bits_lsb(bits, n as nat) + seq![bit]);
                assert(self.stream() =~= old(self).stream() + bits_lsb(bits, (n + 1) as nat));
            }
            n = n + 1;
        }
        proof {
            assert(b == bits >> (num_bits as u32));
        }
    }
}

/// A bit string's value is below two to its length.
proof fn lemma_bits_val_bound(s: Seq<u8>)
    requires
        forall|i: int| 0 <= i < s.len() ==> s[i] <= 1,
    ensures
        bits_val(s) < pow2(s.len()),
    decreases s.len(),
{
    if s.len() > 0 {
        lemma_bits_val_bound(s.drop_last());
    }
}

/// Exclusive-or of the bytes of a buffer, executably.
pub fn xor_fold(data: &Vec<u8>) -> (x: u8)
    ensures
        x == xor_bytes(data@),
{
    let mut x: u8 = 0;
    let mut i: usize = 0;
    while i < data.len()
        invariant
            i <= data@.len(),
            x == xor_bytes(data@.take(i as int)),
        decreases data@.len() - i,
    {
        x = x ^ data[i];
        i = i + 1;
        proof {
            assert(data@.take(i as int).drop_last() =~= data@.take(i - 1));
            assert(data@.take(i as int).last() == data@[i - 1]);
        }
    }
    proof {
        assert(data@.take(data@.len() as int) =~= data@);
    }
    x
}

impl DatSection {
    /// Read `bits` bits of compressed data from the reverse stream,
    /// accumulating them most significant first.
    pub fn read_bits(&mut self, bits: u32) -> (val: u32)
        requires
            old(self).reader_wf(),
            bits <= 32,
            bits <= old(self).remaining_bits().len(),
        ensures
            final(self).reader_wf(),
            final(self).payload() == old(self).payload(),
            final(self).uncomp_size32() == old(self).uncomp_size32(),
            final(self).comp_size32() == old(self).comp_size32(),
            final(self).stored_first_bits() == old(self).stored_first_bits(),
            final(self).checksum_spec() == old(self).checksum_spec(),
            val as nat == bits_val(old(self).remaining_bits().take(bits as int)),
            final(self).remaining_bits() == old(self).remaining_bits().skip(bits as int),
    {
        let mut val: u32 = 0;
        let mut n: u32 = 0;
        while n < bits
            invariant
                self.reader_wf(),
                n <= bits <= 32,
                bits <= old(self).remaining_bits().len(),
                self.payload() == old(self).payload(),
                self.uncomp_size32() == old(self).uncomp_size32(),
                self.comp_size32() == old(self).comp_size32(),
                self.stored_first_bits() == old(self).stored_first_bits(),
                self.checksum_spec() == old(self).checksum_spec(),
                val as nat == bits_val(old(self).remaining_bits().take(n as int)),
                self.remaining_bits() == old(self).remaining_bits().skip(n as int),
            decreases bits - n,
        {
            let ghost pre = *self;
            let ghost rem = self.remaining_bits();
            proof {
                assert(rem.len() == old(self).remaining_bits().len() - n);
                assert(rem.len() > 0);
                assert(self.r_bit() < self.bits_in(self.r_byte()));
            }
            let cur: u8 = self.comp_data[self.byte_offset as usize];
            let sh: u8 = self.bit_offset as u8;
            proof {
                assert((cur >> sh) & 1 <= 1) by (bit_vector);
            }
            let bit: u32 = ((cur >> sh) & 1) as u32;
            let bits_in_byte: u32 = if self.byte_offset == self.comp_size - 11
                && self.num_bits_in_first_byte != 0 {
                self.num_bits_in_first_byte as u32
            } else {
                8
            };
            self.bit_offset = self.bit_offset + 1;
            if self.bit_offset >= bits_in_byte {
                if self.byte_offset != 0 {
                    self.byte_offset = self.byte_offset - 1;
                    self.bit_offset = 0;
                }
                // At byte zero the cursor simply stops: the stream is spent.
            }
            proof {
                assert(rem[0] == bit as u8);
                if pre.r_bit() + 1 < pre.bits_in(pre.r_byte()) {
                    assert(self.remaining_bits() =~= rem.skip(1));
                } else if pre.r_byte() != 0 {
                    assert(byte_read_bits(
                        pre.payload()[pre.r_byte()],
                        pre.r_bit(),
                        pre.bits_in(pre.r_byte()),
                    ).len() == 1);
                    assert(low_bytes_bits(pre.payload(), pre.r_byte() as nat) == byte_read_bits(
                        pre.payload()[pre.r_byte() - 1],
                        0,
                        8,
                    ) + low_bytes_bits(pre.payload(), (pre.r_byte() - 1) as nat));
                    assert(self.bits_in(self.r_byte()) == 8);
                    assert(self.remaining_bits() =~= rem.skip(1));
                } else {
                    assert(rem.len() == 1);
                    assert(self.remaining_bits() =~= rem.skip(1));
                }
                assert(old(self).remaining_bits().skip(n as int).skip(1) =~= old(
                    self,
                ).remaining_bits().skip(n + 1));
            }
            proof {
                let taken = old(self).remaining_bits().take(n as int);
                let taken1 = old(self).remaining_bits().take(n + 1);
                assert(taken1.drop_last() =~= taken);
                assert(taken1.last() == old(self).remaining_bits()[n as int]);
                assert(old(self).remaining_bits()[n as int] == rem[0]);
                assert forall|i: int| 0 <= i < taken.len() implies taken[i] <= 1 by {
                    let b = old(self).remaining_bits()[i];
                    lemma_remaining_bits_are_bits(*old(self), i);
                }
                lemma_bits_val_bound(taken);
                lemma_pow2_increases(n as nat, 31);
                lemma_pow2_values();
                assert((val << 1u32) | bit == (2 * val + bit) as u32) by (bit_vector)
                    requires
                        val < 0x8000_0000u32,
                        bit <= 1,
                ;
            }
            val = (val << 1u32) | bit;
            n = n + 1;
        }
        val
    }
}

/// The big-endian 32-bit value at position `p` of `b`.
pub open spec fn be32_at(b: Seq<u8>, p: int) -> u32 {
    u32_from(b[p + 3], b[p + 2], b[p + 1], b[p])
}

impl DatSection {
    /// Read a framed section and verify its checksum (without decompressing).
    ///
    /// Fails with `UnexpectedEof` on a short buffer, `BadSectionHeader` when
    /// the framed size cannot hold the header or the stored bit count
    /// exceeds eight, and `ChecksumMismatch` when the exclusive-or of the
    /// payload differs from the stored checksum.  A stored bit count of zero
    /// is canonicalised: the reader starts one byte earlier with eight bits.
    pub fn from_file(reader: &mut ByteReader) -> (r: Result<DatSection, LemError>)
        requires
            old(reader).wf(),
        ensures
            final(reader).wf(),
            final(reader).bytes() == old(reader).bytes(),
            ({
                let b = old(reader).bytes();
                let p = old(reader).position();
                let num_raw = b[p];
                let chk = b[p + 1];
                let usz = be32_at(b, p + 2);
                let cs = be32_at(b, p + 6);
                let hdr_ok = p + 10 <= b.len();
                let sizes_ok = cs >= 11 && (num_raw == 0 ==> cs >= 12) && num_raw <= 8;
                let pay_ok = p + cs <= b.len();
                let payload = b.subrange(p + 10, p + cs);
                let sum_ok = xor_bytes(payload) == chk;
                &&& !hdr_ok ==> r == Err::<DatSection, LemError>(LemError::UnexpectedEof)
                &&& hdr_ok && !sizes_ok ==> r == Err::<DatSection, LemError>(
                    LemError::BadSectionHeader,
                )
                &&& hdr_ok && sizes_ok && !pay_ok ==> r == Err::<DatSection, LemError>(
                    LemError::UnexpectedEof,
                )
                &&& hdr_ok && sizes_ok && pay_ok && !sum_ok ==> r == Err::<DatSection, LemError>(
                    LemError::ChecksumMismatch,
                )
                &&& (r is Ok <==> hdr_ok && sizes_ok && pay_ok && sum_ok)
                &&& r is Ok ==> {
                    let s = r->Ok_0;
                    &&& final(reader).position() == p + cs
                    &&& s.reader_wf()
                    &&& s.payload() == payload
                    &&& s.uncomp_size32() == usz
                    &&& s.uncomp_len() == usz
                    &&& s.checksum_spec() == chk
                    &&& xor_bytes(s.payload()) == s.checksum_spec()
                    &&& s.stored_first_bits() == (if num_raw == 0 {
                        8u8
                    } else {
                        num_raw
                    })
                    &&& s.first_index() == (if num_raw == 0 {
                        payload.len() - 2
                    } else {
                        payload.len() - 1
                    })
                    &&& s.r_byte() == s.first_index()
                    &&& s.r_bit() == 0
                    &&& s.remaining_bits() == byte_read_bits(
                        payload[s.first_index()],
                        0,
                        s.stored_first_bits() as int,
                    ) + low_bytes_bits(payload, s.first_index() as nat)
                }
            }),
    {
        if reader.remaining_len() < 10 {
            return Err(LemError::UnexpectedEof);
        }
        let num_bits_in_first_byte = read_byte(reader).unwrap();
        let checksum = read_byte(reader).unwrap();
        let uncomp_size = read_be32(reader).unwrap();
        let comp_size = read_be32(reader).unwrap();
        if comp_size < 11 || (num_bits_in_first_byte == 0 && comp_size < 12)
            || num_bits_in_first_byte > 8 {
            return Err(LemError::BadSectionHeader);
        }
        let payload_len = (comp_size - 10) as usize;
        if reader.remaining_len() < payload_len {
            return Err(LemError::UnexpectedEof);
        }
        let comp_data = read_bytes(reader, payload_len).unwrap();
        let data_checksum = xor_fold(&comp_data);
        if data_checksum != checksum {
            return Err(LemError::ChecksumMismatch);
        }
        let s = DatSection {
            uncomp_size,
            comp_size: if num_bits_in_first_byte == 0 {
                comp_size - 1
            } else {
                comp_size
            },
            checksum,
            num_bits_in_first_byte: if num_bits_in_first_byte == 0 {
                8
            } else {
                num_bits_in_first_byte
            },
            byte_offset: comp_size - (if num_bits_in_first_byte == 0 {
                12
            } else {
                11
            }),
            bit_offset: 0,
            comp_data,
        };
        Ok(s)
    }
}

/// A buffer of `n` zero bytes.
pub open spec fn zero_bytes(n: nat) -> Seq<u8> {
    Seq::new(n, |i: int| 0u8)
}

/// The sequential back-reference copy: `out[i] = out[i + d]`, then the same
/// one position lower, `len` times.  Overlapping copies repeat the pattern,
/// exactly as the decoder's loop does.
pub open spec fn copy_back(out: Seq<u8>, i: int, d: int, len: int) -> Seq<u8>
    decreases len,
{
    if len <= 0 || !(0 <= i < out.len()) || !(0 <= i + d < out.len()) {
        out
    } else {
        copy_back(out.update(i, out[i + d]), i - 1, d, len - 1)
    }
}

/// `len` literal bytes taken eight bits at a time from position `base` of
/// the bit string `r`, written at output indices `i` descending.
pub open spec fn write_literal(r: Seq<u8>, base: int, out: Seq<u8>, i: int, len: int) -> Seq<u8> {
    Seq::new(
        out.len(),
        |p: int|
            if i - len + 1 <= p <= i {
                (bits_val(r.subrange(base + 8 * (i - p), base + 8 * (i - p) + 8)) % 256) as u8
            } else {
                out[p]
            },
    )
}

/// The decoder, on the bit string `r` (in reading order), filling `out`
/// from index `i` downwards.  `None` marks a stream the decoder cannot
/// consume: too few bits, a length overrunning the start of the output, or
/// a back-reference past its end.
pub open spec fn dat_decode(r: Seq<u8>, out: Seq<u8>, i: int) -> Option<Seq<u8>>
    decreases r.len(),
{
    if i < 0 {
        Some(out)
    } else if r.len() < 2 {
        None
    } else if r[0] == 0 && r[1] == 0 {
        // Short literal: three length bits, then that many raw bytes.
        if r.len() < 5 {
            None
        } else {
            let len = bits_val(r.subrange(2, 5)) + 1;
            if r.len() < 5 + 8 * len || i + 1 < len {
                None
            } else {
                dat_decode(
                    r.skip(5 + 8 * (len as int)),
                    write_literal(r, 5, out, i, len as int),
                    i - len,
                )
            }
        }
    } else if r[0] == 0 {
        // Two-byte back-reference with an eight-bit offset.
        if r.len() < 10 {
            None
        } else {
            let o = bits_val(r.subrange(2, 10)) as int;
            if i < 1 || i + 1 + o >= out.len() {
                None
            } else {
                dat_decode(r.skip(10), copy_back(out, i, o + 1, 2), i - 2)
            }
        }
    } else if r.len() < 3 {
        None
    } else {
        let cmd = bits_val(r.subrange(1, 3));
        if cmd == 0 {
            // Three-byte back-reference with a nine-bit offset.
            if r.len() < 12 {
                None
            } else {
                let o = bits_val(r.subrange(3, 12)) as int;
                if i < 2 || i + 1 + o >= out.len() {
                    None
                } else {
                    dat_decode(r.skip(12), copy_back(out, i, o + 1, 3), i - 3)
                }
            }
        } else if cmd == 1 {
            // Four-byte back-reference with a ten-bit offset.
            if r.len() < 13 {
                None
            } else {
                let o = bits_val(r.subrange(3, 13)) as int;
                if i < 3 || i + 1 + o >= out.len() {
                    None
                } else {
                    dat_decode(r.skip(13), copy_back(out, i, o + 1, 4), i - 4)
                }
            }
        } else if cmd == 2 {
            // Long back-reference: eight length bits, then a twelve-bit
            // offset.
            if r.len() < 23 {
                None
            } else {
                let len = bits_val(r.subrange(3, 11)) + 1;
                let o = bits_val(r.subrange(11, 23)) as int;
                if i + 1 < len || i + 1 + o >= out.len() {
                    None
                } else {
                    dat_decode(r.skip(23), copy_back(out, i, o + 1, len as int), i - len)
                }
            }
        } else if cmd == 3 {
            // Long literal: eight length bits (meaning length minus nine),
            // then that many raw bytes.
            if r.len() < 11 {
                None
            } else {
                let len = bits_val(r.subrange(3, 11)) + 9;
                if r.len() < 11 + 8 * len || i + 1 < len {
                    None
                } else {
                    dat_decode(
                        r.skip(11 + 8 * (len as int)),
                        write_literal(r, 11, out, i, len as int),
                        i - len,
                    )
                }
            }
        } else {
            None
        }
    }
}

/// Decoding never changes the length of the output buffer.
pub proof fn lemma_copy_back_len(out: Seq<u8>, i: int, d: int, len: int)
    ensures
        copy_back(out, i, d, len).len() == out.len(),
    decreases len,
{
    if len > 0 && 0 <= i < out.len() && 0 <= i + d < out.len() {
        lemma_copy_back_len(out.update(i, out[i + d]), i - 1, d, len - 1);
    }
}

/// Decoding never changes the length of the output buffer.
pub proof fn lemma_decode_len(r: Seq<u8>, out: Seq<u8>, i: int)
    requires
        dat_decode(r, out, i) is Some,
    ensures
        dat_decode(r, out, i)->Some_0.len() == out.len(),
    decreases r.len(),
{
    if i < 0 {
    } else if r[0] == 0 && r[1] == 0 {
        let len = bits_val(r.subrange(2, 5)) + 1;
        lemma_decode_len(
            r.skip(5 + 8 * (len as int)),
            write_literal(r, 5, out, i, len as int),
            i - len,
        );
    } else if r[0] == 0 {
        let o = bits_val(r.subrange(2, 10)) as int;
        lemma_copy_back_len(out, i, o + 1, 2);
        lemma_decode_len(r.skip(10), copy_back(out, i, o + 1, 2), i - 2);
    } else {
        let cmd = bits_val(r.subrange(1, 3));
        if cmd == 0 {
            let o = bits_val(r.subrange(3, 12)) as int;
            lemma_copy_back_len(out, i, o + 1, 3);
            lemma_decode_len(r.skip(12), copy_back(out, i, o + 1, 3), i - 3);
        } else if cmd == 1 {
            let o = bits_val(r.subrange(3, 13)) as int;
            lemma_copy_back_len(out, i, o + 1, 4);
            lemma_decode_len(r.skip(13), copy_back(out, i, o + 1, 4), i - 4);
        } else if cmd == 2 {
            let len = bits_val(r.subrange(3, 11)) + 1;
            let o = bits_val(r.subrange(11, 23)) as int;
            lemma_copy_back_len(out, i, o + 1, len as int);
            lemma_decode_len(r.skip(23), copy_back(out, i, o + 1, len as int), i - len);
        } else {
            let len = bits_val(r.subrange(3, 11)) + 9;
            lemma_decode_len(
                r.skip(11 + 8 * (len as int)),
                write_literal(r, 11, out, i, len as int),
                i - len,
            );
        }
    }
}

/// Applying one more step of the sequential copy updates the result of the
/// previous steps at the next position down.
pub proof fn lemma_copy_back_step(out: Seq<u8>, i: int, d: int, k: int)
    requires
        k >= 0,
        0 <= i - k,
        i + d < out.len(),
        d >= 1,
    ensures
        copy_back(out, i, d, k + 1) == copy_back(out, i, d, k).update(
            i - k,
            copy_back(out, i, d, k)[i - k + d],
        ),
    decreases k,
{
    if k == 0 {
        assert(copy_back(out, i, d, 1) == copy_back(out.update(i, out[i + d]), i - 1, d, 0));
        assert(copy_back(out, i, d, 0) == out);
    } else {
        let out1 = out.update(i, out[i + d]);
        assert(out1.len() == out.len());
        lemma_copy_back_step(out1, i - 1, d, k - 1);
        assert(copy_back(out, i, d, k + 1) == copy_back(out1, i - 1, d, k));
        assert(copy_back(out, i, d, k) == copy_back(out1, i - 1, d, k - 1));
    }
}

/// Reading a literal's bytes from position `base` of `r` equals reading
/// them from position 0 of `r` with that prefix dropped.
proof fn lemma_write_literal_shift(r: Seq<u8>, base: int, out: Seq<u8>, i: int, len: int)
    requires
        0 <= base,
        0 <= len,
        base + 8 * len <= r.len(),
        i < out.len(),
    ensures
        write_literal(r, base, out, i, len) == write_literal(r.skip(base), 0, out, i, len),
{
    assert forall|p: int| 0 <= p < out.len() implies write_literal(r, base, out, i, len)[p]
        == write_literal(r.skip(base), 0, out, i, len)[p] by {
        if i - len + 1 <= p <= i {
            let m = i - p;
            if 0 <= m < len {
                assert(r.subrange(base + 8 * m, base + 8 * m + 8) =~= r.skip(base).subrange(
                    8 * m,
                    8 * m + 8,
                ));
            }
        }
    }
    assert(write_literal(r, base, out, i, len) =~= write_literal(r.skip(base), 0, out, i, len));
}

/// Apply the sequential back-reference copy to a buffer.
fn do_copy(output: &mut Vec<u8>, i0: usize, d: usize, len: usize)
    requires
        len >= 1,
        d >= 1,
        i0 + 1 >= len,
        i0 + d < old(output)@.len(),
    ensures
        final(output)@ == copy_back(old(output)@, i0 as int, d as int, len as int),
        final(output)@.len() == old(output)@.len(),
{
    let olen = output.len();
    let mut k: usize = 0;
    while k < len
        invariant
            k <= len,
            len >= 1,
            d >= 1,
            i0 + 1 >= len,
            i0 + d < old(output)@.len(),
            olen == output@.len(),
            output@ == copy_back(old(output)@, i0 as int, d as int, k as int),
            output@.len() == old(output)@.len(),
        decreases len - k,
    {
        proof {
            lemma_copy_back_len(old(output)@, i0 as int, d as int, k as int);
            lemma_copy_back_step(old(output)@, i0 as int, d as int, k as int);
        }
        let src = output[i0 - k + d];
        output[i0 - k] = src;
        k = k + 1;
    }
}

impl DatSection {
    /// Read `8 * len` bits as `len` raw bytes, writing them at output
    /// indices `i0` descending.
    fn read_literal_run(&mut self, output: &mut Vec<u8>, i0: usize, len: usize)
        requires
            old(self).reader_wf(),
            len >= 1,
            i0 + 1 >= len,
            i0 < old(output)@.len(),
            8 * len <= old(self).remaining_bits().len(),
        ensures
            final(self).reader_wf(),
            final(self).payload() == old(self).payload(),
            final(self).uncomp_size32() == old(self).uncomp_size32(),
            final(self).comp_size32() == old(self).comp_size32(),
            final(self).stored_first_bits() == old(self).stored_first_bits(),
            final(self).checksum_spec() == old(self).checksum_spec(),
            final(self).remaining_bits() == old(self).remaining_bits().skip(8 * len),
            final(output)@ == write_literal(
                old(self).remaining_bits(),
                0,
                old(output)@,
                i0 as int,
                len as int,
            ),
            final(output)@.len() == old(output)@.len(),
    {
        let ghost rem0 = old(self).remaining_bits();
        let ghost out0 = old(output)@;
        let mut k: usize = 0;
        while k < len
            invariant
                self.reader_wf(),
                k <= len,
                len >= 1,
                i0 + 1 >= len,
                i0 < out0.len(),
                8 * len <= rem0.len(),
                rem0 == old(self).remaining_bits(),
                self.payload() == old(self).payload(),
                self.uncomp_size32() == old(self).uncomp_size32(),
                self.comp_size32() == old(self).comp_size32(),
                self.stored_first_bits() == old(self).stored_first_bits(),
                self.checksum_spec() == old(self).checksum_spec(),
                self.remaining_bits() == rem0.skip(8 * k),
                output@ == write_literal(rem0, 0, out0, i0 as int, k as int),
                output@.len() == out0.len(),
            decreases len - k,
        {
            proof {
                assert(rem0.skip(8 * (k as int)).len() == rem0.len() - 8 * k);
            }
            let v = self.read_bits(8);
            proof {
                assert(rem0.skip(8 * (k as int)).take(8) =~= rem0.subrange(8 * k, 8 * k + 8));
                assert forall|j: int| 0 <= j < 8 implies #[trigger] rem0.subrange(
                    8 * (k as int),
                    8 * (k as int) + 8,
                )[j] <= 1 by {
                    lemma_remaining_bits_are_bits(*old(self), 8 * k + j);
                }
                lemma_bits_val_bound(rem0.subrange(8 * (k as int), 8 * (k as int) + 8));
                lemma_pow2_values();
                assert(rem0.skip(8 * (k as int)).skip(8) =~= rem0.skip(8 * (k + 1)));
            }
            output[i0 - k] = v as u8;
            proof {
                assert(output@ =~= write_literal(rem0, 0, out0, i0 as int, (k + 1) as int));
            }
            k = k + 1;
        }
    }

    /// Handle a short-literal token (prefix `00` already consumed).
    fn tok_short_literal(
        &mut self,
        output: &mut Vec<u8>,
        i: usize,
        Ghost(rem): Ghost<Seq<u8>>,
    ) -> (tok_len: usize)
        requires
            old(self).reader_wf(),
            forall|j: int| 0 <= j < rem.len() ==> rem[j] <= 1,
            rem.len() >= 2,
            rem[0] == 0,
            rem[1] == 0,
            old(self).remaining_bits() == rem.skip(2),
            i < old(output)@.len(),
            dat_decode(rem, old(output)@, i as int) is Some,
        ensures
            final(self).reader_wf(),
            final(self).payload() == old(self).payload(),
            final(self).uncomp_size32() == old(self).uncomp_size32(),
            final(self).comp_size32() == old(self).comp_size32(),
            final(self).stored_first_bits() == old(self).stored_first_bits(),
            final(self).checksum_spec() == old(self).checksum_spec(),
            final(output)@.len() == old(output)@.len(),
            1 <= tok_len <= i + 1,
            dat_decode(rem, old(output)@, i as int) == dat_decode(
                final(self).remaining_bits(),
                final(output)@,
                i - tok_len,
            ),
    {
        let ghost out0 = old(output)@;
        let ghost ii = i as int;
        proof {
            assert(dat_decode(rem, out0, ii) is Some);
            assert(rem.len() >= 5);
            assert(self.remaining_bits().take(3) =~= rem.subrange(2, 5));
            lemma_bits_val_piece(rem, 2, 5);
            lemma_pow2_values();
        }
        let len = (self.read_bits(3) + 1) as usize;
        proof {
            assert(len == bits_val(rem.subrange(2, 5)) + 1);
            assert(self.remaining_bits() =~= rem.skip(2).skip(3));
            assert(rem.skip(2).skip(3) =~= rem.skip(5));
            lemma_write_literal_shift(rem, 5, out0, ii, len as int);
        }
        self.read_literal_run(output, i, len);
        proof {
            assert(rem.skip(5).skip(8 * (len as int)) =~= rem.skip(5 + 8 * (len as int)));
            assert(output@ == write_literal(rem, 5, out0, ii, len as int));
        }
        len
    }

    /// Handle a long-literal token (bits `111` already consumed).
    fn tok_long_literal(
        &mut self,
        output: &mut Vec<u8>,
        i: usize,
        Ghost(rem): Ghost<Seq<u8>>,
    ) -> (tok_len: usize)
        requires
            old(self).reader_wf(),
            forall|j: int| 0 <= j < rem.len() ==> rem[j] <= 1,
            rem.len() >= 3,
            rem[0] != 0,
            bits_val(rem.subrange(1, 3)) == 3,
            old(self).remaining_bits() == rem.skip(3),
            i < old(output)@.len(),
            dat_decode(rem, old(output)@, i as int) is Some,
        ensures
            final(self).reader_wf(),
            final(self).payload() == old(self).payload(),
            final(self).uncomp_size32() == old(self).uncomp_size32(),
            final(self).comp_size32() == old(self).comp_size32(),
            final(self).stored_first_bits() == old(self).stored_first_bits(),
            final(self).checksum_spec() == old(self).checksum_spec(),
            final(output)@.len() == old(output)@.len(),
            1 <= tok_len <= i + 1,
            dat_decode(rem, old(output)@, i as int) == dat_decode(
                final(self).remaining_bits(),
                final(output)@,
                i - tok_len,
            ),
    {
        let ghost out0 = old(output)@;
        let ghost ii = i as int;
        proof {
            assert(dat_decode(rem, out0, ii) is Some);
            assert(rem.len() >= 11);
            assert(self.remaining_bits().take(8) =~= rem.subrange(3, 11));
            lemma_bits_val_piece(rem, 3, 11);
            lemma_pow2_values();
        }
        let len = (self.read_bits(8) + 9) as usize;
        proof {
            assert(len == bits_val(rem.subrange(3, 11)) + 9);
            assert(self.remaining_bits() =~= rem.skip(3).skip(8));
            assert(rem.skip(3).skip(8) =~= rem.skip(11));
            lemma_write_literal_shift(rem, 11, out0, ii, len as int);
        }
        self.read_literal_run(output, i, len);
        proof {
            assert(rem.skip(11).skip(8 * (len as int)) =~= rem.skip(11 + 8 * (len as int)));
            assert(output@ == write_literal(rem, 11, out0, ii, len as int));
        }
        len
    }

    /// Handle a fixed-size back-reference of two, three or four bytes (its
    /// command prefix already consumed).
    fn tok_ref_fixed(
        &mut self,
        output: &mut Vec<u8>,
        i: usize,
        Ghost(rem): Ghost<Seq<u8>>,
        len: usize,
    ) -> (tok_len: usize)
        requires
            old(self).reader_wf(),
            forall|j: int| 0 <= j < rem.len() ==> rem[j] <= 1,
            len == 2 || len == 3 || len == 4,
            len == 2 ==> rem.len() >= 2 && rem[0] == 0 && rem[1] != 0 && old(self).remaining_bits()
                == rem.skip(2),
            len == 3 ==> rem.len() >= 3 && rem[0] != 0 && bits_val(rem.subrange(1, 3)) == 0 && old(
                self,
            ).remaining_bits() == rem.skip(3),
            len == 4 ==> rem.len() >= 3 && rem[0] != 0 && bits_val(rem.subrange(1, 3)) == 1 && old(
                self,
            ).remaining_bits() == rem.skip(3),
            i < old(output)@.len(),
            dat_decode(rem, old(output)@, i as int) is Some,
        ensures
            final(self).reader_wf(),
            final(self).payload() == old(self).payload(),
            final(self).uncomp_size32() == old(self).uncomp_size32(),
            final(self).comp_size32() == old(self).comp_size32(),
            final(self).stored_first_bits() == old(self).stored_first_bits(),
            final(self).checksum_spec() == old(self).checksum_spec(),
            final(output)@.len() == old(output)@.len(),
            1 <= tok_len <= i + 1,
            tok_len == len,
            dat_decode(rem, old(output)@, i as int) == dat_decode(
                final(self).remaining_bits(),
                final(output)@,
                i - tok_len,
            ),
    {
        let ghost out0 = old(output)@;
        let ghost ii = i as int;
        let ghost c: int = if len == 2 { 2 } else { 3 };
        let off_bits: u32 = if len == 2 {
            8
        } else if len == 3 {
            9
        } else {
            10
        };
        proof {
            assert(dat_decode(rem, out0, ii) is Some);
            assert(rem.len() >= c + off_bits);
            assert(self.remaining_bits().take(off_bits as int) =~= rem.subrange(
                c,
                c + off_bits,
            ));
            lemma_bits_val_piece(rem, c, c + off_bits);
            lemma_pow2_values();
        }
        let raw_off = self.read_bits(off_bits) as usize;
        proof {
            assert(raw_off == bits_val(rem.subrange(c, c + off_bits)));
            assert(self.remaining_bits() =~= rem.skip(c + off_bits));
        }
        do_copy(output, i, raw_off + 1, len);
        len
    }

    /// Handle a long back-reference (bits `110` already consumed).
    fn tok_ref_long(
        &mut self,
        output: &mut Vec<u8>,
        i: usize,
        Ghost(rem): Ghost<Seq<u8>>,
    ) -> (tok_len: usize)
        requires
            old(self).reader_wf(),
            forall|j: int| 0 <= j < rem.len() ==> rem[j] <= 1,
            rem.len() >= 3,
            rem[0] != 0,
            bits_val(rem.subrange(1, 3)) == 2,
            old(self).remaining_bits() == rem.skip(3),
            i < old(output)@.len(),
            dat_decode(rem, old(output)@, i as int) is Some,
        ensures
            final(self).reader_wf(),
            final(self).payload() == old(self).payload(),
            final(self).uncomp_size32() == old(self).uncomp_size32(),
            final(self).comp_size32() == old(self).comp_size32(),
            final(self).stored_first_bits() == old(self).stored_first_bits(),
            final(self).checksum_spec() == old(self).checksum_spec(),
            final(output)@.len() == old(output)@.len(),
            1 <= tok_len <= i + 1,
            dat_decode(rem, old(output)@, i as int) == dat_decode(
                final(self).remaining_bits(),
                final(output)@,
                i - tok_len,
            ),
    {
        let ghost out0 = old(output)@;
        let ghost ii = i as int;
        proof {
            assert(dat_decode(rem, out0, ii) is Some);
            assert(rem.len() >= 23);
            assert(self.remaining_bits().take(8) =~= rem.subrange(3, 11));
            lemma_bits_val_piece(rem, 3, 11);
            lemma_pow2_values();
        }
        let len = (self.read_bits(8) + 1) as usize;
        proof {
            assert(len == bits_val(rem.subrange(3, 11)) + 1);
            assert(self.remaining_bits() =~= rem.skip(3).skip(8));
            assert(rem.skip(3).skip(8) =~= rem.skip(11));
            assert(self.remaining_bits().take(12) =~= rem.subrange(11, 23));
            lemma_bits_val_piece(rem, 11, 23);
        }
        let raw_off = self.read_bits(12) as usize;
        proof {
            assert(raw_off == bits_val(rem.subrange(11, 23)));
            assert(rem.skip(11).skip(12) =~= rem.skip(23));
            assert(self.remaining_bits() =~= rem.skip(23));
        }
        do_copy(output, i, raw_off + 1, len);
        len
    }

    /// Decompress the section into a fresh buffer of its stated size.
    ///
    /// The section must hold a stream the decoder can consume in full; a
    /// section produced by `from_data`, or any section `from_file` accepts
    /// that was written by this codec, satisfies that.
    pub fn decompress(&mut self) -> (out: Vec<u8>)
        requires
            old(self).reader_wf(),
            old(self).uncomp_len() == 0 || dat_decode(
                old(self).remaining_bits(),
                zero_bytes(old(self).uncomp_len() as nat),
                old(self).uncomp_len() - 1,
            ) is Some,
        ensures
            out@.len() == old(self).uncomp_len(),
            old(self).uncomp_len() > 0 ==> Some(out@) == dat_decode(
                old(self).remaining_bits(),
                zero_bytes(old(self).uncomp_len() as nat),
                old(self).uncomp_len() - 1,
            ),
            final(self).payload() == old(self).payload(),
            final(self).uncomp_size32() == old(self).uncomp_size32(),
            final(self).comp_size32() == old(self).comp_size32(),
            final(self).stored_first_bits() == old(self).stored_first_bits(),
            final(self).checksum_spec() == old(self).checksum_spec(),
    {
        if self.uncomp_size == 0 {
            return Vec::new();
        }
        let n: usize = self.uncomp_size as usize;
        let mut output: Vec<u8> = vec![0u8; n];
        let ghost res = dat_decode(
            old(self).remaining_bits(),
            zero_bytes(n as nat),
            n - 1,
        )->Some_0;
        proof {
            assert(output@ =~= zero_bytes(n as nat));
        }
        let mut i: usize = n - 1;
        loop
            invariant_except_break
                self.reader_wf(),
                dat_decode(self.remaining_bits(), output@, i as int) == Some(res),
            invariant
                output@.len() == n,
                n >= 1,
                i < n,
                self.payload() == old(self).payload(),
                self.uncomp_size32() == old(self).uncomp_size32(),
                self.comp_size32() == old(self).comp_size32(),
                self.stored_first_bits() == old(self).stored_first_bits(),
                self.checksum_spec() == old(self).checksum_spec(),
            ensures
                output@ == res,
            decreases i,
        {
            let ghost rem = self.remaining_bits();
            let ghost out_pre = output@;
            let ghost ii = i as int;
            proof {
                assert(dat_decode(rem, out_pre, ii) is Some);
                assert(rem.len() >= 2);
                assert forall|j: int| 0 <= j < rem.len() implies rem[j] <= 1 by {
                    lemma_remaining_bits_are_bits(*self, j);
                }
            }
            let b0 = self.read_bits(1);
            proof {
                lemma_bits_val_single(rem.take(1));
                assert(rem.take(1)[0] == rem[0]);
                assert(b0 == rem[0] as u32);
            }
            let tok_len: usize;
            if b0 == 0 {
                let ghost rem1 = self.remaining_bits();
                let b1 = self.read_bits(1);
                proof {
                    assert(rem1 == rem.skip(1));
                    lemma_bits_val_single(rem1.take(1));
                    assert(rem1.take(1)[0] == rem1[0] && rem1[0] == rem[1]);
                    assert(b1 == rem[1] as u32);
                    assert(rem.skip(1).skip(1) =~= rem.skip(2));
                }
                if b1 == 0 {
                    tok_len = self.tok_short_literal(&mut output, i, Ghost(rem));
                } else {
                    tok_len = self.tok_ref_fixed(&mut output, i, Ghost(rem), 2);
                }
            } else {
                let ghost rem1 = self.remaining_bits();
                proof {
                    assert(rem1 == rem.skip(1));
                    assert(rem1.take(2) =~= rem.subrange(1, 3));
                    lemma_bits_val_piece(rem, 1, 3);
                    lemma_pow2_values();
                }
                let cmd = self.read_bits(2);
                proof {
                    assert(cmd == bits_val(rem.subrange(1, 3)));
                    assert(rem.skip(1).skip(2) =~= rem.skip(3));
                    assert(cmd <= 3);
                }
                if cmd == 0 {
                    tok_len = self.tok_ref_fixed(&mut output, i, Ghost(rem), 3);
                } else if cmd == 1 {
                    tok_len = self.tok_ref_fixed(&mut output, i, Ghost(rem), 4);
                } else if cmd == 2 {
                    tok_len = self.tok_ref_long(&mut output, i, Ghost(rem));
                } else {
                    tok_len = self.tok_long_literal(&mut output, i, Ghost(rem));
                }
            }
            proof {
                assert(dat_decode(self.remaining_bits(), output@, ii - tok_len) == Some(res));
            }
            if i + 1 == tok_len {
                proof {
                    assert(ii - tok_len == -1);
                    assert(output@ == res);
                }
                break;
            }
            i = i - tok_len;
        }
        output
    }
}

/// The bits of the literal bytes `data[a .. a + l]` as the encoder emits
/// them: eight bits each, least significant first, in buffer order.
pub open spec fn lit_bytes_bits(data: Seq<u8>, a: int, l: int) -> Seq<u8>
    decreases l,
{
    if l <= 0 {
        Seq::empty()
    } else {
        lit_bytes_bits(data, a, l - 1) + bits_lsb(data[a + l - 1] as u32, 8)
    }
}

impl DatSection {
    /// Emit the pending uncompressed bytes `data[from .. to]` as literal
    /// tokens, at most 265 bytes each: up to eight bytes with the short
    /// prefix, nine to 265 with the long one.
    fn flush_literals(&mut self, data: &Vec<u8>, from: usize, to: usize)
        requires
            old(self).writer_wf(),
            from <= to <= data@.len(),
            data@.len() < 0x4000_0000,
            old(self).stream().len() <= 19 * from,
            8 * old(self).payload().len() <= old(self).stream().len() + 16,
            enc_inv(data@, from as int, old(self).stream()),
        ensures
            final(self).writer_wf(),
            final(self).stream().len() <= 19 * to,
            8 * final(self).payload().len() <= final(self).stream().len() + 16,
            final(self).uncomp_len() == old(self).uncomp_len(),
            final(self).checksum_spec() == old(self).checksum_spec(),
            enc_inv(data@, to as int, final(self).stream()),
    {
        let mut cur: usize = from;
        while cur < to
            invariant
                self.writer_wf(),
                from <= cur <= to <= data@.len(),
                data@.len() < 0x4000_0000,
                self.stream().len() <= 19 * cur,
                8 * self.payload().len() <= self.stream().len() + 16,
                self.uncomp_len() == old(self).uncomp_len(),
                self.checksum_spec() == old(self).checksum_spec(),
                enc_inv(data@, cur as int, self.stream()),
            decreases to - cur,
        {
            let ghost chunk_start_stream = self.stream();
            let mut uncomp_len: usize = to - cur;
            if uncomp_len > 264 {
                uncomp_len = 264;
            }
            proof {
                lemma_shr_zero(0);
                lemma_shr_zero(7);
                assert(chunk_start_stream + lit_bytes_bits(data@, cur as int, 0)
                    =~= chunk_start_stream);
            }
            if uncomp_len <= 8 {
                // A short literal: the byte values, then three length bits,
                // then the two-bit prefix.
                let mut b: usize = 0;
                while b < uncomp_len
                    invariant
                        self.writer_wf(),
                        b <= uncomp_len,
                        cur + uncomp_len <= data@.len(),
                        data@.len() < 0x4000_0000,
                        self.stream().len() <= 19 * cur + 8 * b,
                        8 * self.payload().len() <= self.stream().len() + 16,
                        self.uncomp_len() == old(self).uncomp_len(),
                        self.checksum_spec() == old(self).checksum_spec(),
                        self.stream() == chunk_start_stream + lit_bytes_bits(
                            data@,
                            cur as int,
                            b as int,
                        ),
                    decreases uncomp_len - b,
                {
                    let v = data[cur + b] as u32;
                    proof {
                        lemma_shr_zero(v);
                        lemma_payload_headroom(*self);
                    }
                    self.add_bits(8, v);
                    b = b + 1;
                    proof {
                        lemma_payload_growth(*old(self), *self);
                        assert(self.stream() =~= chunk_start_stream + lit_bytes_bits(
                            data@,
                            cur as int,
                            b as int,
                        ));
                    }
                }
                proof {
                    lemma_shr_zero((uncomp_len - 1) as u32);
                    lemma_payload_headroom(*self);
                }
                self.add_bits(3, (uncomp_len - 1) as u32);
                proof {
                    lemma_payload_growth(*old(self), *self);
                    lemma_payload_headroom(*self);
                }
                self.add_bits(2, 0);
                proof {
                    lemma_enc_literal(
                        data@,
                        cur as int,
                        chunk_start_stream,
                        uncomp_len as int,
                        false,
                    );
                }
            } else {
                // A long literal: the byte values, then eight length bits
                // (length minus nine), then the three-bit prefix.
                let mut b: usize = 0;
                while b < uncomp_len
                    invariant
                        self.writer_wf(),
                        b <= uncomp_len,
                        uncomp_len <= 264,
                        cur + uncomp_len <= data@.len(),
                        data@.len() < 0x4000_0000,
                        self.stream().len() <= 19 * cur + 8 * b,
                        8 * self.payload().len() <= self.stream().len() + 16,
                        self.uncomp_len() == old(self).uncomp_len(),
                        self.checksum_spec() == old(self).checksum_spec(),
                        self.stream() == chunk_start_stream + lit_bytes_bits(
                            data@,
                            cur as int,
                            b as int,
                        ),
                    decreases uncomp_len - b,
                {
                    let v = data[cur + b] as u32;
                    proof {
                        lemma_shr_zero(v);
                        lemma_payload_headroom(*self);
                    }
                    self.add_bits(8, v);
                    b = b + 1;
                    proof {
                        lemma_payload_growth(*old(self), *self);
                        assert(self.stream() =~= chunk_start_stream + lit_bytes_bits(
                            data@,
                            cur as int,
                            b as int,
                        ));
                    }
                }
                proof {
                    lemma_shr_zero((uncomp_len - 9) as u32);
                    lemma_payload_headroom(*self);
                }
                self.add_bits(8, (uncomp_len - 9) as u32);
                proof {
                    lemma_payload_growth(*old(self), *self);
                    lemma_payload_headroom(*self);
                }
                self.add_bits(3, 7);
                proof {
                    lemma_enc_literal(
                        data@,
                        cur as int,
                        chunk_start_stream,
                        uncomp_len as int,
                        true,
                    );
                }
            }
            cur = cur + uncomp_len;
            proof {
                lemma_payload_growth(*old(self), *self);
            }
        }
    }
}

impl DatSection {
    /// Compress `data` into a new section: a single forward pass that emits
    /// a back-reference whenever one pays for itself and otherwise extends a
    /// pending literal run.
    ///
    /// The last postcondition is the codec's round trip: decoding the
    /// section's bits, exactly as a fresh reader built by `from_file` will
    /// see them, reproduces `data`.  Chained with `write`, `from_file` and
    /// `decompress`, it gives `decompress(read(write(compress(data)))) ==
    /// data` for every buffer.
    pub fn from_data(data: &Vec<u8>, uncomp_size: usize) -> (s: DatSection)
        requires
            uncomp_size == data@.len(),
            data@.len() < 0x4000_0000,
        ensures
            s.uncomp_size32() == data@.len(),
            s.uncomp_len() == data@.len(),
            s.comp_size32() == s.payload().len() + 10,
            s.checksum_spec() == xor_bytes(s.payload()),
            1 <= s.stored_first_bits() <= 8,
            1 <= s.payload().len(),
            dat_decode(
                start_bits(s.payload(), s.payload().len() - 1, s.stored_first_bits() as int),
                zero_bytes(data@.len() as nat),
                data@.len() - 1,
            ) == Some(data@),
    {
        let mut sec = DatSection::new_empty();
        sec.uncomp_size = uncomp_size as u32;
        proof {
            lemma_enc_inv_base(data@);
        }
        let mut i: usize = 0;
        let mut last_uncomp_off: usize = 0;
        while i < uncomp_size
            invariant
                sec.writer_wf(),
                last_uncomp_off <= i <= uncomp_size,
                uncomp_size == data@.len() < 0x4000_0000,
                sec.stream().len() <= 19 * last_uncomp_off,
                8 * sec.payload().len() <= sec.stream().len() + 16,
                sec.uncomp_size32() == uncomp_size,
                1 <= sec.w_bit_offset() <= 8,
                enc_inv(data@, last_uncomp_off as int, sec.stream()),
            decreases uncomp_size - i,
        {
            // Find the longest match ahead of position `i`, and the nearest
            // qualifying two-, three- and four-byte matches whose distances
            // fit their offset fields.
            let mut j: usize = i + 1;
            let mut longest_off: usize = 0;
            let mut longest_len: usize = 1;
            let mut best_match_2: Option<usize> = None;
            let mut best_match_3: Option<usize> = None;
            let mut best_match_4: Option<usize> = None;
            while j < i + 4096
                invariant
                    i + 1 <= j,
                    i < uncomp_size,
                    uncomp_size == data@.len() < 0x4000_0000,
                    best_match_2 is Some ==> i < best_match_2->0 < i + 256 && best_match_2->0 + 2
                        <= uncomp_size && (forall|t: int|
                        0 <= t < 2 ==> #[trigger] data@[best_match_2->0 + t] == data@[i + t]),
                    best_match_3 is Some ==> i < best_match_3->0 < i + 512 && best_match_3->0 + 3
                        <= uncomp_size && (forall|t: int|
                        0 <= t < 3 ==> #[trigger] data@[best_match_3->0 + t] == data@[i + t]),
                    best_match_4 is Some ==> i < best_match_4->0 < i + 1024 && best_match_4->0 + 4
                        <= uncomp_size && (forall|t: int|
                        0 <= t < 4 ==> #[trigger] data@[best_match_4->0 + t] == data@[i + t]),
                    1 <= longest_len <= 256,
                    longest_len > 1 ==> i < longest_off < i + 4096 && longest_off + longest_len
                        <= uncomp_size && (forall|t: int|
                        0 <= t < longest_len ==> #[trigger] data@[longest_off + t] == data@[i + t]),
                ensures
                    best_match_2 is Some ==> i < best_match_2->0 < i + 256 && best_match_2->0 + 2
                        <= uncomp_size && (forall|t: int|
                        0 <= t < 2 ==> #[trigger] data@[best_match_2->0 + t] == data@[i + t]),
                    best_match_3 is Some ==> i < best_match_3->0 < i + 512 && best_match_3->0 + 3
                        <= uncomp_size && (forall|t: int|
                        0 <= t < 3 ==> #[trigger] data@[best_match_3->0 + t] == data@[i + t]),
                    best_match_4 is Some ==> i < best_match_4->0 < i + 1024 && best_match_4->0 + 4
                        <= uncomp_size && (forall|t: int|
                        0 <= t < 4 ==> #[trigger] data@[best_match_4->0 + t] == data@[i + t]),
                    1 <= longest_len <= 256,
                    longest_len > 1 ==> i < longest_off < i + 4096 && longest_off + longest_len
                        <= uncomp_size && (forall|t: int|
                        0 <= t < longest_len ==> #[trigger] data@[longest_off + t] == data@[i + t]),
                decreases i + 4096 - j,
            {
                if j >= uncomp_size {
                    break;
                }
                let mut match_len: usize = 0;
                loop
                    invariant
                        match_len <= 256,
                        i < j < uncomp_size,
                        uncomp_size == data@.len() < 0x4000_0000,
                        j + match_len <= uncomp_size,
                        forall|t: int| 0 <= t < match_len ==> #[trigger] data@[j + t] == data@[i + t],
                        best_match_2 is Some ==> i < best_match_2->0 < i + 256 && best_match_2->0
                            + 2 <= uncomp_size && (forall|t: int|
                            0 <= t < 2 ==> #[trigger] data@[best_match_2->0 + t] == data@[i + t]),
                        best_match_3 is Some ==> i < best_match_3->0 < i + 512 && best_match_3->0
                            + 3 <= uncomp_size && (forall|t: int|
                            0 <= t < 3 ==> #[trigger] data@[best_match_3->0 + t] == data@[i + t]),
                        best_match_4 is Some ==> i < best_match_4->0 < i + 1024 && best_match_4->0
                            + 4 <= uncomp_size && (forall|t: int|
                            0 <= t < 4 ==> #[trigger] data@[best_match_4->0 + t] == data@[i + t]),
                    decreases 256 - match_len,
                {
                    if match_len >= 256 {
                        break;
                    }
                    if j + match_len >= uncomp_size {
                        break;
                    }
                    if data[j + match_len] != data[i + match_len] {
                        break;
                    }
                    match_len = match_len + 1;
                    if match_len == 2 && j < i + 256 {
                        best_match_2 = Some(j);
                    } else if match_len == 3 && j < i + 512 {
                        best_match_3 = Some(j);
                    } else if match_len == 4 && j < i + 1024 {
                        best_match_4 = Some(j);
                    }
                }
                if match_len >= longest_len {
                    longest_len = match_len;
                    longest_off = j;
                }
                j = j + 1;
            }
            let have_match = longest_len > 4 || best_match_4.is_some() || best_match_3.is_some()
                || best_match_2.is_some();
            if have_match {
                // Flush the pending literal run, then the cheapest form of
                // the match.
                sec.flush_literals(data, last_uncomp_off, i);
                let used_len: usize;
                proof {
                    lemma_shr_zero(1);
                    lemma_shr_zero(4);
                    lemma_shr_zero(5);
                    lemma_shr_zero(6);
                }
                let ghost match_start_stream = sec.stream();
                if longest_len > 4 {
                    let offset = (longest_off - i - 1) as u32;
                    proof {
                        lemma_shr_zero(offset);
                        lemma_shr_zero((longest_len - 1) as u32);
                        lemma_payload_headroom(sec);
                    }
                    sec.add_bits(12, offset);
                    proof {
                        lemma_payload_growth(sec, sec);
                        lemma_payload_headroom(sec);
                    }
                    sec.add_bits(8, (longest_len - 1) as u32);
                    proof {
                        lemma_payload_growth(sec, sec);
                        lemma_payload_headroom(sec);
                    }
                    sec.add_bits(3, 6);
                    used_len = longest_len;
                    proof {
                        assert forall|m2: int| 0 <= m2 < longest_len implies #[trigger] data@[i
                            + m2] == data@[i + m2 + (offset as int) + 1] by {
                            assert(data@[longest_off + m2] == data@[i + m2]);
                        }
                        lemma_enc_match(
                            data@,
                            i as int,
                            match_start_stream,
                            longest_len as int,
                            offset as int,
                            5,
                        );
                        assert(sec.stream() == match_token_bits(
                            match_start_stream,
                            longest_len as int,
                            offset as int,
                            5,
                        ));
                    }
                } else if best_match_4.is_some() {
                    let m = best_match_4.unwrap();
                    let offset = (m - i - 1) as u32;
                    proof {
                        lemma_shr_zero(offset);
                        lemma_payload_headroom(sec);
                    }
                    sec.add_bits(10, offset);
                    proof {
                        lemma_payload_growth(sec, sec);
                        lemma_payload_headroom(sec);
                    }
                    sec.add_bits(3, 5);
                    used_len = 4;
                    proof {
                        assert forall|m2: int| 0 <= m2 < 4 implies #[trigger] data@[i + m2]
                            == data@[i + m2 + (offset as int) + 1] by {
                            assert(data@[(m as int) + m2] == data@[i + m2]);
                        }
                        lemma_enc_match(
                            data@,
                            i as int,
                            match_start_stream,
                            4,
                            offset as int,
                            4,
                        );
                        assert(sec.stream() == match_token_bits(
                            match_start_stream,
                            4,
                            offset as int,
                            4,
                        ));
                    }
                } else if best_match_3.is_some() {
                    let m = best_match_3.unwrap();
                    let offset = (m - i - 1) as u32;
                    proof {
                        lemma_shr_zero(offset);
                        lemma_payload_headroom(sec);
                    }
                    sec.add_bits(9, offset);
                    proof {
                        lemma_payload_growth(sec, sec);
                        lemma_payload_headroom(sec);
                    }
                    sec.add_bits(3, 4);
                    used_len = 3;
                    proof {
                        assert forall|m2: int| 0 <= m2 < 3 implies #[trigger] data@[i + m2]
                            == data@[i + m2 + (offset as int) + 1] by {
                            assert(data@[(m as int) + m2] == data@[i + m2]);
                        }
                        lemma_enc_match(
                            data@,
                            i as int,
                            match_start_stream,
                            3,
                            offset as int,
                            3,
                        );
                        assert(sec.stream() == match_token_bits(
                            match_start_stream,
                            3,
                            offset as int,
                            3,
                        ));
                    }
                } else {
                    let m = best_match_2.unwrap();
                    let offset = (m - i - 1) as u32;
                    proof {
                        lemma_shr_zero(offset);
                        lemma_payload_headroom(sec);
                    }
                    sec.add_bits(8, offset);
                    proof {
                        lemma_payload_growth(sec, sec);
                        lemma_payload_headroom(sec);
                    }
                    sec.add_bits(2, 1);
                    used_len = 2;
                    proof {
                        assert forall|m2: int| 0 <= m2 < 2 implies #[trigger] data@[i + m2]
                            == data@[i + m2 + (offset as int) + 1] by {
                            assert(data@[(m as int) + m2] == data@[i + m2]);
                        }
                        lemma_enc_match(
                            data@,
                            i as int,
                            match_start_stream,
                            2,
                            offset as int,
                            2,
                        );
                        assert(sec.stream() == match_token_bits(
                            match_start_stream,
                            2,
                            offset as int,
                            2,
                        ));
                    }
                }
                i = i + used_len;
                last_uncomp_off = i;
                proof {
                    lemma_payload_growth(sec, sec);
                }
            } else {
                i = i + 1;
            }
        }
        sec.flush_literals(data, last_uncomp_off, i);
        sec.comp_size = sec.comp_data.len() as u32 + 10;
        sec.num_bits_in_first_byte = sec.bit_offset as u8;
        let sum = xor_fold(&sec.comp_data);
        sec.checksum = sum;
        proof {
            let n = data@.len() as int;
            let ss = sec.stream();
            sec.lemma_stream_reversal();
            let sb = start_bits(sec.payload(), sec.payload().len() - 1, sec.stored_first_bits() as int);
            let tail = sb.skip(ss.len() as int);
            assert(sb =~= ss.reverse() + tail);
            let zeros = zero_bytes(n as nat);
            assert(zeros.len() == data@.len());
            assert(forall|j: int| n <= j < data@.len() ==> zeros[j] == data@[j]);
            assert(dat_decode(ss.reverse() + tail, zeros, n - 1) == Some(
                data@.take(n) + zeros.skip(n),
            ));
            assert(data@.take(n) + zeros.skip(n) =~= data@);
        }
        sec
    }
}

/// The writer's payload never runs far ahead of its stream, so there is
/// always room for one more token atom.
proof fn lemma_payload_headroom(s: DatSection)
    requires
        s.writer_wf(),
        8 * s.payload().len() <= s.stream().len() + 16,
        s.stream().len() <= 19 * 0x4000_0000 + 2200,
    ensures
        s.payload().len() + 32 <= 0xF000_0000,
{
}

/// The stream holds nearly eight bits for every payload byte.
proof fn lemma_payload_growth(pre: DatSection, s: DatSection)
    requires
        s.writer_wf(),
    ensures
        8 * s.payload().len() <= s.stream().len() + 16,
{
    lemma_stream_len(s.payload(), s.w_byte_offset() as nat);
    assert(s.stream().len() == full_bytes_bits(s.payload(), s.w_byte_offset() as nat).len()
        + s.partial_bits());
}

/// The full bytes of the writer hold eight bits each but the first, which
/// holds seven.
proof fn lemma_stream_len(data: Seq<u8>, j: nat)
    ensures
        full_bytes_bits(data, j).len() == if j == 0 {
            0
        } else {
            8 * j - 1
        },
    decreases j,
{
    if j > 0 {
        lemma_stream_len(data, (j - 1) as nat);
    }
}

/// Reversing a concatenation concatenates the reversals, swapped.
proof fn lemma_reverse_concat(a: Seq<u8>, b: Seq<u8>)
    ensures
        (a + b).reverse() == b.reverse() + a.reverse(),
{
    assert((a + b).reverse() =~= b.reverse() + a.reverse());
}

/// Reading back, most significant bit first, what the writer laid down
/// least significant bit first restores the value.
proof fn lemma_rev_bits_lsb_val(v: u32, n: nat)
    requires
        n <= 32,
        v < pow2(n),
    ensures
        bits_val(bits_lsb(v, n).reverse()) == v,
    decreases n,
{
    lemma_pow2_values();
    if n == 0 {
        assert(v == 0);
        assert(bits_lsb(v, 0).reverse() =~= Seq::<u8>::empty());
        assert(bits_val(bits_lsb(v, 0).reverse()) == 0);
    } else {
        let s = bits_lsb(v, n).reverse();
        assert(s.last() == bits_lsb(v, n)[0]);
        assert((v >> 0u32) & 1 == v & 1) by (bit_vector);
        assert forall|i: u32| i < 31 implies ((v >> 1) >> i) == (v >> (i + 1)) by {
            assert(i < 31 ==> ((v >> 1) >> i) == (v >> (i + 1))) by (bit_vector);
        }
        assert(s.drop_last() =~= bits_lsb(v >> 1, (n - 1) as nat).reverse());
        assert((v >> 1) < pow2((n - 1) as nat)) by {
            assert(v < pow2(n));
            assert(pow2(n) == 2 * pow2((n - 1) as nat));
            assert((v >> 1) as int == (v as int) / 2) by (bit_vector);
        }
        lemma_rev_bits_lsb_val(v >> 1, (n - 1) as nat);
        assert(bits_val(s.drop_last()) == (v >> 1));
        assert(s.len() == n);
        assert(bits_val(s) == 2 * bits_val(s.drop_last()) + (s.last() as nat));
        assert(s.last() == ((v & 1) as u8));
        assert((v & 1) <= 1) by (bit_vector);
        assert((v as int) == 2 * ((v >> 1) as int) + ((v & 1) as int)) by (bit_vector);
        assert(bits_val(s) == v);
        assert(bits_val(bits_lsb(v, n).reverse()) == v);
    }
}

/// Index into the bits of an emitted literal run: bit `j` belongs to byte
/// `j / 8` of the run, at position `j % 8`.
proof fn lemma_lit_bytes_index(data: Seq<u8>, a: int, l: int, j: int)
    requires
        0 <= j < 8 * l,
    ensures
        lit_bytes_bits(data, a, l).len() == 8 * l,
        lit_bytes_bits(data, a, l)[j] == (((data[a + j / 8] as u32) >> ((j % 8) as u32)) & 1) as u8,
    decreases l,
{
    lemma_lit_bytes_len(data, a, l);
    if j < 8 * (l - 1) {
        lemma_lit_bytes_index(data, a, l - 1, j);
    } else {
        assert(j / 8 == l - 1 && j % 8 == j - 8 * (l - 1)) by (nonlinear_arith)
            requires
                8 * (l - 1) <= j < 8 * l,
        ;
        lemma_lit_bytes_len(data, a, l - 1);
        assert(lit_bytes_bits(data, a, l)[j] == bits_lsb(data[a + l - 1] as u32, 8)[j - 8 * (l
            - 1)]);
    }
}

/// An emitted literal run holds eight bits per byte.
proof fn lemma_lit_bytes_len(data: Seq<u8>, a: int, l: int)
    ensures
        lit_bytes_bits(data, a, l).len() == if l >= 0 {
            8 * l
        } else {
            0
        },
    decreases l,
{
    if l > 0 {
        lemma_lit_bytes_len(data, a, l - 1);
    }
}

/// In the reversed stream, byte `m` of a literal run reads back as the run's
/// byte counted from its end.
proof fn lemma_lit_bytes_rev(data: Seq<u8>, a: int, l: int, m: int)
    requires
        0 <= m < l,
    ensures
        lit_bytes_bits(data, a, l).reverse().subrange(8 * m, 8 * m + 8) == bits_lsb(
            data[a + l - 1 - m] as u32,
            8,
        ).reverse(),
{
    lemma_lit_bytes_len(data, a, l);
    assert forall|q: int| 0 <= q < 8 implies #[trigger] lit_bytes_bits(data, a, l).reverse()
        .subrange(8 * m, 8 * m + 8)[q] == bits_lsb(data[a + l - 1 - m] as u32, 8).reverse()[q] by {
        let j = 8 * l - 1 - (8 * m + q);
        assert(8 * (l - 1 - m) <= j < 8 * (l - 1 - m) + 8) by (nonlinear_arith)
            requires
                0 <= q < 8,
                j == 8 * l - 1 - (8 * m + q),
        ;
        assert(j / 8 == l - 1 - m && j % 8 == 7 - q) by (nonlinear_arith)
            requires
                8 * (l - 1 - m) <= j < 8 * (l - 1 - m) + 8,
                j == 8 * l - 1 - (8 * m + q),
                0 <= q < 8,
        ;
        lemma_lit_bytes_index(data, a, l, j);
    }
    assert(lit_bytes_bits(data, a, l).reverse().subrange(8 * m, 8 * m + 8) =~= bits_lsb(
        data[a + l - 1 - m] as u32,
        8,
    ).reverse());
}

/// The bits a fresh reader sees for a payload whose first (highest) byte
/// carries `num` valid bits.
pub open spec fn start_bits(payload: Seq<u8>, first: int, num: int) -> Seq<u8> {
    byte_read_bits(payload[first], 0, num) + low_bytes_bits(payload, first as nat)
}

/// Below the byte being read, the reader's remaining bits are the writer's
/// full bytes reversed, with one phantom zero position at the very end.
proof fn lemma_low_full(data: Seq<u8>, j: nat)
    requires
        j >= 1,
    ensures
        low_bytes_bits(data, j).len() == 8 * j,
        full_bytes_bits(data, j).len() == 8 * j - 1,
        low_bytes_bits(data, j).take(8 * j - 1) == full_bytes_bits(data, j).reverse(),
    decreases j,
{
    lemma_stream_len(data, j);
    if j == 1 {
        assert(low_bytes_bits(data, 0nat) =~= Seq::<u8>::empty());
        assert(full_bytes_bits(data, 0nat) =~= Seq::<u8>::empty());
        assert(low_bytes_bits(data, 1) =~= byte_read_bits(data[0], 0, 8));
        assert(low_bytes_bits(data, 1).take(7) =~= full_bytes_bits(data, 1).reverse());
    } else {
        lemma_low_full(data, (j - 1) as nat);
        lemma_stream_len(data, (j - 1) as nat);
        assert(low_bytes_bits(data, j) == byte_read_bits(data[j - 1], 0, 8) + low_bytes_bits(
            data,
            (j - 1) as nat,
        ));
        assert(full_bytes_bits(data, j) == full_bytes_bits(data, (j - 1) as nat) + byte_bits_msb(
            data[j - 1],
            8,
        ));
        lemma_reverse_concat(full_bytes_bits(data, (j - 1) as nat), byte_bits_msb(data[j - 1], 8));
        assert(byte_bits_msb(data[j - 1], 8).reverse() =~= byte_read_bits(data[j - 1], 0, 8));
        assert(low_bytes_bits(data, j).take(8 * j - 1) =~= byte_read_bits(data[j - 1], 0, 8)
            + low_bytes_bits(data, (j - 1) as nat).take(8 * (j - 1) - 1));
    }
}

impl DatSection {
    /// What a fresh reader of this just-written section will see: the
    /// written stream, reversed, then padding bits it will never consume.
    pub proof fn lemma_stream_reversal(self)
        requires
            self.writer_wf(),
        ensures
            start_bits(
                self.payload(),
                self.payload().len() - 1,
                self.w_bit_offset(),
            ).take(self.stream().len() as int) == self.stream().reverse(),
            start_bits(self.payload(), self.payload().len() - 1, self.w_bit_offset()).len()
                >= self.stream().len(),
    {
        let p = self.payload();
        let bo = self.w_byte_offset();
        let k = self.partial_bits();
        let sb = start_bits(p, p.len() - 1, self.w_bit_offset());
        lemma_stream_len(p, bo as nat);
        if bo == 0 {
            assert(self.stream() =~= byte_bits_msb(p[0], k));
            assert(sb.take(k as int) =~= self.stream().reverse());
        } else {
            lemma_low_full(p, bo as nat);
            let pm = byte_bits_msb(p[bo], k);
            assert(self.stream() == full_bytes_bits(p, bo as nat) + pm);
            lemma_reverse_concat(full_bytes_bits(p, bo as nat), pm);
            assert(pm.reverse() =~= byte_read_bits(p[bo], 0, k as int));
            assert(sb.take(self.stream().len() as int) =~= byte_read_bits(p[bo], 0, k as int)
                + low_bytes_bits(p, bo as nat).take(8 * bo - 1));
        }
    }
}

/// The encoder's induction hypothesis: the bits emitted so far, read in
/// reverse and followed by anything, decode any suitably pre-filled buffer
/// into the input prefix they cover.
pub open spec fn enc_inv(data: Seq<u8>, c: int, s: Seq<u8>) -> bool {
    forall|out: Seq<u8>, tail: Seq<u8>|
        (out.len() == data.len() && (forall|j: int| c <= j < data.len() ==> out[j] == data[j]))
            ==> #[trigger] dat_decode(s.reverse() + tail, out, c - 1) == Some(
            data.take(c) + out.skip(c),
        )
}

/// Before anything is emitted, the empty stream decodes nothing.
proof fn lemma_enc_inv_base(data: Seq<u8>)
    ensures
        enc_inv(data, 0, Seq::<u8>::empty()),
{
    assert forall|out: Seq<u8>, tail: Seq<u8>|
        (out.len() == data.len() && (forall|j: int| 0 <= j < data.len() ==> out[j] == data[j]))
            implies #[trigger] dat_decode(
        Seq::<u8>::empty().reverse() + tail,
        out,
        -1,
    ) == Some(data.take(0) + out.skip(0)) by {
        assert(dat_decode(Seq::<u8>::empty().reverse() + tail, out, -1) == Some(out));
        assert(data.take(0) + out.skip(0) =~= out);
    }
}

/// The sequential copy fills the covered range with the input's bytes,
/// provided the source range already holds them.
proof fn lemma_copy_back_data(data: Seq<u8>, out: Seq<u8>, c: int, l: int, d: int)
    requires
        out.len() == data.len(),
        0 <= c,
        1 <= l,
        d >= 1,
        c + l - 1 + d < data.len(),
        forall|m: int| 0 <= m < l ==> #[trigger] data[c + m] == data[c + m + d],
        forall|j: int| c + l <= j < data.len() ==> out[j] == data[j],
    ensures
        copy_back(out, c + l - 1, d, l).len() == out.len(),
        forall|p: int|
            0 <= p < out.len() ==> copy_back(out, c + l - 1, d, l)[p] == (if c <= p < c + l {
                data[p]
            } else {
                out[p]
            }),
    decreases l,
{
    lemma_copy_back_len(out, c + l - 1, d, l);
    let i = c + l - 1;
    let out1 = out.update(i, out[i + d]);
    assert(out[i + d] == data[i + d]);
    assert(data[i + d] == data[i]) by {
        assert(data[c + (l - 1)] == data[c + (l - 1) + d]);
    }
    if l == 1 {
        assert(copy_back(out, i, d, 1) == copy_back(out1, i - 1, d, 0));
        assert(copy_back(out1, i - 1, d, 0) == out1);
        assert forall|p: int| 0 <= p < out.len() implies out1[p] == (if c <= p < c + 1 {
            data[p]
        } else {
            out[p]
        }) by {}
    } else {
        assert forall|j: int| c + (l - 1) <= j < data.len() implies out1[j] == data[j] by {}
        lemma_copy_back_data(data, out1, c, l - 1, d);
        assert(copy_back(out, i, d, l) == copy_back(out1, i - 1, d, l - 1));
        let res = copy_back(out1, i - 1, d, l - 1);
        assert forall|p: int| 0 <= p < out.len() implies res[p] == (if c <= p < c + l {
            data[p]
        } else {
            out[p]
        }) by {
            if c <= p < c + l - 1 {
            } else if p == i {
                assert(res[p] == out1[p]);
            } else {
                assert(res[p] == out1[p]);
            }
        }
    }
}

/// The bytes of a literal token in the reversed stream land in the output
/// as the input's bytes over the covered range.
proof fn lemma_write_literal_data(
    data: Seq<u8>,
    c: int,
    l: int,
    pre: Seq<u8>,
    rest: Seq<u8>,
    out: Seq<u8>,
)
    requires
        1 <= l,
        0 <= c,
        c + l <= data.len(),
        out.len() == data.len(),
    ensures
        ({
            let r = pre + lit_bytes_bits(data, c, l).reverse() + rest;
            let out2 = write_literal(r, pre.len() as int, out, c + l - 1, l);
            out2.len() == out.len() && (forall|p: int|
                0 <= p < out.len() ==> out2[p] == (if c <= p < c + l {
                    data[p]
                } else {
                    out[p]
                }))
        }),
{
    let r = pre + lit_bytes_bits(data, c, l).reverse() + rest;
    let base = pre.len() as int;
    let out2 = write_literal(r, base, out, c + l - 1, l);
    lemma_lit_bytes_len(data, c, l);
    assert forall|p: int| 0 <= p < out.len() implies out2[p] == (if c <= p < c + l {
        data[p]
    } else {
        out[p]
    }) by {
        if c <= p < c + l {
            let m = c + l - 1 - p;
            assert(r.subrange(base + 8 * m, base + 8 * m + 8) =~= lit_bytes_bits(data, c, l)
                .reverse().subrange(8 * m, 8 * m + 8));
            lemma_lit_bytes_rev(data, c, l, m);
            lemma_pow2_values();
            lemma_rev_bits_lsb_val(data[c + l - 1 - m] as u32, 8);
            assert(bits_val(r.subrange(base + 8 * m, base + 8 * m + 8)) == data[p]);
        }
    }
}

/// The values of the four two-bit strings.
proof fn lemma_bits_val_pairs()
    ensures
        bits_val(seq![0u8, 0u8]) == 0,
        bits_val(seq![0u8, 1u8]) == 1,
        bits_val(seq![1u8, 0u8]) == 2,
        bits_val(seq![1u8, 1u8]) == 3,
{
    reveal_with_fuel(bits_val, 4);
    assert(seq![0u8, 0u8].drop_last() =~= seq![0u8] && seq![0u8, 1u8].drop_last() =~= seq![0u8]
        && seq![1u8, 0u8].drop_last() =~= seq![1u8] && seq![1u8, 1u8].drop_last() =~= seq![1u8]);
    assert(seq![0u8].drop_last() =~= Seq::<u8>::empty() && seq![1u8].drop_last()
        =~= Seq::<u8>::empty());
}

/// One decoding step over an emitted short-literal token, for a fixed
/// output buffer and stream tail.
#[verifier::rlimit(100)]
proof fn lemma_step_literal(
    data: Seq<u8>,
    c: int,
    s: Seq<u8>,
    l: int,
    long: bool,
    out: Seq<u8>,
    tail: Seq<u8>,
)
    requires
        0 <= c,
        c + l <= data.len(),
        !long ==> 1 <= l <= 8,
        long ==> 9 <= l <= 264,
        out.len() == data.len(),
        forall|j: int| c + l <= j < data.len() ==> out[j] == data[j],
    ensures
        ({
            let hdr = if long {
                bits_lsb((l - 9) as u32, 8) + bits_lsb(7, 3)
            } else {
                bits_lsb((l - 1) as u32, 3) + bits_lsb(0, 2)
            };
            let s2 = s + lit_bytes_bits(data, c, l) + hdr;
            let base: int = if long {
                11
            } else {
                5
            };
            let r = s2.reverse() + tail;
            let out2 = write_literal(r, base, out, c + l - 1, l);
            &&& dat_decode(r, out, c + l - 1) == dat_decode(s.reverse() + tail, out2, c - 1)
            &&& out2.len() == data.len()
            &&& forall|j: int| c <= j < data.len() ==> out2[j] == data[j]
            &&& data.take(c) + out2.skip(c) == data.take(c + l) + out.skip(c + l)
        }),
{
    let hdr: Seq<u8> = if long {
        bits_lsb((l - 9) as u32, 8) + bits_lsb(7, 3)
    } else {
        bits_lsb((l - 1) as u32, 3) + bits_lsb(0, 2)
    };
    let s2 = s + lit_bytes_bits(data, c, l) + hdr;
    let base: int = if long {
        11
    } else {
        5
    };
    lemma_lit_bytes_len(data, c, l);
    lemma_pow2_values();
    lemma_bits_val_pairs();
    let r = s2.reverse() + tail;
    lemma_reverse_concat(s + lit_bytes_bits(data, c, l), hdr);
    lemma_reverse_concat(s, lit_bytes_bits(data, c, l));
    let rest = s.reverse() + tail;
    if long {
        lemma_reverse_concat(bits_lsb((l - 9) as u32, 8), bits_lsb(7, 3));
        let pre = bits_lsb(7, 3).reverse() + bits_lsb((l - 9) as u32, 8).reverse();
        assert(r =~= pre + lit_bytes_bits(data, c, l).reverse() + rest);
        assert((7u32 >> 2) & 1 == 1 && (7u32 >> 1) & 1 == 1 && (7u32 >> 0) & 1 == 1)
            by (bit_vector);
        assert(r[0] == 1 && r[1] == 1 && r[2] == 1);
        assert(r.subrange(1, 3) =~= seq![1u8, 1u8]);
        assert(r.subrange(3, 11) =~= bits_lsb((l - 9) as u32, 8).reverse());
        lemma_rev_bits_lsb_val((l - 9) as u32, 8);
        assert(bits_val(r.subrange(3, 11)) == l - 9);
        lemma_write_literal_data(data, c, l, pre, rest, out);
    } else {
        lemma_reverse_concat(bits_lsb((l - 1) as u32, 3), bits_lsb(0, 2));
        let pre = bits_lsb(0, 2).reverse() + bits_lsb((l - 1) as u32, 3).reverse();
        assert(r =~= pre + lit_bytes_bits(data, c, l).reverse() + rest);
        assert((0u32 >> 1) & 1 == 0 && (0u32 >> 0) & 1 == 0) by (bit_vector);
        assert(r[0] == 0 && r[1] == 0);
        assert(r.subrange(2, 5) =~= bits_lsb((l - 1) as u32, 3).reverse());
        lemma_rev_bits_lsb_val((l - 1) as u32, 3);
        assert(bits_val(r.subrange(2, 5)) == l - 1);
        lemma_write_literal_data(data, c, l, pre, rest, out);
    }
    let out2 = write_literal(r, base, out, c + l - 1, l);
    assert(r.len() >= base + 8 * l);
    assert(dat_decode(r, out, c + l - 1) == dat_decode(r.skip(base + 8 * l), out2, c - 1));
    assert(r.skip(base + 8 * l) =~= rest);
    assert(data.take(c) + out2.skip(c) =~= data.take(c + l) + out.skip(c + l));
}

/// One decoding step over an emitted back-reference token, for a fixed
/// output buffer and stream tail.  `form` is the copied length for the
/// fixed forms and 5 for the long form.
#[verifier::rlimit(100)]
proof fn lemma_step_match(
    data: Seq<u8>,
    c: int,
    s: Seq<u8>,
    l: int,
    o: int,
    form: int,
    out: Seq<u8>,
    tail: Seq<u8>,
)
    requires
        0 <= c,
        c + l <= data.len(),
        0 <= o,
        c + l + o < data.len(),
        forall|m: int| 0 <= m < l ==> #[trigger] data[c + m] == data[c + m + o + 1],
        form == 2 ==> l == 2 && o < 256,
        form == 3 ==> l == 3 && o < 512,
        form == 4 ==> l == 4 && o < 1024,
        form == 5 ==> 1 <= l <= 256 && o < 4096,
        form == 2 || form == 3 || form == 4 || form == 5,
        out.len() == data.len(),
        forall|j: int| c + l <= j < data.len() ==> out[j] == data[j],
    ensures
        ({
            let s2 = match_token_bits(s, l, o, form);
            let r = s2.reverse() + tail;
            let out2 = copy_back(out, c + l - 1, o + 1, l);
            let skip_amt: int = if form == 2 {
                10
            } else if form == 3 {
                12
            } else if form == 4 {
                13
            } else {
                23
            };
            &&& dat_decode(r, out, c + l - 1) == dat_decode(s.reverse() + tail, out2, c - 1)
            &&& out2.len() == data.len()
            &&& forall|j: int| c <= j < data.len() ==> out2[j] == data[j]
            &&& data.take(c) + out2.skip(c) == data.take(c + l) + out.skip(c + l)
        }),
{
    let s2 = match_token_bits(s, l, o, form);
    let r = s2.reverse() + tail;
    let rest = s.reverse() + tail;
    lemma_pow2_values();
    lemma_bits_val_pairs();
    if form == 5 {
        lemma_reverse_concat(
            s + bits_lsb(o as u32, 12) + bits_lsb((l - 1) as u32, 8),
            bits_lsb(6, 3),
        );
        lemma_reverse_concat(s + bits_lsb(o as u32, 12), bits_lsb((l - 1) as u32, 8));
        lemma_reverse_concat(s, bits_lsb(o as u32, 12));
        assert(r =~= bits_lsb(6, 3).reverse() + bits_lsb((l - 1) as u32, 8).reverse() + bits_lsb(
            o as u32,
            12,
        ).reverse() + rest);
        assert((6u32 >> 2) & 1 == 1 && (6u32 >> 1) & 1 == 1 && (6u32 >> 0) & 1 == 0)
            by (bit_vector);
        assert(r[0] == 1 && r[1] == 1 && r[2] == 0);
        assert(r.subrange(1, 3) =~= seq![1u8, 0u8]);
        assert(r.subrange(3, 11) =~= bits_lsb((l - 1) as u32, 8).reverse());
        lemma_rev_bits_lsb_val((l - 1) as u32, 8);
        assert(bits_val(r.subrange(3, 11)) == l - 1);
        assert(r.subrange(11, 23) =~= bits_lsb(o as u32, 12).reverse());
        lemma_rev_bits_lsb_val(o as u32, 12);
        assert(bits_val(r.subrange(11, 23)) == o);
        lemma_copy_back_data(data, out, c, l, o + 1);
        let out2 = copy_back(out, c + l - 1, o + 1, l);
        assert(dat_decode(r, out, c + l - 1) == dat_decode(r.skip(23), out2, c - 1));
        assert(r.skip(23) =~= rest);
        assert(data.take(c) + out2.skip(c) =~= data.take(c + l) + out.skip(c + l));
    } else {
        let ow: nat = if form == 2 {
            8
        } else if form == 3 {
            9
        } else {
            10
        };
        let cw: nat = if form == 2 {
            2
        } else {
            3
        };
        let cv: u32 = if form == 2 {
            1
        } else if form == 3 {
            4
        } else {
            5
        };
        let skip_amt: int = if form == 2 {
            10
        } else if form == 3 {
            12
        } else {
            13
        };
        lemma_reverse_concat(s + bits_lsb(o as u32, ow), bits_lsb(cv, cw));
        lemma_reverse_concat(s, bits_lsb(o as u32, ow));
        assert(r =~= bits_lsb(cv, cw).reverse() + bits_lsb(o as u32, ow).reverse() + rest);
        lemma_rev_bits_lsb_val(o as u32, ow);
        if form == 2 {
            assert((1u32 >> 1) & 1 == 0 && (1u32 >> 0) & 1 == 1) by (bit_vector);
            assert(r[0] == 0 && r[1] == 1);
            assert(r.subrange(2, 10) =~= bits_lsb(o as u32, 8).reverse());
            assert(bits_val(r.subrange(2, 10)) == o);
        } else if form == 3 {
            assert((4u32 >> 2) & 1 == 1 && (4u32 >> 1) & 1 == 0 && (4u32 >> 0) & 1 == 0)
                by (bit_vector);
            assert(r[0] == 1 && r[1] == 0 && r[2] == 0);
            assert(r.subrange(1, 3) =~= seq![0u8, 0u8]);
            assert(r.subrange(3, 12) =~= bits_lsb(o as u32, 9).reverse());
            assert(bits_val(r.subrange(3, 12)) == o);
        } else {
            assert((5u32 >> 2) & 1 == 1 && (5u32 >> 1) & 1 == 0 && (5u32 >> 0) & 1 == 1)
                by (bit_vector);
            assert(r[0] == 1 && r[1] == 0 && r[2] == 1);
            assert(r.subrange(1, 3) =~= seq![0u8, 1u8]);
            assert(r.subrange(3, 13) =~= bits_lsb(o as u32, 10).reverse());
            assert(bits_val(r.subrange(3, 13)) == o);
        }
        lemma_copy_back_data(data, out, c, l, o + 1);
        let out2 = copy_back(out, c + l - 1, o + 1, l);
        assert(dat_decode(r, out, c + l - 1) == dat_decode(r.skip(skip_amt), out2, c - 1));
        assert(r.skip(skip_amt) =~= rest);
        assert(data.take(c) + out2.skip(c) =~= data.take(c + l) + out.skip(c + l));
    }
}

/// The bits appended for one back-reference token of the given form.
pub open spec fn match_token_bits(s: Seq<u8>, l: int, o: int, form: int) -> Seq<u8> {
    if form == 2 {
        s + bits_lsb(o as u32, 8) + bits_lsb(1, 2)
    } else if form == 3 {
        s + bits_lsb(o as u32, 9) + bits_lsb(4, 3)
    } else if form == 4 {
        s + bits_lsb(o as u32, 10) + bits_lsb(5, 3)
    } else {
        s + bits_lsb(o as u32, 12) + bits_lsb((l - 1) as u32, 8) + bits_lsb(6, 3)
    }
}

/// Emitting a literal token extends the encoder's invariant.
proof fn lemma_enc_literal(data: Seq<u8>, c: int, s: Seq<u8>, l: int, long: bool)
    requires
        enc_inv(data, c, s),
        0 <= c,
        c + l <= data.len(),
        !long ==> 1 <= l <= 8,
        long ==> 9 <= l <= 264,
    ensures
        !long ==> enc_inv(
            data,
            c + l,
            s + lit_bytes_bits(data, c, l) + bits_lsb((l - 1) as u32, 3) + bits_lsb(0, 2),
        ),
        long ==> enc_inv(
            data,
            c + l,
            s + lit_bytes_bits(data, c, l) + bits_lsb((l - 9) as u32, 8) + bits_lsb(7, 3),
        ),
{
    let hdr: Seq<u8> = if long {
        bits_lsb((l - 9) as u32, 8) + bits_lsb(7, 3)
    } else {
        bits_lsb((l - 1) as u32, 3) + bits_lsb(0, 2)
    };
    let s2 = s + lit_bytes_bits(data, c, l) + hdr;
    assert forall|out: Seq<u8>, tail: Seq<u8>|
        (out.len() == data.len() && (forall|j: int| c + l <= j < data.len() ==> out[j] == data[j]))
            implies #[trigger] dat_decode(s2.reverse() + tail, out, c + l - 1) == Some(
        data.take(c + l) + out.skip(c + l),
    ) by {
        lemma_step_literal(data, c, s, l, long, out, tail);
        let r = s2.reverse() + tail;
        let base: int = if long {
            11
        } else {
            5
        };
        let out2 = write_literal(r, base, out, c + l - 1, l);
        assert(dat_decode(s.reverse() + tail, out2, c - 1) == Some(data.take(c) + out2.skip(c)));
    }
    if long {
        assert(s + lit_bytes_bits(data, c, l) + bits_lsb((l - 9) as u32, 8) + bits_lsb(7, 3)
            =~= s2);
    } else {
        assert(s + lit_bytes_bits(data, c, l) + bits_lsb((l - 1) as u32, 3) + bits_lsb(0, 2)
            =~= s2);
    }
}

/// Emitting a back-reference token extends the encoder's invariant.
proof fn lemma_enc_match(data: Seq<u8>, c: int, s: Seq<u8>, l: int, o: int, form: int)
    requires
        enc_inv(data, c, s),
        0 <= c,
        c + l <= data.len(),
        0 <= o,
        c + l + o < data.len(),
        forall|m: int| 0 <= m < l ==> #[trigger] data[c + m] == data[c + m + o + 1],
        form == 2 ==> l == 2 && o < 256,
        form == 3 ==> l == 3 && o < 512,
        form == 4 ==> l == 4 && o < 1024,
        form == 5 ==> 1 <= l <= 256 && o < 4096,
        form == 2 || form == 3 || form == 4 || form == 5,
    ensures
        enc_inv(data, c + l, match_token_bits(s, l, o, form)),
{
    let s2 = match_token_bits(s, l, o, form);
    assert forall|out: Seq<u8>, tail: Seq<u8>|
        (out.len() == data.len() && (forall|j: int| c + l <= j < data.len() ==> out[j] == data[j]))
            implies #[trigger] dat_decode(s2.reverse() + tail, out, c + l - 1) == Some(
        data.take(c + l) + out.skip(c + l),
    ) by {
        lemma_step_match(data, c, s, l, o, form, out, tail);
        let out2 = copy_back(out, c + l - 1, o + 1, l);
        assert(dat_decode(s.reverse() + tail, out2, c - 1) == Some(data.take(c) + out2.skip(c)));
    }
}

/// A one-bit string's value is its bit.
proof fn lemma_bits_val_single(s: Seq<u8>)
    requires
        s.len() == 1,
    ensures
        bits_val(s) == s[0],
{
    assert(s.drop_last() =~= Seq::<u8>::empty());
    assert(bits_val(s.drop_last()) == 0);
}

/// The value of a run of bits is below two to its length.
proof fn lemma_bits_val_piece(rem: Seq<u8>, a: int, b: int)
    requires
        0 <= a <= b <= rem.len(),
        forall|j: int| 0 <= j < rem.len() ==> rem[j] <= 1,
    ensures
        bits_val(rem.subrange(a, b)) < pow2((b - a) as nat),
{
    assert forall|j: int| 0 <= j < b - a implies rem.subrange(a, b)[j] <= 1 by {
        assert(rem.subrange(a, b)[j] == rem[a + j]);
    }
    lemma_bits_val_bound(rem.subrange(a, b));
}

/// Every element of the reader's remaining bit string is a single bit.
proof fn lemma_remaining_bits_are_bits(s: DatSection, i: int)
    requires
        0 <= i < s.remaining_bits().len(),
    ensures
        s.remaining_bits()[i] <= 1,
{
    let rem = s.remaining_bits();
    let head = byte_read_bits(s.payload()[s.r_byte()], s.r_bit(), s.bits_in(s.r_byte()));
    if i < head.len() {
        let b = s.payload()[s.r_byte()];
        let sh = (s.r_bit() + i) as u8;
        assert((b >> sh) & 1 <= 1) by (bit_vector);
    } else {
        lemma_low_bytes_bits_are_bits(s.payload(), s.r_byte() as nat, i - head.len());
    }
}

/// Every element of the low bytes' bit string is a single bit.
proof fn lemma_low_bytes_bits_are_bits(data: Seq<u8>, j: nat, i: int)
    requires
        0 <= i < low_bytes_bits(data, j).len(),
    ensures
        low_bytes_bits(data, j)[i] <= 1,
    decreases j,
{
    if j > 0 {
        if i < 8 {
            let b = data[j - 1];
            let sh = i as u8;
            assert((b >> sh) & 1 <= 1) by (bit_vector);
        } else {
            lemma_low_bytes_bits_are_bits(data, (j - 1) as nat, i - 8);
        }
    }
}

} // verus!
