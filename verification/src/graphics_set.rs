//! The fixed-layout metadata records of a graphics set: 16 object headers,
//! 64 terrain headers and a 96-byte palette block, all little-endian on disk,
//! plus the script-driven assembly and disassembly of a whole set.
#![allow(unused_imports)]
use vstd::prelude::*;

use crate::LemError;
use vstd::string::StringSliceAdditionalSpecFns;

use crate::parser::{
    Lexer, TokView, Token, at_position, lemma_advanced_input, lemma_at_position_peek,
    lemma_next_token_advances, peek_view, remaining_input, spec_next_token, str_eq,
};
use crate::planar_bmp::PlanarBMP;
use crate::binary_io::{
    read_bytes,
    ByteReader, le16_bytes, u16_from, read_byte, read_le16, write_byte, write_le16,
};

verus! {

/// Metadata of one interactive-object slot (28 bytes on disk).
///
/// `preview_frame_number` is not stored on disk: reading derives it from
/// `preview_frame_offset`, `animation_offset` and `animation_frame_data_size`.
#[derive(Clone, Copy, PartialEq, Eq, Structural, Debug)]
pub struct ObjectHeader {
    pub animation_flags: u16,
    pub frame_start: u8,
    pub frame_end: u8,
    pub width: u8,
    pub height: u8,
    pub animation_frame_data_size: u16,
    pub mask_offset: u16,
    pub _unknown0: u16,
    pub _unknown1: u16,
    pub trigger_x: u16,
    pub trigger_y: u16,
    pub trigger_w: u8,
    pub trigger_h: u8,
    pub trigger_effect_id: u8,
    pub animation_offset: u16,
    pub preview_frame_offset: u16,
    pub preview_frame_number: u8,
    pub _unknown2: u16,
    pub trap_sound: u8,
}

/// The frame number encoded by a preview-frame offset, or 0 where the frame
/// data size is zero or the offset lies before the animation start.
pub open spec fn derived_preview_frame(fds: u16, anim_off: u16, prev_off: u16) -> u8 {
    if fds != 0 && prev_off >= anim_off {
        (((prev_off - anim_off) / (fds as int)) % 256) as u8
    } else {
        0
    }
}

/// The 28-byte on-disk form of an object header.
pub open spec fn object_header_bytes(h: ObjectHeader) -> Seq<u8> {
    le16_bytes(h.animation_flags) + seq![h.frame_start, h.frame_end, h.width, h.height]
        + le16_bytes(h.animation_frame_data_size) + le16_bytes(h.mask_offset) + le16_bytes(
        h._unknown0,
    ) + le16_bytes(h._unknown1) + le16_bytes(h.trigger_x) + le16_bytes(h.trigger_y) + seq![
        h.trigger_w,
        h.trigger_h,
        h.trigger_effect_id,
    ] + le16_bytes(h.animation_offset) + le16_bytes(h.preview_frame_offset) + le16_bytes(
        h._unknown2,
    ) + seq![h.trap_sound]
}

/// The object header encoded at `pos` in `b` (meaningful when 28 bytes fit).
pub open spec fn parse_object_header(b: Seq<u8>, pos: int) -> ObjectHeader {
    ObjectHeader {
        animation_flags: u16_from(b[pos], b[pos + 1]),
        frame_start: b[pos + 2],
        frame_end: b[pos + 3],
        width: b[pos + 4],
        height: b[pos + 5],
        animation_frame_data_size: u16_from(b[pos + 6], b[pos + 7]),
        mask_offset: u16_from(b[pos + 8], b[pos + 9]),
        _unknown0: u16_from(b[pos + 10], b[pos + 11]),
        _unknown1: u16_from(b[pos + 12], b[pos + 13]),
        trigger_x: u16_from(b[pos + 14], b[pos + 15]),
        trigger_y: u16_from(b[pos + 16], b[pos + 17]),
        trigger_w: b[pos + 18],
        trigger_h: b[pos + 19],
        trigger_effect_id: b[pos + 20],
        animation_offset: u16_from(b[pos + 21], b[pos + 22]),
        preview_frame_offset: u16_from(b[pos + 23], b[pos + 24]),
        preview_frame_number: derived_preview_frame(
            u16_from(b[pos + 6], b[pos + 7]),
            u16_from(b[pos + 21], b[pos + 22]),
            u16_from(b[pos + 23], b[pos + 24]),
        ),
        _unknown2: u16_from(b[pos + 25], b[pos + 26]),
        trap_sound: b[pos + 27],
    }
}

impl Default for ObjectHeader {
    /// The all-zero record that pads unused object slots.
    fn default() -> (r: ObjectHeader)
        ensures
            r == zero_object_header(),
    {
        ObjectHeader {
            animation_flags: 0,
            frame_start: 0,
            frame_end: 0,
            width: 0,
            height: 0,
            animation_frame_data_size: 0,
            mask_offset: 0,
            _unknown0: 0,
            _unknown1: 0,
            trigger_x: 0,
            trigger_y: 0,
            trigger_w: 0,
            trigger_h: 0,
            trigger_effect_id: 0,
            animation_offset: 0,
            preview_frame_offset: 0,
            preview_frame_number: 0,
            _unknown2: 0,
            trap_sound: 0,
        }
    }
}

/// The record whose every field is zero.
pub open spec fn zero_object_header() -> ObjectHeader {
    ObjectHeader {
        animation_flags: 0,
        frame_start: 0,
        frame_end: 0,
        width: 0,
        height: 0,
        animation_frame_data_size: 0,
        mask_offset: 0,
        _unknown0: 0,
        _unknown1: 0,
        trigger_x: 0,
        trigger_y: 0,
        trigger_w: 0,
        trigger_h: 0,
        trigger_effect_id: 0,
        animation_offset: 0,
        preview_frame_offset: 0,
        preview_frame_number: 0,
        _unknown2: 0,
        trap_sound: 0,
    }
}

impl ObjectHeader {
    /// Read a 28-byte object header; fails only on a short buffer.
    pub fn read(reader: &mut ByteReader) -> (r: Result<ObjectHeader, LemError>)
        requires
            old(reader).wf(),
        ensures
            final(reader).wf(),
            final(reader).bytes() == old(reader).bytes(),
            old(reader).position() + 28 <= old(reader).bytes().len() ==> {
                &&& r == Ok::<ObjectHeader, LemError>(
                    parse_object_header(old(reader).bytes(), old(reader).position()),
                )
                &&& final(reader).position() == old(reader).position() + 28
            },
            old(reader).position() + 28 > old(reader).bytes().len() ==> r
                == Err::<ObjectHeader, LemError>(LemError::UnexpectedEof),
    {
        if reader.remaining_len() < 28 {
            return Err(LemError::UnexpectedEof);
        }
        let animation_flags = read_le16(reader).unwrap();
        let frame_start = read_byte(reader).unwrap();
        let frame_end = read_byte(reader).unwrap();
        let width = read_byte(reader).unwrap();
        let height = read_byte(reader).unwrap();
        let animation_frame_data_size = read_le16(reader).unwrap();
        let mask_offset = read_le16(reader).unwrap();
        let _unknown0 = read_le16(reader).unwrap();
        let _unknown1 = read_le16(reader).unwrap();
        let trigger_x = read_le16(reader).unwrap();
        let trigger_y = read_le16(reader).unwrap();
        let trigger_w = read_byte(reader).unwrap();
        let trigger_h = read_byte(reader).unwrap();
        let trigger_effect_id = read_byte(reader).unwrap();
        let animation_offset = read_le16(reader).unwrap();
        let preview_frame_offset = read_le16(reader).unwrap();
        let _unknown2 = read_le16(reader).unwrap();
        let trap_sound = read_byte(reader).unwrap();
        let preview_frame_number: u8 = if animation_frame_data_size != 0 && preview_frame_offset
            >= animation_offset {
            (((preview_frame_offset - animation_offset) / animation_frame_data_size) % 256) as u8
        } else {
            0
        };
        Ok(
            ObjectHeader {
                animation_flags,
                frame_start,
                frame_end,
                width,
                height,
                animation_frame_data_size,
                mask_offset,
                _unknown0,
                _unknown1,
                trigger_x,
                trigger_y,
                trigger_w,
                trigger_h,
                trigger_effect_id,
                animation_offset,
                preview_frame_offset,
                preview_frame_number,
                _unknown2,
                trap_sound,
            },
        )
    }

    /// Append the 28-byte on-disk form.
    pub fn write(&self, writer: &mut Vec<u8>)
        ensures
            final(writer)@ == old(writer)@ + object_header_bytes(*self),
    {
        write_le16(self.animation_flags, writer);
        write_byte(self.frame_start, writer);
        write_byte(self.frame_end, writer);
        write_byte(self.width, writer);
        write_byte(self.height, writer);
        write_le16(self.animation_frame_data_size, writer);
        write_le16(self.mask_offset, writer);
        write_le16(self._unknown0, writer);
        write_le16(self._unknown1, writer);
        write_le16(self.trigger_x, writer);
        write_le16(self.trigger_y, writer);
        write_byte(self.trigger_w, writer);
        write_byte(self.trigger_h, writer);
        write_byte(self.trigger_effect_id, writer);
        write_le16(self.animation_offset, writer);
        write_le16(self.preview_frame_offset, writer);
        write_le16(self._unknown2, writer);
        write_byte(self.trap_sound, writer);
        assert(writer@ =~= old(writer)@ + object_header_bytes(*self));
    }
}

/// Reading back a written object header restores every field, provided the
/// derived preview-frame number was consistent with its offsets to begin with.
pub proof fn lemma_object_header_round_trip(h: ObjectHeader)
    requires
        h.preview_frame_number == derived_preview_frame(
            h.animation_frame_data_size,
            h.animation_offset,
            h.preview_frame_offset,
        ),
    ensures
        parse_object_header(object_header_bytes(h), 0) == h,
{
    let b = object_header_bytes(h);
    assert(b[0] == (h.animation_flags % 256) as u8 && b[1] == (h.animation_flags / 256) as u8);
    assert(b[6] == (h.animation_frame_data_size % 256) as u8 && b[7] == (
    h.animation_frame_data_size / 256) as u8);
    assert(b[8] == (h.mask_offset % 256) as u8 && b[9] == (h.mask_offset / 256) as u8);
    assert(b[10] == (h._unknown0 % 256) as u8 && b[11] == (h._unknown0 / 256) as u8);
    assert(b[12] == (h._unknown1 % 256) as u8 && b[13] == (h._unknown1 / 256) as u8);
    assert(b[14] == (h.trigger_x % 256) as u8 && b[15] == (h.trigger_x / 256) as u8);
    assert(b[16] == (h.trigger_y % 256) as u8 && b[17] == (h.trigger_y / 256) as u8);
    assert(b[21] == (h.animation_offset % 256) as u8 && b[22] == (h.animation_offset / 256) as u8);
    assert(b[23] == (h.preview_frame_offset % 256) as u8 && b[24] == (h.preview_frame_offset / 256)
        as u8);
    assert(b[25] == (h._unknown2 % 256) as u8 && b[26] == (h._unknown2 / 256) as u8);
}

/// An i64 value truncated to 16 bits, as a script value lands in a `u16`
/// field.
pub open spec fn trunc16(v: i64) -> u16 {
    ((((v as int) % 0x10000) + 0x10000) % 0x10000) as u16
}

/// An i64 value truncated to 8 bits.
pub open spec fn trunc8(v: i64) -> u8 {
    ((((v as int) % 0x100) + 0x100) % 0x100) as u8
}

/// A comma-separated run of `count` integer literals starting at `pos`:
/// their values and the position after the last.
pub open spec fn spec_nums(s: Seq<char>, pos: int, count: nat) -> Option<(Seq<i64>, int)>
    decreases count,
{
    match spec_next_token(s, pos) {
        Some((TokView::Num(v), p1)) => {
            if count <= 1 {
                Some((seq![v], p1))
            } else {
                match spec_next_token(s, p1) {
                    Some((TokView::Symbol(c), p2)) => {
                        if c == ',' {
                            match spec_nums(s, p2, (count - 1) as nat) {
                                Some((vs, p3)) => Some((seq![v] + vs, p3)),
                                None => None,
                            }
                        } else {
                            None
                        }
                    },
                    _ => None,
                }
            }
        },
        _ => None,
    }
}

/// A parenthesised tuple of `count` integer literals: `( a , b , ... )`.
pub open spec fn spec_paren_nums(s: Seq<char>, pos: int, count: nat) -> Option<(Seq<i64>, int)> {
    match spec_next_token(s, pos) {
        Some((TokView::Symbol(c), p1)) => {
            if c == '(' {
                match spec_nums(s, p1, count) {
                    Some((vs, p2)) => match spec_next_token(s, p2) {
                        Some((TokView::Symbol(c2), p3)) => {
                            if c2 == ')' {
                                Some((vs, p3))
                            } else {
                                None
                            }
                        },
                        _ => None,
                    },
                    None => None,
                }
            } else {
                None
            }
        },
        _ => None,
    }
}

/// Parsing a run of integer literals moves strictly forward.
pub proof fn lemma_nums_advances(s: Seq<char>, pos: int, count: nat)
    requires
        0 <= pos <= s.len(),
        spec_nums(s, pos, count) is Some,
    ensures
        pos < spec_nums(s, pos, count)->Some_0.1 <= s.len(),
    decreases count,
{
    lemma_next_token_advances(s, pos);
    let (tv, p1) = spec_next_token(s, pos)->Some_0;
    if count > 1 {
        lemma_next_token_advances(s, p1);
        let (tv2, p2) = spec_next_token(s, p1)->Some_0;
        lemma_nums_advances(s, p2, (count - 1) as nat);
    }
}

/// Parsing a parenthesised tuple moves strictly forward.
pub proof fn lemma_paren_nums_advances(s: Seq<char>, pos: int, count: nat)
    requires
        0 <= pos <= s.len(),
        spec_paren_nums(s, pos, count) is Some,
    ensures
        pos < spec_paren_nums(s, pos, count)->Some_0.1 <= s.len(),
{
    lemma_next_token_advances(s, pos);
    let (tv, p1) = spec_next_token(s, pos)->Some_0;
    lemma_nums_advances(s, p1, count);
    let (vs, p2) = spec_nums(s, p1, count)->Some_0;
    lemma_next_token_advances(s, p2);
}

/// One `key = value` entry applied to an object header under construction,
/// or the block's closing brace, starting at `pos`; `None` on any token the
/// grammar refuses.  Fuel bounds the recursion; one unit per entry is spent,
/// and every entry consumes input, so any fuel past the remaining length
/// acts the same.
pub open spec fn spec_object_entries(
    s: Seq<char>,
    pos: int,
    acc: ObjectHeader,
    fuel: nat,
) -> Option<(ObjectHeader, int)>
    decreases fuel,
{
    if fuel == 0 {
        None
    } else {
        match spec_next_token(s, pos) {
            None => None,
            Some((TokView::Symbol(c), p1)) => {
                if c == '}' {
                    Some((acc, p1))
                } else {
                    None
                }
            },
            Some((TokView::Ident(name), p1)) => match spec_next_token(s, p1) {
                Some((TokView::Symbol(eq), p2)) => {
                    if eq != '=' {
                        None
                    } else if name == "animation_flags"@ {
                        match spec_next_token(s, p2) {
                            Some((TokView::Num(v), p3)) => spec_object_entries(
                                s,
                                p3,
                                ObjectHeader { animation_flags: trunc16(v), ..acc },
                                (fuel - 1) as nat,
                            ),
                            _ => None,
                        }
                    } else if name == "frames"@ {
                        match spec_paren_nums(s, p2, 2) {
                            Some((vs, p3)) => spec_object_entries(
                                s,
                                p3,
                                ObjectHeader {
                                    frame_start: trunc8(vs[0]),
                                    frame_end: trunc8(vs[1]),
                                    ..acc
                                },
                                (fuel - 1) as nat,
                            ),
                            None => None,
                        }
                    } else if name == "trigger"@ {
                        match spec_paren_nums(s, p2, 4) {
                            Some((vs, p3)) => spec_object_entries(
                                s,
                                p3,
                                ObjectHeader {
                                    trigger_x: trunc16(vs[0]),
                                    trigger_y: trunc16(vs[1]),
                                    trigger_w: trunc8(vs[2]),
                                    trigger_h: trunc8(vs[3]),
                                    ..acc
                                },
                                (fuel - 1) as nat,
                            ),
                            None => None,
                        }
                    } else if name == "trigger_effect"@ {
                        match spec_next_token(s, p2) {
                            Some((TokView::Num(v), p3)) => spec_object_entries(
                                s,
                                p3,
                                ObjectHeader { trigger_effect_id: trunc8(v), ..acc },
                                (fuel - 1) as nat,
                            ),
                            _ => None,
                        }
                    } else if name == "preview_frame"@ {
                        match spec_next_token(s, p2) {
                            Some((TokView::Num(v), p3)) => spec_object_entries(
                                s,
                                p3,
                                ObjectHeader { preview_frame_number: trunc8(v), ..acc },
                                (fuel - 1) as nat,
                            ),
                            _ => None,
                        }
                    } else if name == "trap_sound"@ {
                        match spec_next_token(s, p2) {
                            Some((TokView::Num(v), p3)) => spec_object_entries(
                                s,
                                p3,
                                ObjectHeader { trap_sound: trunc8(v), ..acc },
                                (fuel - 1) as nat,
                            ),
                            _ => None,
                        }
                    } else {
                        None
                    }
                },
                _ => None,
            },
            Some(_) => None,
        }
    }
}

/// Past the remaining input's length, the fuel given to the entry parser
/// does not matter: every entry consumes at least one character.
pub proof fn lemma_object_entries_fuel(s: Seq<char>, pos: int, acc: ObjectHeader, f1: nat, f2: nat)
    requires
        0 <= pos <= s.len(),
        f1 >= s.len() - pos + 1,
        f2 >= s.len() - pos + 1,
    ensures
        spec_object_entries(s, pos, acc, f1) == spec_object_entries(s, pos, acc, f2),
    decreases f1 + f2,
{
    match spec_next_token(s, pos) {
        None => {},
        Some((tv, p1)) => {
            lemma_next_token_advances(s, pos);
            match tv {
                TokView::Ident(name) => {
                    match spec_next_token(s, p1) {
                        Some((TokView::Symbol(eq), p2)) => {
                            lemma_next_token_advances(s, p1);
                            if eq != '=' {
                            } else if name == "animation_flags"@ {
                                match spec_next_token(s, p2) {
                                    Some((TokView::Num(v), p3)) => {
                                        lemma_next_token_advances(s, p2);
                                        lemma_object_entries_fuel(
                                            s,
                                            p3,
                                            ObjectHeader { animation_flags: trunc16(v), ..acc },
                                            (f1 - 1) as nat,
                                            (f2 - 1) as nat,
                                        );
                                    },
                                    _ => {},
                                }
                            } else if name == "frames"@ {
                                if spec_paren_nums(s, p2, 2) is Some {
                                    let (vs, p3) = spec_paren_nums(s, p2, 2)->Some_0;
                                    lemma_paren_nums_advances(s, p2, 2);
                                    lemma_object_entries_fuel(
                                        s,
                                        p3,
                                        ObjectHeader {
                                            frame_start: trunc8(vs[0]),
                                            frame_end: trunc8(vs[1]),
                                            ..acc
                                        },
                                        (f1 - 1) as nat,
                                        (f2 - 1) as nat,
                                    );
                                }
                            } else if name == "trigger"@ {
                                if spec_paren_nums(s, p2, 4) is Some {
                                    let (vs, p3) = spec_paren_nums(s, p2, 4)->Some_0;
                                    lemma_paren_nums_advances(s, p2, 4);
                                    lemma_object_entries_fuel(
                                        s,
                                        p3,
                                        ObjectHeader {
                                            trigger_x: trunc16(vs[0]),
                                            trigger_y: trunc16(vs[1]),
                                            trigger_w: trunc8(vs[2]),
                                            trigger_h: trunc8(vs[3]),
                                            ..acc
                                        },
                                        (f1 - 1) as nat,
                                        (f2 - 1) as nat,
                                    );
                                }
                            } else if name == "trigger_effect"@ {
                                match spec_next_token(s, p2) {
                                    Some((TokView::Num(v), p3)) => {
                                        lemma_next_token_advances(s, p2);
                                        lemma_object_entries_fuel(
                                            s,
                                            p3,
                                            ObjectHeader { trigger_effect_id: trunc8(v), ..acc },
                                            (f1 - 1) as nat,
                                            (f2 - 1) as nat,
                                        );
                                    },
                                    _ => {},
                                }
                            } else if name == "preview_frame"@ {
                                match spec_next_token(s, p2) {
                                    Some((TokView::Num(v), p3)) => {
                                        lemma_next_token_advances(s, p2);
                                        lemma_object_entries_fuel(
                                            s,
                                            p3,
                                            ObjectHeader { preview_frame_number: trunc8(v), ..acc },
                                            (f1 - 1) as nat,
                                            (f2 - 1) as nat,
                                        );
                                    },
                                    _ => {},
                                }
                            } else if name == "trap_sound"@ {
                                match spec_next_token(s, p2) {
                                    Some((TokView::Num(v), p3)) => {
                                        lemma_next_token_advances(s, p2);
                                        lemma_object_entries_fuel(
                                            s,
                                            p3,
                                            ObjectHeader { trap_sound: trunc8(v), ..acc },
                                            (f1 - 1) as nat,
                                            (f2 - 1) as nat,
                                        );
                                    },
                                    _ => {},
                                }
                            }
                        },
                        _ => {},
                    }
                },
                _ => {},
            }
        },
    }
}

/// A whole object specification block: `{ key = value ... }` applied to the
/// all-zero header.
pub open spec fn spec_object_block(s: Seq<char>, pos: int) -> Option<(ObjectHeader, int)> {
    match spec_next_token(s, pos) {
        Some((TokView::Symbol(c), p1)) => {
            if c == '{' {
                spec_object_entries(s, p1, zero_object_header(), (s.len() + 1) as nat)
            } else {
                None
            }
        },
        _ => None,
    }
}

impl ObjectHeader {
    /// Parse an object specification block from the script: `{ key = value,
    /// ... }` over the keys `animation_flags`, `frames`, `trigger`,
    /// `trigger_effect`, `preview_frame` and `trap_sound`.  Unlisted fields
    /// stay zero.
    ///
    /// Succeeds exactly when the upcoming tokens form such a block, and
    /// then returns the header the block describes and stands right after
    /// its closing brace.
    pub fn parse(lex: &mut Lexer<'_>) -> (r: Result<ObjectHeader, LemError>)
        requires
            old(lex).wf(),
            old(lex).buffered() is None,
        ensures
            final(lex).wf(),
            final(lex).src() == old(lex).src(),
            r is Ok <==> spec_object_block(old(lex).src(), old(lex).pos()) is Some,
            r is Ok ==> ({
                let (h, p) = spec_object_block(old(lex).src(), old(lex).pos())->Some_0;
                &&& r->Ok_0 == h
                &&& final(lex).pos() == p
                &&& final(lex).buffered() is None
            }),
    {
        let ghost s = old(lex).src();
        let ghost p_start = old(lex).pos();
        let mut res = ObjectHeader::default();
        let ghost s_open = *lex;
        let r_open = lex.expect_symbol('{');
        proof {
            lemma_advanced_input(s_open, *lex);
        }
        if r_open.is_err() {
            return Err(LemError::UnexpectedToken);
        }
        proof {
            lemma_next_token_advances(s, p_start);
            lemma_object_entries_fuel(
                s,
                lex.pos(),
                zero_object_header(),
                (s.len() + 1) as nat,
                (s.len() + 1 - lex.pos()) as nat,
            );
        }
        loop
            invariant_except_break
                spec_object_block(s, p_start) == spec_object_entries(
                    s,
                    lex.pos(),
                    res,
                    (s.len() + 1 - lex.pos()) as nat,
                ),
            invariant
                lex.wf(),
                lex.src() == s,
                lex.buffered() is None,
                s == old(lex).src(),
                p_start == old(lex).pos(),
            ensures
                lex.wf(),
                lex.src() == s,
                lex.buffered() is None,
                spec_object_block(s, p_start) == Some((res, lex.pos() as int)),
            decreases remaining_input(*lex),
        {
            let ghost entry = *lex;
            let ghost fuel_here = (s.len() + 1 - entry.pos()) as nat;
            let tok = lex.next_token();
            proof {
                if spec_next_token(s, entry.pos()) is Some {
                    lemma_next_token_advances(s, entry.pos());
                }
            }
            match tok {
                None => {
                    return Err(LemError::UnexpectedEnd);
                },
                Some(Token::Symbol(c)) => {
                    if c == '}' {
                        proof {
                            assert(spec_object_block(s, p_start) == Some((res, lex.pos() as int)));
                        }
                        break;
                    }
                    return Err(LemError::UnexpectedToken);
                },
                Some(Token::Ident(var)) => {
                    let ghost before_eq = *lex;
                    let r_eq = lex.expect_symbol('=');
                    proof {
                        lemma_advanced_input(before_eq, *lex);
                        if peek_view(before_eq) is Some {
                            lemma_next_token_advances(s, before_eq.pos());
                        }
                    }
                    if r_eq.is_err() {
                        return Err(LemError::UnexpectedToken);
                    }
                    let ghost after_eq = *lex;
                    if str_eq(var, "animation_flags") {
                        let ghost b = *lex;
                        let v = match lex.get_int_literal() {
                            Ok(v) => v,
                            Err(e) => {
                                return Err(e);
                            },
                        };
                        proof {
                            lemma_advanced_input(b, *lex);
                            lemma_next_token_advances(s, b.pos());
                        }
                        res.animation_flags = trunc16_exec(v);
                    } else if str_eq(var, "frames") {
                        let r = Self::parse_pair(lex);
                        match r {
                            Ok(ab) => {
                                proof {
                                    lemma_paren_nums_advances(s, after_eq.pos(), 2);
                                }
                                res.frame_start = ab.0;
                                res.frame_end = ab.1;
                            },
                            Err(e) => {
                                return Err(e);
                            },
                        }
                    } else if str_eq(var, "trigger") {
                        let r = Self::parse_quad(lex);
                        match r {
                            Ok(q) => {
                                proof {
                                    lemma_paren_nums_advances(s, after_eq.pos(), 4);
                                }
                                res.trigger_x = q.0;
                                res.trigger_y = q.1;
                                res.trigger_w = q.2;
                                res.trigger_h = q.3;
                            },
                            Err(e) => {
                                return Err(e);
                            },
                        }
                    } else if str_eq(var, "trigger_effect") {
                        let ghost b = *lex;
                        let v = match lex.get_int_literal() {
                            Ok(v) => v,
                            Err(e) => {
                                return Err(e);
                            },
                        };
                        proof {
                            lemma_advanced_input(b, *lex);
                            lemma_next_token_advances(s, b.pos());
                        }
                        res.trigger_effect_id = trunc8_exec(v);
                    } else if str_eq(var, "preview_frame") {
                        let ghost b = *lex;
                        let v = match lex.get_int_literal() {
                            Ok(v) => v,
                            Err(e) => {
                                return Err(e);
                            },
                        };
                        proof {
                            lemma_advanced_input(b, *lex);
                            lemma_next_token_advances(s, b.pos());
                        }
                        res.preview_frame_number = trunc8_exec(v);
                    } else if str_eq(var, "trap_sound") {
                        let ghost b = *lex;
                        let v = match lex.get_int_literal() {
                            Ok(v) => v,
                            Err(e) => {
                                return Err(e);
                            },
                        };
                        proof {
                            lemma_advanced_input(b, *lex);
                            lemma_next_token_advances(s, b.pos());
                        }
                        res.trap_sound = trunc8_exec(v);
                    } else {
                        return Err(LemError::UnknownProperty);
                    }
                    proof {
                        lemma_object_entries_fuel(
                            s,
                            lex.pos(),
                            res,
                            (fuel_here - 1) as nat,
                            (s.len() + 1 - lex.pos()) as nat,
                        );
                    }
                },
                Some(_) => {
                    return Err(LemError::UnexpectedToken);
                },
            }
        }
        Ok(res)
    }

    /// Parse `( a , b )`, truncating each value to a byte.
    ///
    /// Succeeds exactly when the upcoming tokens form a parenthesised pair
    /// of integer literals, and then returns their low bytes and stands
    /// right after the closing parenthesis.
    fn parse_pair(lex: &mut Lexer<'_>) -> (r: Result<(u8, u8), LemError>)
        requires
            old(lex).wf(),
            old(lex).buffered() is None,
        ensures
            final(lex).wf(),
            final(lex).src() == old(lex).src(),
            final(lex).buffered() is None,
            remaining_input(*final(lex)) <= remaining_input(*old(lex)),
            r is Ok <==> spec_paren_nums(old(lex).src(), old(lex).pos(), 2) is Some,
            r is Ok ==> ({
                let (vs, p3) = spec_paren_nums(old(lex).src(), old(lex).pos(), 2)->Some_0;
                &&& r->Ok_0.0 == trunc8(vs[0])
                &&& r->Ok_0.1 == trunc8(vs[1])
                &&& final(lex).pos() == p3
            }),
    {
        let ghost s = old(lex).src();
        let ghost p0 = old(lex).pos();
        let ghost s0 = *lex;
        let r0 = lex.expect_symbol('(');
        proof {
            lemma_advanced_input(s0, *lex);
        }
        if r0.is_err() {
            return Err(LemError::UnexpectedToken);
        }
        let ghost s1 = *lex;
        let a = match lex.get_int_literal() {
            Ok(v) => v,
            Err(e) => {
                proof {
                    lemma_advanced_input(s1, *lex);
                }
                return Err(e);
            },
        };
        proof {
            lemma_advanced_input(s1, *lex);
        }
        let ghost s2 = *lex;
        let r1 = lex.expect_symbol(',');
        proof {
            lemma_advanced_input(s2, *lex);
        }
        if r1.is_err() {
            return Err(LemError::UnexpectedToken);
        }
        let ghost s3 = *lex;
        let b = match lex.get_int_literal() {
            Ok(v) => v,
            Err(e) => {
                proof {
                    lemma_advanced_input(s3, *lex);
                }
                return Err(e);
            },
        };
        proof {
            lemma_advanced_input(s3, *lex);
        }
        let ghost s4 = *lex;
        let r2 = lex.expect_symbol(')');
        proof {
            lemma_advanced_input(s4, *lex);
        }
        if r2.is_err() {
            return Err(LemError::UnexpectedToken);
        }
        proof {
            assert(spec_nums(s, s1.pos(), 2) is Some && spec_nums(s, s1.pos(), 2)->Some_0
                == (seq![a, b], s4.pos())) by {
                assert(spec_nums(s, s3.pos(), 1) is Some);
                assert(seq![a] + seq![b] =~= seq![a, b]);
            }
        }
        Ok((trunc8_exec(a), trunc8_exec(b)))
    }

    /// Parse `( x , y , w , h )`: two 16-bit values, then two bytes.
    ///
    /// Succeeds exactly when the upcoming tokens form a parenthesised
    /// quadruple of integer literals, and then returns their truncated
    /// values and stands right after the closing parenthesis.
    fn parse_quad(lex: &mut Lexer<'_>) -> (r: Result<(u16, u16, u8, u8), LemError>)
        requires
            old(lex).wf(),
            old(lex).buffered() is None,
        ensures
            final(lex).wf(),
            final(lex).src() == old(lex).src(),
            final(lex).buffered() is None,
            remaining_input(*final(lex)) <= remaining_input(*old(lex)),
            r is Ok <==> spec_paren_nums(old(lex).src(), old(lex).pos(), 4) is Some,
            r is Ok ==> ({
                let (vs, p3) = spec_paren_nums(old(lex).src(), old(lex).pos(), 4)->Some_0;
                &&& r->Ok_0.0 == trunc16(vs[0])
                &&& r->Ok_0.1 == trunc16(vs[1])
                &&& r->Ok_0.2 == trunc8(vs[2])
                &&& r->Ok_0.3 == trunc8(vs[3])
                &&& final(lex).pos() == p3
            }),
    {
        let ghost s = old(lex).src();
        let ghost s0 = *lex;
        let r0 = lex.expect_symbol('(');
        proof {
            lemma_advanced_input(s0, *lex);
        }
        if r0.is_err() {
            return Err(LemError::UnexpectedToken);
        }
        let ghost s1 = *lex;
        let x = match lex.get_int_literal() {
            Ok(v) => v,
            Err(e) => {
                proof {
                    lemma_advanced_input(s1, *lex);
                }
                return Err(e);
            },
        };
        proof {
            lemma_advanced_input(s1, *lex);
        }
        let ghost s2 = *lex;
        let r1 = lex.expect_symbol(',');
        proof {
            lemma_advanced_input(s2, *lex);
        }
        if r1.is_err() {
            return Err(LemError::UnexpectedToken);
        }
        let ghost s3 = *lex;
        let y = match lex.get_int_literal() {
            Ok(v) => v,
            Err(e) => {
                proof {
                    lemma_advanced_input(s3, *lex);
                }
                return Err(e);
            },
        };
        proof {
            lemma_advanced_input(s3, *lex);
        }
        let ghost s4 = *lex;
        let r2 = lex.expect_symbol(',');
        proof {
            lemma_advanced_input(s4, *lex);
        }
        if r2.is_err() {
            return Err(LemError::UnexpectedToken);
        }
        let ghost s5 = *lex;
        let w = match lex.get_int_literal() {
            Ok(v) => v,
            Err(e) => {
                proof {
                    lemma_advanced_input(s5, *lex);
                }
                return Err(e);
            },
        };
        proof {
            lemma_advanced_input(s5, *lex);
        }
        let ghost s6 = *lex;
        let r3 = lex.expect_symbol(',');
        proof {
            lemma_advanced_input(s6, *lex);
        }
        if r3.is_err() {
            return Err(LemError::UnexpectedToken);
        }
        let ghost s7 = *lex;
        let h = match lex.get_int_literal() {
            Ok(v) => v,
            Err(e) => {
                proof {
                    lemma_advanced_input(s7, *lex);
                }
                return Err(e);
            },
        };
        proof {
            lemma_advanced_input(s7, *lex);
        }
        let ghost s8 = *lex;
        let r4 = lex.expect_symbol(')');
        proof {
            lemma_advanced_input(s8, *lex);
        }
        if r4.is_err() {
            return Err(LemError::UnexpectedToken);
        }
        proof {
            assert(spec_nums(s, s1.pos(), 4) is Some && spec_nums(s, s1.pos(), 4)->Some_0
                == (seq![x, y, w, h], s8.pos())) by {
                assert(spec_nums(s, s7.pos(), 1) is Some);
                assert(spec_nums(s, s5.pos(), 2) is Some);
                assert(spec_nums(s, s3.pos(), 3) is Some);
                assert(seq![w] + seq![h] =~= seq![w, h]);
                assert(seq![y] + seq![w, h] =~= seq![y, w, h]);
                assert(seq![x] + seq![y, w, h] =~= seq![x, y, w, h]);
            }
        }
        Ok((trunc16_exec(x), trunc16_exec(y), trunc8_exec(w), trunc8_exec(h)))
    }
}

/// The low byte of an i64 value, as Rust truncation computes it.
fn trunc8_exec(v: i64) -> (r: u8)
    ensures
        r == trunc8(v),
{
    (((v % 256) + 256) % 256) as u8
}

/// The low 16 bits of an i64 value, as Rust truncation computes them.
fn trunc16_exec(v: i64) -> (r: u16)
    ensures
        r == trunc16(v),
{
    (((v % 0x10000) + 0x10000) % 0x10000) as u16
}

impl ObjectHeader {
}

/// Metadata of one terrain-piece slot (8 bytes on disk).
#[derive(Clone, Copy, PartialEq, Eq, Structural, Debug)]
pub struct TerrainHeader {
    pub width: u8,
    pub height: u8,
    pub gfx_offset: u16,
    pub mask_offset: u16,
    pub _unknown1: u16,
}

/// The 8-byte on-disk form of a terrain header.
pub open spec fn terrain_header_bytes(h: TerrainHeader) -> Seq<u8> {
    seq![h.width, h.height] + le16_bytes(h.gfx_offset) + le16_bytes(h.mask_offset) + le16_bytes(
        h._unknown1,
    )
}

/// The terrain header encoded at `pos` in `b` (meaningful when 8 bytes fit).
pub open spec fn parse_terrain_header(b: Seq<u8>, pos: int) -> TerrainHeader {
    TerrainHeader {
        width: b[pos],
        height: b[pos + 1],
        gfx_offset: u16_from(b[pos + 2], b[pos + 3]),
        mask_offset: u16_from(b[pos + 4], b[pos + 5]),
        _unknown1: u16_from(b[pos + 6], b[pos + 7]),
    }
}

impl Default for TerrainHeader {
    /// The all-zero record that pads unused terrain slots.
    fn default() -> (r: TerrainHeader)
        ensures
            r == (TerrainHeader {
                width: 0,
                height: 0,
                gfx_offset: 0,
                mask_offset: 0,
                _unknown1: 0,
            }),
    {
        TerrainHeader { width: 0, height: 0, gfx_offset: 0, mask_offset: 0, _unknown1: 0 }
    }
}

impl TerrainHeader {
    /// Read an 8-byte terrain header; fails only on a short buffer.
    pub fn read(reader: &mut ByteReader) -> (r: Result<TerrainHeader, LemError>)
        requires
            old(reader).wf(),
        ensures
            final(reader).wf(),
            final(reader).bytes() == old(reader).bytes(),
            old(reader).position() + 8 <= old(reader).bytes().len() ==> {
                &&& r == Ok::<TerrainHeader, LemError>(
                    parse_terrain_header(old(reader).bytes(), old(reader).position()),
                )
                &&& final(reader).position() == old(reader).position() + 8
            },
            old(reader).position() + 8 > old(reader).bytes().len() ==> r
                == Err::<TerrainHeader, LemError>(LemError::UnexpectedEof),
    {
        if reader.remaining_len() < 8 {
            return Err(LemError::UnexpectedEof);
        }
        let width = read_byte(reader).unwrap();
        let height = read_byte(reader).unwrap();
        let gfx_offset = read_le16(reader).unwrap();
        let mask_offset = read_le16(reader).unwrap();
        let _unknown1 = read_le16(reader).unwrap();
        Ok(TerrainHeader { width, height, gfx_offset, mask_offset, _unknown1 })
    }

    /// Append the 8-byte on-disk form.
    pub fn write(&self, writer: &mut Vec<u8>)
        ensures
            final(writer)@ == old(writer)@ + terrain_header_bytes(*self),
    {
        write_byte(self.width, writer);
        write_byte(self.height, writer);
        write_le16(self.gfx_offset, writer);
        write_le16(self.mask_offset, writer);
        write_le16(self._unknown1, writer);
        assert(writer@ =~= old(writer)@ + terrain_header_bytes(*self));
    }
}

/// Reading back a written terrain header restores every field.
pub proof fn lemma_terrain_header_round_trip(h: TerrainHeader)
    ensures
        parse_terrain_header(terrain_header_bytes(h), 0) == h,
{
    let b = terrain_header_bytes(h);
    assert(b[2] == (h.gfx_offset % 256) as u8 && b[3] == (h.gfx_offset / 256) as u8);
    assert(b[4] == (h.mask_offset % 256) as u8 && b[5] == (h.mask_offset / 256) as u8);
    assert(b[6] == (h._unknown1 % 256) as u8 && b[7] == (h._unknown1 / 256) as u8);
}

/// The six palette tables of a graphics set (96 bytes on disk): EGA
/// {custom, standard, preview} packed one byte per entry, then VGA
/// {custom, standard, preview} packed three bytes per entry.
#[derive(Clone, PartialEq, Eq, Debug)]
pub struct Palettes {
    pub ega_custom: Vec<u8>,
    pub ega_standard: Vec<u8>,
    pub ega_preview: Vec<u8>,
    pub vga_custom: Vec<u8>,
    pub vga_standard: Vec<u8>,
    pub vga_preview: Vec<u8>,
}

/// The 96-byte on-disk form of the palette block.
pub open spec fn palettes_bytes(p: Palettes) -> Seq<u8> {
    p.ega_custom@ + p.ega_standard@ + p.ega_preview@ + p.vga_custom@ + p.vga_standard@
        + p.vga_preview@
}

impl Palettes {
    /// Each EGA table holds 8 one-byte entries, each VGA table 8 three-byte
    /// entries.
    pub open spec fn wf(self) -> bool {
        &&& self.ega_custom@.len() == 8
        &&& self.ega_standard@.len() == 8
        &&& self.ega_preview@.len() == 8
        &&& self.vga_custom@.len() == 24
        &&& self.vga_standard@.len() == 24
        &&& self.vga_preview@.len() == 24
    }

    /// The all-zero palette block.
    pub fn new_zeroed() -> (r: Palettes)
        ensures
            r.wf(),
            palettes_bytes(r) == seq![0u8; 96],
            palettes_view(r) == zero_palettes_view(),
    {
        let r = Palettes {
            ega_custom: vec![0u8; 8],
            ega_standard: vec![0u8; 8],
            ega_preview: vec![0u8; 8],
            vga_custom: vec![0u8; 24],
            vga_standard: vec![0u8; 24],
            vga_preview: vec![0u8; 24],
        };
        assert(palettes_bytes(r) =~= seq![0u8; 96]);
        proof {
            assert(r.ega_custom@ =~= seq![0u8; 8]);
            assert(r.ega_standard@ =~= seq![0u8; 8]);
            assert(r.ega_preview@ =~= seq![0u8; 8]);
            assert(r.vga_custom@ =~= seq![0u8; 24]);
            assert(r.vga_standard@ =~= seq![0u8; 24]);
            assert(r.vga_preview@ =~= seq![0u8; 24]);
        }
        r
    }

    /// Read the 96-byte palette block; fails only on a short buffer.
    pub fn read(reader: &mut ByteReader) -> (r: Result<Palettes, LemError>)
        requires
            old(reader).wf(),
        ensures
            final(reader).wf(),
            final(reader).bytes() == old(reader).bytes(),
            old(reader).position() + 96 <= old(reader).bytes().len() ==> {
                &&& r is Ok
                &&& r->Ok_0.wf()
                &&& palettes_bytes(r->Ok_0) == old(reader).bytes().subrange(
                    old(reader).position(),
                    old(reader).position() + 96,
                )
                &&& final(reader).position() == old(reader).position() + 96
            },
            old(reader).position() + 96 > old(reader).bytes().len() ==> r == Err::<
                Palettes,
                LemError,
            >(LemError::UnexpectedEof),
    {
        if reader.remaining_len() < 96 {
            return Err(LemError::UnexpectedEof);
        }
        let ega_custom = read_bytes(reader, 8).unwrap();
        let ega_standard = read_bytes(reader, 8).unwrap();
        let ega_preview = read_bytes(reader, 8).unwrap();
        let vga_custom = read_bytes(reader, 24).unwrap();
        let vga_standard = read_bytes(reader, 24).unwrap();
        let vga_preview = read_bytes(reader, 24).unwrap();
        let r = Palettes {
            ega_custom,
            ega_standard,
            ega_preview,
            vga_custom,
            vga_standard,
            vga_preview,
        };
        assert(palettes_bytes(r) =~= old(reader).bytes().subrange(
            old(reader).position(),
            old(reader).position() + 96,
        ));
        Ok(r)
    }

    /// Append the 96-byte on-disk form.
    pub fn write(&self, writer: &mut Vec<u8>)
        requires
            self.wf(),
        ensures
            final(writer)@ == old(writer)@ + palettes_bytes(*self),
    {
        crate::binary_io::append_bytes(writer, &self.ega_custom);
        crate::binary_io::append_bytes(writer, &self.ega_standard);
        crate::binary_io::append_bytes(writer, &self.ega_preview);
        crate::binary_io::append_bytes(writer, &self.vga_custom);
        crate::binary_io::append_bytes(writer, &self.vga_standard);
        crate::binary_io::append_bytes(writer, &self.vga_preview);
        assert(writer@ =~= old(writer)@ + palettes_bytes(*self));
    }
}

/// A usize offset truncated to the 16 bits a header field stores.
pub open spec fn off16(v: int) -> u16 {
    (v % 0x10000) as u16
}

/// A usize dimension truncated to the byte a header field stores.
pub open spec fn dim8(v: int) -> u8 {
    (v % 0x100) as u8
}

/// The accumulating state of a graphics set under construction: the two
/// plane-data buffers and the header records whose offsets index them.
pub struct SetBuilder {
    pub terrain_data: Vec<u8>,
    pub object_data: Vec<u8>,
    pub terrain_headers: Vec<TerrainHeader>,
    pub object_headers: Vec<ObjectHeader>,
}

impl SetBuilder {
    /// An empty set.
    pub fn new() -> (r: SetBuilder)
        ensures
            r.terrain_data@.len() == 0,
            r.object_data@.len() == 0,
            r.terrain_headers@.len() == 0,
            r.object_headers@.len() == 0,
    {
        SetBuilder {
            terrain_data: Vec::new(),
            object_data: Vec::new(),
            terrain_headers: Vec::new(),
            object_headers: Vec::new(),
        }
    }

    /// Add one terrain piece: append its four colour planes and its mask
    /// plane to the terrain buffer and record a header whose offsets point
    /// at them.  Without a separate mask image, the piece occupies the left
    /// half of `bmp` and the mask is plane 0 of the right half.
    ///
    /// Fails exactly when `bmp` has fewer than four planes or a given mask
    /// does not match the piece's dimensions.
    pub fn apply_terrain(&mut self, bmp: &PlanarBMP, mask: Option<&PlanarBMP>) -> (r: Result<
        (),
        LemError,
    >)
        requires
            bmp.wf(),
            match mask {
                Some(m) => m.wf(),
                None => true,
            },
        ensures
            final(self).object_data == old(self).object_data,
            final(self).object_headers == old(self).object_headers,
            r is Ok <==> bmp.planes >= 4 && bmp.width <= 0x4000 && bmp.height <= 0x4000 && (
            match mask {
                Some(m) => m.planes >= 1 && m.width == (bmp.width as int) && m.height == (
                bmp.height as int),
                None => true,
            }),
            r is Err ==> final(self).terrain_data == old(self).terrain_data
                && final(self).terrain_headers == old(self).terrain_headers,
            r is Ok ==> ({
                let tw = if mask is Some {
                    bmp.width as int
                } else {
                    bmp.width as int / 2
                };
                let rb = ((tw + 7) / 8) * bmp.height;
                &&& final(self).terrain_data@.len() == old(self).terrain_data@.len() + 5 * rb
                &&& final(self).terrain_headers@ == old(self).terrain_headers@.push(
                    TerrainHeader {
                        width: dim8(bmp.width as int),
                        height: dim8(bmp.height as int),
                        gfx_offset: off16(old(self).terrain_data@.len() as int),
                        mask_offset: off16(old(self).terrain_data@.len() + 4 * rb),
                        _unknown1: 0,
                    },
                )
                &&& forall|i: int|
                    0 <= i < old(self).terrain_data@.len() ==> final(self).terrain_data@[i] == old(
                        self,
                    ).terrain_data@[i]
            }),
    {
        if bmp.planes < 4 || bmp.width > 0x4000 || bmp.height > 0x4000 {
            return Err(LemError::BadBitmap);
        }
        let tw: usize = match mask {
            Some(m) => {
                if !(m.planes >= 1 && m.width == bmp.width && m.height == bmp.height) {
                    return Err(LemError::BadBitmap);
                }
                bmp.width
            },
            None => bmp.width / 2,
        };
        proof {
            assert(((tw + 7) / 8) * bmp.height <= 0x801 * 0x4000 && 4 * (((tw + 7) / 8)
                * bmp.height) <= 4 * (0x801 * 0x4000)) by (nonlinear_arith)
                requires
                    tw <= 0x4000,
                    bmp.height <= 0x4000,
            ;
        }
        let gfx_offset = self.terrain_data.len();
        let mut p: usize = 0;
        let ghost base = self.terrain_data@;
        let ghost rb = (((tw + 7) / 8) * bmp.height) as int;
        while p < 4
            invariant
                bmp.wf(),
                bmp.planes >= 4,
                bmp.width <= 0x4000,
                bmp.height <= 0x4000,
                tw <= bmp.width,
                ((tw + 7) / 8) * bmp.height <= 0x801 * 0x4000,
                rb == ((tw + 7) / 8) * bmp.height,
                p <= 4,
                self.terrain_data@.len() == base.len() + p * rb,
                self.object_data == old(self).object_data,
                self.object_headers == old(self).object_headers,
                self.terrain_headers == old(self).terrain_headers,
                forall|i: int| 0 <= i < base.len() ==> self.terrain_data@[i] == base[i],
            decreases 4 - p,
        {
            let mut plane = bmp.get_plane_data(p, 0, 0, tw, bmp.height);
            crate::binary_io::append_bytes(&mut self.terrain_data, &plane);
            p = p + 1;
            proof {
                assert((p - 1) * rb + rb == p * rb) by (nonlinear_arith);
            }
        }
        match mask {
            Some(m) => {
                let mut mask_plane = m.get_plane_data(0, 0, 0, tw, m.height);
                crate::binary_io::append_bytes(&mut self.terrain_data, &mask_plane);
            },
            None => {
                let mut mask_plane = bmp.get_plane_data(0, tw, 0, tw, bmp.height);
                crate::binary_io::append_bytes(&mut self.terrain_data, &mask_plane);
            },
        }
        proof {
            vstd::arithmetic::div_mod::lemma_add_mod_noop(
                gfx_offset as int,
                4 * (((tw + 7) / 8) * bmp.height) as int,
                0x10000,
            );
        }
        self.terrain_headers.push(
            TerrainHeader {
                width: (bmp.width % 256) as u8,
                height: (bmp.height % 256) as u8,
                gfx_offset: (gfx_offset % 0x10000) as u16,
                mask_offset: ((gfx_offset % 0x10000 + 4 * (((tw + 7) / 8) * bmp.height) % 0x10000)
                    % 0x10000) as u16,
                _unknown1: 0,
            },
        );
        Ok(())
    }

    /// Add one object: append, per frame, its four colour planes and mask
    /// plane, and fill in the header's bookkeeping exactly as the data file
    /// expects it: the frame data size covers five planes of one frame, the
    /// animation offset is where the frames start, the preview offset
    /// derives from the preview frame number, and the mask sits at offset
    /// zero within each frame.
    ///
    /// Fails exactly when `bmp` has fewer than four planes, the frame count
    /// is zero or exceeds the image height, or a given mask does not match
    /// the image's dimensions.
    pub fn apply_object(&mut self, h: ObjectHeader, bmp: &PlanarBMP, mask: Option<&PlanarBMP>) -> (
        r: Result<(), LemError>)
        requires
            bmp.wf(),
            match mask {
                Some(m) => m.wf(),
                None => true,
            },
        ensures
            final(self).terrain_data == old(self).terrain_data,
            final(self).terrain_headers == old(self).terrain_headers,
            r is Ok <==> bmp.planes >= 4 && bmp.width <= 0x4000 && bmp.height <= 0x4000
                && h.frame_end > 0 && h.frame_end <= bmp.height && (
            match mask {
                Some(m) => m.planes >= 1 && m.width == (bmp.width as int) && m.height == (
                bmp.height as int),
                None => true,
            }),
            r is Err ==> final(self).object_data == old(self).object_data
                && final(self).object_headers == old(self).object_headers,
            r is Ok ==> ({
                let ow = if mask is Some {
                    bmp.width as int
                } else {
                    bmp.width as int / 2
                };
                let fh = bmp.height as int / h.frame_end as int;
                let frb = ((ow + 7) / 8) * fh;
                let fds = (bmp.width as int * fh / 8) * 5;
                let pushed = final(self).object_headers@.last();
                &&& final(self).object_headers@ == old(self).object_headers@.push(pushed)
                &&& pushed.animation_offset == off16(old(self).object_data@.len() as int)
                &&& pushed.animation_frame_data_size == off16(fds)
                &&& pushed.preview_frame_offset == off16(
                    pushed.animation_offset + pushed.animation_frame_data_size
                        * h.preview_frame_number,
                )
                &&& pushed.mask_offset == 0
                &&& pushed.width == dim8(ow)
                &&& pushed.height == dim8(fh)
                &&& pushed.frame_start == h.frame_start
                &&& pushed.frame_end == h.frame_end
                &&& pushed.animation_flags == h.animation_flags
                &&& pushed.trigger_x == h.trigger_x
                &&& pushed.trigger_y == h.trigger_y
                &&& pushed.trigger_w == h.trigger_w
                &&& pushed.trigger_h == h.trigger_h
                &&& pushed.trigger_effect_id == h.trigger_effect_id
                &&& pushed.preview_frame_number == h.preview_frame_number
                &&& pushed.trap_sound == h.trap_sound
                &&& final(self).object_data@.len() == old(self).object_data@.len() + (
                h.frame_end as int) * 5 * frb
                &&& forall|i: int|
                    0 <= i < old(self).object_data@.len() ==> final(self).object_data@[i] == old(
                        self,
                    ).object_data@[i]
            }),
    {
        if bmp.planes < 4 || bmp.width > 0x4000 || bmp.height > 0x4000 || h.frame_end == 0
            || h.frame_end as usize > bmp.height {
            return Err(LemError::BadBitmap);
        }
        let ow: usize = match mask {
            Some(m) => {
                if !(m.planes >= 1 && m.width == bmp.width && m.height == bmp.height) {
                    return Err(LemError::BadBitmap);
                }
                bmp.width
            },
            None => bmp.width / 2,
        };
        let frames = h.frame_end as usize;
        let frame_height = bmp.height / frames;
        proof {
            vstd::arithmetic::div_mod::lemma_div_is_ordered_by_denominator(
                bmp.height as int,
                1,
                frames as int,
            );
            assert(frames * (bmp.height as int / frames as int) <= bmp.height)
                by (nonlinear_arith)
                requires
                    frames >= 1,
                    bmp.height >= 0,
            ;
            assert(bmp.width * frame_height <= 0x4000 * 0x4000 && ((ow + 7) / 8) * frame_height
                <= 0x801 * 0x4000) by (nonlinear_arith)
                requires
                    ow <= bmp.width <= 0x4000,
                    frame_height <= bmp.height <= 0x4000,
            ;
        }
        let anim_offset = self.object_data.len();
        let mut header = h;
        header.animation_offset = (anim_offset % 0x10000) as u16;
        header.width = (ow % 256) as u8;
        header.height = (frame_height % 256) as u8;
        header.animation_frame_data_size = ((bmp.width * frame_height / 8) * 5 % 0x10000) as u16;
        proof {
            vstd::arithmetic::div_mod::lemma_add_mod_noop(
                header.animation_offset as int,
                header.animation_frame_data_size as int * header.preview_frame_number as int,
                0x10000,
            );
            vstd::arithmetic::div_mod::lemma_small_mod(
                header.animation_offset as nat,
                0x10000,
            );
        }
        proof {
            assert((header.animation_frame_data_size as int) * (
            header.preview_frame_number as int) <= 65535 * 255) by (nonlinear_arith)
                requires
                    header.animation_frame_data_size <= 65535,
                    header.preview_frame_number <= 255,
            ;
        }
        header.preview_frame_offset = ((header.animation_offset as usize
            + header.animation_frame_data_size as usize * header.preview_frame_number as usize)
            % 0x10000) as u16;
        header.mask_offset = 0;
        let ghost base = self.object_data@;
        let ghost frb = (((ow + 7) / 8) * frame_height) as int;
        let mut frame: usize = 0;
        while frame < frames
            invariant
                bmp.wf(),
                bmp.planes >= 4,
                ow <= bmp.width,
                frames >= 1,
                frame <= frames,
                frame_height == bmp.height as int / frames as int,
                frames * frame_height <= bmp.height,
                mask is None ==> ow + ow <= bmp.width,
                bmp.width <= 0x4000,
                bmp.height <= 0x4000,
                frame_height <= 0x4000,
                ((ow + 7) / 8) * frame_height <= 0x801 * 0x4000,
                frb == ((ow + 7) / 8) * frame_height,
                match mask {
                    Some(m) => m.wf() && m.planes >= 1 && m.width == (bmp.width as int) && m.height
                        == (bmp.height as int),
                    None => true,
                },
                self.object_data@.len() == base.len() + frame * (5 * frb),
                self.terrain_data == old(self).terrain_data,
                self.terrain_headers == old(self).terrain_headers,
                self.object_headers == old(self).object_headers,
                forall|i: int| 0 <= i < base.len() ==> self.object_data@[i] == base[i],
            decreases frames - frame,
        {
            proof {
                vstd::arithmetic::mul::lemma_mul_inequality(
                    frame + 1,
                    frames as int,
                    frame_height as int,
                );
                vstd::arithmetic::mul::lemma_mul_is_distributive_add(
                    frame_height as int,
                    frame as int,
                    1,
                );
                vstd::arithmetic::mul::lemma_mul_is_commutative(frame as int, frame_height as int);
                vstd::arithmetic::mul::lemma_mul_is_commutative(
                    (frame + 1) as int,
                    frame_height as int,
                );
            }
            let ghost fstart = self.object_data@.len() as int;
            let mut p: usize = 0;
            while p < 4
                invariant
                    bmp.wf(),
                    bmp.planes >= 4,
                    ow <= bmp.width,
                    frame < frames,
                    frame * frame_height + frame_height <= bmp.height,
                    bmp.width <= 0x4000,
                    bmp.height <= 0x4000,
                    frame_height <= 0x4000,
                    ((ow + 7) / 8) * frame_height <= 0x801 * 0x4000,
                    frb == ((ow + 7) / 8) * frame_height,
                    p <= 4,
                    self.object_data@.len() == fstart + p * frb,
                    fstart == base.len() + frame * (5 * frb),
                    self.terrain_data == old(self).terrain_data,
                    self.terrain_headers == old(self).terrain_headers,
                    self.object_headers == old(self).object_headers,
                    forall|i: int| 0 <= i < base.len() ==> self.object_data@[i] == base[i],
                decreases 4 - p,
            {
                let mut plane = bmp.get_plane_data(p, 0, frame * frame_height, ow, frame_height);
                crate::binary_io::append_bytes(&mut self.object_data, &plane);
                p = p + 1;
                proof {
                    assert((p - 1) * frb + frb == p * frb) by (nonlinear_arith);
                }
            }
            match mask {
                Some(m) => {
                    let mut mp = m.get_plane_data(0, 0, frame * frame_height, ow, frame_height);
                    crate::binary_io::append_bytes(&mut self.object_data, &mp);
                },
                None => {
                    let mut mp = bmp.get_plane_data(0, ow, frame * frame_height, ow, frame_height);
                    crate::binary_io::append_bytes(&mut self.object_data, &mp);
                },
            }
            frame = frame + 1;
            proof {
                assert((frame - 1) * (5 * frb) + 5 * frb == frame * (5 * frb)) by (nonlinear_arith);
            }
        }
        proof {
            assert((frames as int) * (5 * frb) == ((frames as int) * 5) * frb)
                by (nonlinear_arith);
        }
        self.object_headers.push(header);
        Ok(())
    }
}

/// One top-level script directive, as values.
pub enum DirectiveView {
    Terrain { file: Seq<char>, mask: Option<Seq<char>> },
    Object { file: Seq<char>, mask: Option<Seq<char>>, header: ObjectHeader },
    PaletteBlock(PalettesView),
    End,
}

/// One top-level script directive: a terrain piece, an object with its
/// specification block, the palette block, or the end of the script.
pub enum Directive {
    Terrain { file: String, mask: Option<String> },
    Object { file: String, mask: Option<String>, header: ObjectHeader },
    PaletteBlock(Palettes),
    End,
}

/// The values a directive carries.
pub open spec fn directive_view(d: Directive) -> DirectiveView {
    match d {
        Directive::Terrain { file, mask } => DirectiveView::Terrain {
            file: file@,
            mask: match mask {
                Some(m) => Some(m@),
                None => None,
            },
        },
        Directive::Object { file, mask, header } => DirectiveView::Object {
            file: file@,
            mask: match mask {
                Some(m) => Some(m@),
                None => None,
            },
            header,
        },
        Directive::PaletteBlock(p) => DirectiveView::PaletteBlock(palettes_view(p)),
        Directive::End => DirectiveView::End,
    }
}

/// An optional `Mask "file"` clause at `pos`: its filename if present, and
/// the position after it; `None` when `Mask` appears without a filename.
pub open spec fn spec_mask_opt(s: Seq<char>, pos: int) -> Option<(Option<Seq<char>>, int)> {
    match spec_next_token(s, pos) {
        Some((TokView::Ident(name), p1)) => {
            if name == "Mask"@ {
                match spec_next_token(s, p1) {
                    Some((TokView::StrLit(f), p2)) => Some((Some(f), p2)),
                    _ => None,
                }
            } else {
                Some((None, pos))
            }
        },
        _ => Some((None, pos)),
    }
}

/// The directive starting at `pos`, with the position after it; `None` on
/// anything the grammar refuses.
pub open spec fn spec_directive(s: Seq<char>, pos: int) -> Option<(DirectiveView, int)> {
    match spec_next_token(s, pos) {
        None => Some((DirectiveView::End, s.len() as int)),
        Some((TokView::Ident(name), p1)) => {
            if name == "Terrain"@ {
                match spec_next_token(s, p1) {
                    Some((TokView::StrLit(f), p2)) => match spec_mask_opt(s, p2) {
                        Some((m, p3)) => Some((DirectiveView::Terrain { file: f, mask: m }, p3)),
                        None => None,
                    },
                    _ => None,
                }
            } else if name == "Object"@ {
                match spec_next_token(s, p1) {
                    Some((TokView::StrLit(f), p2)) => match spec_mask_opt(s, p2) {
                        Some((m, p3)) => match spec_next_token(s, p3) {
                            Some((TokView::Symbol(eq), p4)) => {
                                if eq == '=' {
                                    match spec_object_block(s, p4) {
                                        Some((h, p5)) => Some(
                                            (
                                                DirectiveView::Object {
                                                    file: f,
                                                    mask: m,
                                                    header: h,
                                                },
                                                p5,
                                            ),
                                        ),
                                        None => None,
                                    }
                                } else {
                                    None
                                }
                            },
                            _ => None,
                        },
                        None => None,
                    },
                    _ => None,
                }
            } else if name == "Palettes"@ {
                match spec_next_token(s, p1) {
                    Some((TokView::Symbol(eq), p2)) => {
                        if eq == '=' {
                            match spec_palettes_block(s, p2) {
                                Some((pv, p3)) => Some((DirectiveView::PaletteBlock(pv), p3)),
                                None => None,
                            }
                        } else {
                            None
                        }
                    },
                    _ => None,
                }
            } else {
                None
            }
        },
        Some(_) => None,
    }
}

/// Read an optional `Mask "file"` clause.
fn read_mask(lex: &mut Lexer<'_>) -> (r: Result<Option<String>, LemError>)
    requires
        old(lex).wf(),
        old(lex).buffered() is None,
    ensures
        final(lex).src() == old(lex).src(),
        r is Ok <==> spec_mask_opt(old(lex).src(), old(lex).pos()) is Some,
        r is Ok ==> ({
            let (m, p) = spec_mask_opt(old(lex).src(), old(lex).pos())->Some_0;
            &&& (match (r->Ok_0, m) {
                (Some(f), Some(mv)) => f@ == mv,
                (None, None) => true,
                _ => false,
            })
            &&& at_position(*final(lex), old(lex).src(), p)
        }),
        r is Err ==> final(lex).wf(),
    {
    let ghost s = old(lex).src();
    let ghost p0 = old(lex).pos();
    if lex.is_next_ident("Mask") {
        let tok = lex.next_token();
        proof {
            lemma_next_token_advances(s, p0);
        }
        match lex.get_string_literal() {
            Ok(f) => Ok(Some(f)),
            Err(e) => Err(e),
        }
    } else {
        Ok(None)
    }
}

/// Read the next top-level directive of a theme script: `Terrain "file"
/// [Mask "file"]`, `Object "file" [Mask "file"] = { ... }`, `Palettes =
/// { ... }`, or the end of the script.
///
/// Succeeds exactly when the upcoming tokens form such a directive, and
/// then returns its values and stands right after it.
pub fn next_directive(lex: &mut Lexer<'_>) -> (r: Result<Directive, LemError>)
    requires
        old(lex).wf(),
    ensures
        final(lex).wf(),
        final(lex).src() == old(lex).src(),
        old(lex).buffered() is None ==> (r is Ok <==> spec_directive(
            old(lex).src(),
            old(lex).pos(),
        ) is Some),
        old(lex).buffered() is None && r is Ok ==> ({
            let (dv, dp) = spec_directive(old(lex).src(), old(lex).pos())->Some_0;
            &&& directive_view(r->Ok_0) == dv
            &&& at_position(*final(lex), old(lex).src(), dp)
        }),
{
    let ghost s = old(lex).src();
    let ghost p0 = old(lex).pos();
    match lex.next_token() {
        None => Ok(Directive::End),
        Some(Token::Ident(var)) => {
            let ghost p1 = lex.pos();
            if str_eq(var, "Terrain") {
                let file = match lex.get_string_literal() {
                    Ok(f) => f,
                    Err(e) => {
                        return Err(e);
                    },
                };
                let mask = match read_mask(lex) {
                    Ok(m) => m,
                    Err(e) => {
                        return Err(e);
                    },
                };
                Ok(Directive::Terrain { file, mask })
            } else if str_eq(var, "Object") {
                let file = match lex.get_string_literal() {
                    Ok(f) => f,
                    Err(e) => {
                        return Err(e);
                    },
                };
                let mask = match read_mask(lex) {
                    Ok(m) => m,
                    Err(e) => {
                        return Err(e);
                    },
                };
                let ghost b2 = *lex;
                let r_eq = lex.expect_symbol('=');
                proof {
                    if peek_view(b2) is Some {
                        lemma_at_position_peek(
                            b2,
                            s,
                            spec_mask_opt(s, spec_next_token(s, p1)->Some_0.1)->Some_0.1,
                        );
                    }
                }
                if r_eq.is_err() {
                    return Err(LemError::UnexpectedToken);
                }
                let header = match ObjectHeader::parse(lex) {
                    Ok(h) => h,
                    Err(e) => {
                        return Err(e);
                    },
                };
                Ok(Directive::Object { file, mask, header })
            } else if str_eq(var, "Palettes") {
                let r_eq = lex.expect_symbol('=');
                if r_eq.is_err() {
                    return Err(LemError::UnexpectedToken);
                }
                let pal = match Palettes::parse(lex) {
                    Ok(p) => p,
                    Err(e) => {
                        return Err(e);
                    },
                };
                Ok(Directive::PaletteBlock(pal))
            } else {
                Err(LemError::UnknownProperty)
            }
        },
        Some(_) => Err(LemError::UnexpectedToken),
    }
}

/// The object headers of a header file, padded to sixteen slots with
/// zero-filled records.
pub open spec fn object_block_bytes(objects: Seq<ObjectHeader>, k: int) -> Seq<u8>
    decreases k,
{
    if k <= 0 {
        Seq::empty()
    } else {
        object_block_bytes(objects, k - 1) + object_header_bytes(
            if k - 1 < objects.len() {
                objects[k - 1]
            } else {
                zero_object_header()
            },
        )
    }
}

/// The terrain headers of a header file, padded to 64 slots with zero-filled
/// records.
pub open spec fn terrain_block_bytes(terrains: Seq<TerrainHeader>, k: int) -> Seq<u8>
    decreases k,
{
    if k <= 0 {
        Seq::empty()
    } else {
        terrain_block_bytes(terrains, k - 1) + terrain_header_bytes(
            if k - 1 < terrains.len() {
                terrains[k - 1]
            } else {
                TerrainHeader { width: 0, height: 0, gfx_offset: 0, mask_offset: 0, _unknown1: 0 }
            },
        )
    }
}

/// Assemble a whole header file: sixteen object headers, 64 terrain headers
/// and the 96-byte palette block, zero-padding unused slots.
pub fn build_header_file(
    objects: &Vec<ObjectHeader>,
    terrains: &Vec<TerrainHeader>,
    pal: &Palettes,
) -> (r: Vec<u8>)
    requires
        objects@.len() <= 16,
        terrains@.len() <= 64,
        pal.wf(),
    ensures
        r@ == object_block_bytes(objects@, 16) + terrain_block_bytes(terrains@, 64)
            + palettes_bytes(*pal),
        r@.len() == 16 * 28 + 64 * 8 + 96,
{
    let mut out: Vec<u8> = Vec::new();
    let null_object = ObjectHeader::default();
    let mut i: usize = 0;
    while i < 16
        invariant
            objects@.len() <= 16,
            i <= 16,
            null_object == zero_object_header(),
            out@ == object_block_bytes(objects@, i as int),
            out@.len() == i * 28,
        decreases 16 - i,
    {
        let h = if i < objects.len() {
            &objects[i]
        } else {
            &null_object
        };
        h.write(&mut out);
        i = i + 1;
        assert(out@ =~= object_block_bytes(objects@, i as int));
        assert(object_header_bytes(
            if i - 1 < objects@.len() {
                objects@[i - 1]
            } else {
                zero_object_header()
            },
        ).len() == 28);
    }
    let ghost after_objects = out@;
    let null_terrain = TerrainHeader { width: 0, height: 0, gfx_offset: 0, mask_offset: 0, _unknown1: 0 };
    let mut j: usize = 0;
    while j < 64
        invariant
            terrains@.len() <= 64,
            j <= 64,
            null_terrain == (TerrainHeader {
                width: 0,
                height: 0,
                gfx_offset: 0,
                mask_offset: 0,
                _unknown1: 0,
            }),
            out@ == after_objects + terrain_block_bytes(terrains@, j as int),
            out@.len() == after_objects.len() + j * 8,
        decreases 64 - j,
    {
        let h = if j < terrains.len() {
            &terrains[j]
        } else {
            &null_terrain
        };
        h.write(&mut out);
        j = j + 1;
        assert(out@ =~= after_objects + terrain_block_bytes(terrains@, j as int));
    }
    pal.write(&mut out);
    assert(out@ =~= object_block_bytes(objects@, 16) + terrain_block_bytes(terrains@, 64)
        + palettes_bytes(*pal));
    out
}

/// The decimal digits of `v`, as ASCII bytes.
pub open spec fn dec_bytes(v: nat) -> Seq<u8>
    decreases v,
{
    if v < 10 {
        seq![(48 + v) as u8]
    } else {
        dec_bytes(v / 10) + seq![(48 + v % 10) as u8]
    }
}

/// Append the decimal digits of `v`.
pub fn push_dec(out: &mut Vec<u8>, v: u32)
    ensures
        final(out)@ == old(out)@ + dec_bytes(v as nat),
    decreases v,
{
    if v < 10 {
        out.push((48 + v) as u8);
        assert(out@ =~= old(out)@ + dec_bytes(v as nat));
    } else {
        push_dec(out, v / 10);
        out.push((48 + (v % 10)) as u8);
        assert(out@ =~= old(out)@ + dec_bytes(v as nat));
    }
}

/// Append the UTF-8 bytes of a string slice.
pub fn push_text(out: &mut Vec<u8>, s: &str)
    ensures
        final(out)@ == old(out)@ + s.spec_bytes(),
{
    let bytes = s.as_bytes();
    let mut i: usize = 0;
    while i < bytes.len()
        invariant
            i <= bytes@.len(),
            bytes@ == s.spec_bytes(),
            out@ == old(out)@ + bytes@.subrange(0, i as int),
        decreases bytes@.len() - i,
    {
        out.push(bytes[i]);
        i = i + 1;
        assert(out@ =~= old(out)@ + bytes@.subrange(0, i as int));
    }
    assert(out@ =~= old(out)@ + s.spec_bytes());
}

/// The script text of an object specification block.
pub open spec fn object_spec_bytes(h: ObjectHeader) -> Seq<u8> {
    "{\n\tanimation_flags = ".spec_bytes() + dec_bytes(h.animation_flags as nat)
        + "\n\tframes = (".spec_bytes() + dec_bytes(h.frame_start as nat) + ",".spec_bytes()
        + dec_bytes(h.frame_end as nat) + ")\n\ttrigger = (".spec_bytes() + dec_bytes(
        h.trigger_x as nat,
    ) + ",".spec_bytes() + dec_bytes(h.trigger_y as nat) + ",".spec_bytes() + dec_bytes(
        h.trigger_w as nat,
    ) + ",".spec_bytes() + dec_bytes(h.trigger_h as nat) + ")\n\ttrigger_effect = ".spec_bytes()
        + dec_bytes(h.trigger_effect_id as nat) + "\n\tpreview_frame = ".spec_bytes() + dec_bytes(
        h.preview_frame_number as nat,
    ) + "\n\ttrap_sound = ".spec_bytes() + dec_bytes(h.trap_sound as nat) + "\n}".spec_bytes()
}

impl ObjectHeader {
    /// Emit the script text of this header's object specification block,
    /// the form `parse` reads back.
    pub fn to_script_bytes(&self) -> (r: Vec<u8>)
        ensures
            r@ == object_spec_bytes(*self),
    {
        let mut out: Vec<u8> = Vec::new();
        push_text(&mut out, "{\n\tanimation_flags = ");
        push_dec(&mut out, self.animation_flags as u32);
        push_text(&mut out, "\n\tframes = (");
        push_dec(&mut out, self.frame_start as u32);
        push_text(&mut out, ",");
        push_dec(&mut out, self.frame_end as u32);
        push_text(&mut out, ")\n\ttrigger = (");
        push_dec(&mut out, self.trigger_x as u32);
        push_text(&mut out, ",");
        push_dec(&mut out, self.trigger_y as u32);
        push_text(&mut out, ",");
        push_dec(&mut out, self.trigger_w as u32);
        push_text(&mut out, ",");
        push_dec(&mut out, self.trigger_h as u32);
        push_text(&mut out, ")\n\ttrigger_effect = ");
        push_dec(&mut out, self.trigger_effect_id as u32);
        push_text(&mut out, "\n\tpreview_frame = ");
        push_dec(&mut out, self.preview_frame_number as u32);
        push_text(&mut out, "\n\ttrap_sound = ");
        push_dec(&mut out, self.trap_sound as u32);
        push_text(&mut out, "\n}");
        assert(out@ =~= object_spec_bytes(*self));
        out
    }
}

/// The script text of one EGA palette entry: its two-bit channels
/// unpacked, with a comma after it, or the table's closing brace after the
/// last entry.
pub open spec fn ega_entry_bytes(e: u8, last: bool) -> Seq<u8> {
    "(".spec_bytes() + dec_bytes(((e >> 4) & 3) as nat) + ", ".spec_bytes() + dec_bytes(
        ((e >> 2) & 3) as nat,
    ) + ", ".spec_bytes() + dec_bytes((e & 3) as nat) + ")".spec_bytes() + (if last {
        "}".spec_bytes()
    } else {
        ",".spec_bytes()
    })
}

/// The script text of the first `k` entries of an EGA table.
pub open spec fn ega_table_bytes(t: Seq<u8>, k: int) -> Seq<u8>
    decreases k,
{
    if k <= 0 {
        Seq::empty()
    } else {
        ega_table_bytes(t, k - 1) + ega_entry_bytes(t[k - 1], k == 8)
    }
}

/// The script text of one VGA palette entry, with its separator.
pub open spec fn vga_entry_bytes(r: u8, g: u8, b: u8, last: bool) -> Seq<u8> {
    "(".spec_bytes() + dec_bytes(r as nat) + ", ".spec_bytes() + dec_bytes(g as nat)
        + ", ".spec_bytes() + dec_bytes(b as nat) + ")".spec_bytes() + (if last {
        "}".spec_bytes()
    } else {
        ",".spec_bytes()
    })
}

/// The script text of the first `k` entries of a VGA table.
pub open spec fn vga_table_bytes(t: Seq<u8>, k: int) -> Seq<u8>
    decreases k,
{
    if k <= 0 {
        Seq::empty()
    } else {
        vga_table_bytes(t, k - 1) + vga_entry_bytes(
            t[(k - 1) * 3],
            t[(k - 1) * 3 + 1],
            t[(k - 1) * 3 + 2],
            k == 8,
        )
    }
}

/// The script text of a whole palette block, the form `parse` reads back.
pub open spec fn palettes_script_bytes(p: Palettes) -> Seq<u8> {
    "{".spec_bytes() + "\n\tega_custom = {".spec_bytes() + ega_table_bytes(p.ega_custom@, 8)
        + "\n\tega_standard = {".spec_bytes() + ega_table_bytes(p.ega_standard@, 8)
        + "\n\tega_preview = {".spec_bytes() + ega_table_bytes(p.ega_preview@, 8)
        + "\n\tvga_custom = {".spec_bytes() + vga_table_bytes(p.vga_custom@, 8)
        + "\n\tvga_standard = {".spec_bytes() + vga_table_bytes(p.vga_standard@, 8)
        + "\n\tvga_preview = {".spec_bytes() + vga_table_bytes(p.vga_preview@, 8)
        + "\n}\n".spec_bytes()
}

impl Palettes {
    /// Emit the script text of the whole palette block, the form `parse`
    /// reads back: six named tables of eight `(r, g, b)` entries, EGA
    /// channels unpacked to their two-bit values.
    pub fn to_script_bytes(&self) -> (r: Vec<u8>)
        requires
            self.wf(),
        ensures
            r@ == palettes_script_bytes(*self),
    {
        let mut out: Vec<u8> = Vec::new();
        push_text(&mut out, "{");
        self.push_ega_table(&mut out, "\n\tega_custom = {", 0);
        self.push_ega_table(&mut out, "\n\tega_standard = {", 1);
        self.push_ega_table(&mut out, "\n\tega_preview = {", 2);
        self.push_vga_table(&mut out, "\n\tvga_custom = {", 0);
        self.push_vga_table(&mut out, "\n\tvga_standard = {", 1);
        self.push_vga_table(&mut out, "\n\tvga_preview = {", 2);
        push_text(&mut out, "\n}\n");
        assert(out@ =~= palettes_script_bytes(*self));
        out
    }

    /// Append one EGA table (`which` selects custom, standard or preview):
    /// the header text, then eight unpacked `(r, g, b)` entries.
    #[verifier::rlimit(100)]
    #[verifier::spinoff_prover]
    fn push_ega_table(&self, out: &mut Vec<u8>, header: &str, which: u8)
        requires
            self.wf(),
            which < 3,
        ensures
            final(out)@ == old(out)@ + header.spec_bytes() + ega_table_bytes(
                (if which == 0 {
                    self.ega_custom@
                } else if which == 1 {
                    self.ega_standard@
                } else {
                    self.ega_preview@
                }),
                8,
            ),
    {
        push_text(out, header);
        let ghost base = out@;
        let table = if which == 0 {
            &self.ega_custom
        } else if which == 1 {
            &self.ega_standard
        } else {
            &self.ega_preview
        };
        let mut i: usize = 0;
        while i < 8
            invariant
                table@.len() == 8,
                i <= 8,
                out@ == base + ega_table_bytes(table@, i as int),
            decreases 8 - i,
        {
            let e = table[i];
            push_text(out, "(");
            push_dec(out, ((e >> 4) & 3) as u32);
            push_text(out, ", ");
            push_dec(out, ((e >> 2) & 3) as u32);
            push_text(out, ", ");
            push_dec(out, (e & 3) as u32);
            push_text(out, ")");
            if i < 7 {
                push_text(out, ",");
            } else {
                push_text(out, "}");
            }
            i = i + 1;
            proof {
                let ev: u8 = e;
                assert(((ev >> 4) & 3) <= 3 && ((ev >> 2) & 3) <= 3 && (ev & 3) <= 3)
                    by (bit_vector);
                assert(out@ =~= base + ega_table_bytes(table@, i as int));
            }
        }
        assert(out@ =~= old(out)@ + header.spec_bytes() + ega_table_bytes(table@, 8));
    }

    /// Append one VGA table (`which` selects custom, standard or preview):
    /// the header text, then eight three-byte `(r, g, b)` entries.
    #[verifier::rlimit(100)]
    #[verifier::spinoff_prover]
    fn push_vga_table(&self, out: &mut Vec<u8>, header: &str, which: u8)
        requires
            self.wf(),
            which < 3,
        ensures
            final(out)@ == old(out)@ + header.spec_bytes() + vga_table_bytes(
                (if which == 0 {
                    self.vga_custom@
                } else if which == 1 {
                    self.vga_standard@
                } else {
                    self.vga_preview@
                }),
                8,
            ),
    {
        push_text(out, header);
        let ghost base = out@;
        let table = if which == 0 {
            &self.vga_custom
        } else if which == 1 {
            &self.vga_standard
        } else {
            &self.vga_preview
        };
        let mut i: usize = 0;
        while i < 8
            invariant
                table@.len() == 24,
                i <= 8,
                out@ == base + vga_table_bytes(table@, i as int),
            decreases 8 - i,
        {
            push_text(out, "(");
            push_dec(out, table[i * 3] as u32);
            push_text(out, ", ");
            push_dec(out, table[i * 3 + 1] as u32);
            push_text(out, ", ");
            push_dec(out, table[i * 3 + 2] as u32);
            push_text(out, ")");
            if i < 7 {
                push_text(out, ",");
            } else {
                push_text(out, "}");
            }
            i = i + 1;
            proof {
                assert(out@ =~= base + vga_table_bytes(table@, i as int));
            }
        }
        assert(out@ =~= old(out)@ + header.spec_bytes() + vga_table_bytes(table@, 8));
    }
}

/// How a graphics set is written out: the filename patterns for terrain and
/// object strips (`#` stands for the slot number), whether masks go to
/// separate files, and whether the EGA palettes are used instead of VGA.
pub struct ExtractOptions<'a> {
    pub terrain_filename_pattern: &'a str,
    pub terrain_mask_filename_pattern: Option<&'a str>,
    pub object_filename_pattern: &'a str,
    pub object_mask_filename_pattern: Option<&'a str>,
    pub ega_mode: bool,
}

impl<'a> Default for ExtractOptions<'a> {
    /// Combined image-and-mask files, VGA colours.
    fn default() -> (r: ExtractOptions<'a>)
        ensures
            r.terrain_mask_filename_pattern is None,
            r.object_mask_filename_pattern is None,
            !r.ega_mode,
    {
        ExtractOptions {
            terrain_filename_pattern: "terrain#.bmp",
            terrain_mask_filename_pattern: None,
            object_filename_pattern: "obj#.bmp",
            object_mask_filename_pattern: None,
            ega_mode: false,
        }
    }
}

/// One EGA palette byte packed from a script triple: two low bits of each
/// channel as `rrggbb`.
pub open spec fn ega_pack(r: i64, g: i64, b: i64) -> u8 {
    ((trunc8(r) % 4) * 16 + (trunc8(g) % 4) * 4 + trunc8(b) % 4) as u8
}

/// `count` palette triples separated by commas, appended to `acc` — one
/// packed byte per EGA entry, three bytes per VGA entry.
pub open spec fn spec_palette_entries(
    s: Seq<char>,
    pos: int,
    count: nat,
    acc: Seq<u8>,
    ega: bool,
) -> Option<(Seq<u8>, int)>
    decreases count,
{
    if count == 0 {
        Some((acc, pos))
    } else {
        match spec_paren_nums(s, pos, 3) {
            Some((vs, p1)) => {
                let acc2 = if ega {
                    acc + seq![ega_pack(vs[0], vs[1], vs[2])]
                } else {
                    acc + seq![trunc8(vs[0]), trunc8(vs[1]), trunc8(vs[2])]
                };
                if count == 1 {
                    Some((acc2, p1))
                } else {
                    match spec_next_token(s, p1) {
                        Some((TokView::Symbol(c), p2)) => {
                            if c == ',' {
                                spec_palette_entries(s, p2, (count - 1) as nat, acc2, ega)
                            } else {
                                None
                            }
                        },
                        _ => None,
                    }
                }
            },
            None => None,
        }
    }
}

/// A whole palette table of the script: `{ (r,g,b), ...8... }`.
pub open spec fn spec_palette_table(s: Seq<char>, pos: int, ega: bool) -> Option<(Seq<u8>, int)> {
    match spec_next_token(s, pos) {
        Some((TokView::Symbol(c), p1)) => {
            if c == '{' {
                match spec_palette_entries(s, p1, 8, Seq::empty(), ega) {
                    Some((bytes, p2)) => match spec_next_token(s, p2) {
                        Some((TokView::Symbol(c2), p3)) => {
                            if c2 == '}' {
                                Some((bytes, p3))
                            } else {
                                None
                            }
                        },
                        _ => None,
                    },
                    None => None,
                }
            } else {
                None
            }
        },
        _ => None,
    }
}

/// The six tables of a palette block, as character sequences.
pub struct PalettesView {
    pub ega_custom: Seq<u8>,
    pub ega_standard: Seq<u8>,
    pub ega_preview: Seq<u8>,
    pub vga_custom: Seq<u8>,
    pub vga_standard: Seq<u8>,
    pub vga_preview: Seq<u8>,
}

/// The tables a palette value holds.
pub open spec fn palettes_view(p: Palettes) -> PalettesView {
    PalettesView {
        ega_custom: p.ega_custom@,
        ega_standard: p.ega_standard@,
        ega_preview: p.ega_preview@,
        vga_custom: p.vga_custom@,
        vga_standard: p.vga_standard@,
        vga_preview: p.vga_preview@,
    }
}

/// The all-zero palette block.
pub open spec fn zero_palettes_view() -> PalettesView {
    PalettesView {
        ega_custom: seq![0u8; 8],
        ega_standard: seq![0u8; 8],
        ega_preview: seq![0u8; 8],
        vga_custom: seq![0u8; 24],
        vga_standard: seq![0u8; 24],
        vga_preview: seq![0u8; 24],
    }
}

/// One `name = { ... }` entry of the palette block applied to the tables
/// built so far, or the block's closing brace; `None` on anything else.
pub open spec fn spec_palettes_entries(
    s: Seq<char>,
    pos: int,
    acc: PalettesView,
    fuel: nat,
) -> Option<(PalettesView, int)>
    decreases fuel,
{
    if fuel == 0 {
        None
    } else {
        match spec_next_token(s, pos) {
            None => None,
            Some((TokView::Symbol(c), p1)) => {
                if c == '}' {
                    Some((acc, p1))
                } else {
                    None
                }
            },
            Some((TokView::Ident(name), p1)) => match spec_next_token(s, p1) {
                Some((TokView::Symbol(eq), p2)) => {
                    if eq != '=' {
                        None
                    } else if name == "ega_custom"@ {
                        match spec_palette_table(s, p2, true) {
                            Some((t, p3)) => spec_palettes_entries(
                                s,
                                p3,
                                PalettesView { ega_custom: t, ..acc },
                                (fuel - 1) as nat,
                            ),
                            None => None,
                        }
                    } else if name == "ega_standard"@ {
                        match spec_palette_table(s, p2, true) {
                            Some((t, p3)) => spec_palettes_entries(
                                s,
                                p3,
                                PalettesView { ega_standard: t, ..acc },
                                (fuel - 1) as nat,
                            ),
                            None => None,
                        }
                    } else if name == "ega_preview"@ {
                        match spec_palette_table(s, p2, true) {
                            Some((t, p3)) => spec_palettes_entries(
                                s,
                                p3,
                                PalettesView { ega_preview: t, ..acc },
                                (fuel - 1) as nat,
                            ),
                            None => None,
                        }
                    } else if name == "vga_custom"@ {
                        match spec_palette_table(s, p2, false) {
                            Some((t, p3)) => spec_palettes_entries(
                                s,
                                p3,
                                PalettesView { vga_custom: t, ..acc },
                                (fuel - 1) as nat,
                            ),
                            None => None,
                        }
                    } else if name == "vga_standard"@ {
                        match spec_palette_table(s, p2, false) {
                            Some((t, p3)) => spec_palettes_entries(
                                s,
                                p3,
                                PalettesView { vga_standard: t, ..acc },
                                (fuel - 1) as nat,
                            ),
                            None => None,
                        }
                    } else if name == "vga_preview"@ {
                        match spec_palette_table(s, p2, false) {
                            Some((t, p3)) => spec_palettes_entries(
                                s,
                                p3,
                                PalettesView { vga_preview: t, ..acc },
                                (fuel - 1) as nat,
                            ),
                            None => None,
                        }
                    } else {
                        None
                    }
                },
                _ => None,
            },
            Some(_) => None,
        }
    }
}

/// A whole palette block: `{ name = { ... } ... }` applied to the all-zero
/// tables.
pub open spec fn spec_palettes_block(s: Seq<char>, pos: int) -> Option<(PalettesView, int)> {
    match spec_next_token(s, pos) {
        Some((TokView::Symbol(c), p1)) => {
            if c == '{' {
                spec_palettes_entries(s, p1, zero_palettes_view(), (s.len() + 1) as nat)
            } else {
                None
            }
        },
        _ => None,
    }
}

/// Parsing a palette-entry run moves strictly forward when it consumes
/// anything.
pub proof fn lemma_palette_entries_advances(
    s: Seq<char>,
    pos: int,
    count: nat,
    acc: Seq<u8>,
    ega: bool,
)
    requires
        0 <= pos <= s.len(),
        spec_palette_entries(s, pos, count, acc, ega) is Some,
    ensures
        pos <= spec_palette_entries(s, pos, count, acc, ega)->Some_0.1 <= s.len(),
        count > 0 ==> pos < spec_palette_entries(s, pos, count, acc, ega)->Some_0.1,
    decreases count,
{
    if count > 0 {
        lemma_paren_nums_advances(s, pos, 3);
        let (vs, p1) = spec_paren_nums(s, pos, 3)->Some_0;
        if count > 1 {
            lemma_next_token_advances(s, p1);
            let (tv, p2) = spec_next_token(s, p1)->Some_0;
            let acc2 = if ega {
                acc + seq![ega_pack(vs[0], vs[1], vs[2])]
            } else {
                acc + seq![trunc8(vs[0]), trunc8(vs[1]), trunc8(vs[2])]
            };
            lemma_palette_entries_advances(s, p2, (count - 1) as nat, acc2, ega);
        }
    }
}

/// Parsing a palette table moves strictly forward.
pub proof fn lemma_palette_table_advances(s: Seq<char>, pos: int, ega: bool)
    requires
        0 <= pos <= s.len(),
        spec_palette_table(s, pos, ega) is Some,
    ensures
        pos < spec_palette_table(s, pos, ega)->Some_0.1 <= s.len(),
{
    lemma_next_token_advances(s, pos);
    let (tv, p1) = spec_next_token(s, pos)->Some_0;
    lemma_palette_entries_advances(s, p1, 8, Seq::empty(), ega);
    let (t, p2) = spec_palette_entries(s, p1, 8, Seq::empty(), ega)->Some_0;
    lemma_next_token_advances(s, p2);
}

/// Past the remaining input's length, the fuel given to the palette-block
/// parser does not matter.
pub proof fn lemma_palettes_entries_fuel(
    s: Seq<char>,
    pos: int,
    acc: PalettesView,
    f1: nat,
    f2: nat,
)
    requires
        0 <= pos <= s.len(),
        f1 >= s.len() - pos + 1,
        f2 >= s.len() - pos + 1,
    ensures
        spec_palettes_entries(s, pos, acc, f1) == spec_palettes_entries(s, pos, acc, f2),
    decreases f1 + f2,
{
    match spec_next_token(s, pos) {
        None => {},
        Some((tv, p1)) => {
            lemma_next_token_advances(s, pos);
            match tv {
                TokView::Ident(name) => {
                    match spec_next_token(s, p1) {
                        Some((TokView::Symbol(eq), p2)) => {
                            lemma_next_token_advances(s, p1);
                            if eq != '=' {
                            } else if name == "ega_custom"@ {
                                if spec_palette_table(s, p2, true) is Some {
                                    let (t, p3) = spec_palette_table(s, p2, true)->Some_0;
                                    lemma_palette_table_advances(s, p2, true);
                                    lemma_palettes_entries_fuel(
                                        s,
                                        p3,
                                        PalettesView { ega_custom: t, ..acc },
                                        (f1 - 1) as nat,
                                        (f2 - 1) as nat,
                                    );
                                }
                            } else if name == "ega_standard"@ {
                                if spec_palette_table(s, p2, true) is Some {
                                    let (t, p3) = spec_palette_table(s, p2, true)->Some_0;
                                    lemma_palette_table_advances(s, p2, true);
                                    lemma_palettes_entries_fuel(
                                        s,
                                        p3,
                                        PalettesView { ega_standard: t, ..acc },
                                        (f1 - 1) as nat,
                                        (f2 - 1) as nat,
                                    );
                                }
                            } else if name == "ega_preview"@ {
                                if spec_palette_table(s, p2, true) is Some {
                                    let (t, p3) = spec_palette_table(s, p2, true)->Some_0;
                                    lemma_palette_table_advances(s, p2, true);
                                    lemma_palettes_entries_fuel(
                                        s,
                                        p3,
                                        PalettesView { ega_preview: t, ..acc },
                                        (f1 - 1) as nat,
                                        (f2 - 1) as nat,
                                    );
                                }
                            } else if name == "vga_custom"@ {
                                if spec_palette_table(s, p2, false) is Some {
                                    let (t, p3) = spec_palette_table(s, p2, false)->Some_0;
                                    lemma_palette_table_advances(s, p2, false);
                                    lemma_palettes_entries_fuel(
                                        s,
                                        p3,
                                        PalettesView { vga_custom: t, ..acc },
                                        (f1 - 1) as nat,
                                        (f2 - 1) as nat,
                                    );
                                }
                            } else if name == "vga_standard"@ {
                                if spec_palette_table(s, p2, false) is Some {
                                    let (t, p3) = spec_palette_table(s, p2, false)->Some_0;
                                    lemma_palette_table_advances(s, p2, false);
                                    lemma_palettes_entries_fuel(
                                        s,
                                        p3,
                                        PalettesView { vga_standard: t, ..acc },
                                        (f1 - 1) as nat,
                                        (f2 - 1) as nat,
                                    );
                                }
                            } else if name == "vga_preview"@ {
                                if spec_palette_table(s, p2, false) is Some {
                                    let (t, p3) = spec_palette_table(s, p2, false)->Some_0;
                                    lemma_palette_table_advances(s, p2, false);
                                    lemma_palettes_entries_fuel(
                                        s,
                                        p3,
                                        PalettesView { vga_preview: t, ..acc },
                                        (f1 - 1) as nat,
                                        (f2 - 1) as nat,
                                    );
                                }
                            }
                        },
                        _ => {},
                    }
                },
                _ => {},
            }
        },
    }
}

impl Palettes {
    /// Parse a palette block from the script: `{ name = { (r,g,b), ...8... },
    /// ... }` over the six table names.  EGA entries pack their two-bit
    /// channels into one byte; VGA entries keep three bytes.
    ///
    /// Succeeds exactly when the upcoming tokens form such a block, and
    /// then returns the tables the block describes (unnamed tables zero)
    /// and stands right after its closing brace.
    pub fn parse(lex: &mut Lexer<'_>) -> (r: Result<Palettes, LemError>)
        requires
            old(lex).wf(),
            old(lex).buffered() is None,
        ensures
            final(lex).wf(),
            final(lex).src() == old(lex).src(),
            r is Ok <==> spec_palettes_block(old(lex).src(), old(lex).pos()) is Some,
            r is Ok ==> ({
                let (pv, p) = spec_palettes_block(old(lex).src(), old(lex).pos())->Some_0;
                &&& palettes_view(r->Ok_0) == pv
                &&& r->Ok_0.wf()
                &&& final(lex).pos() == p
                &&& final(lex).buffered() is None
            }),
    {
        let ghost s = old(lex).src();
        let ghost p_start = old(lex).pos();
        let mut pal = Palettes::new_zeroed();
        let ghost s_open = *lex;
        let r_open = lex.expect_symbol('{');
        proof {
            lemma_advanced_input(s_open, *lex);
        }
        if r_open.is_err() {
            return Err(LemError::UnexpectedToken);
        }
        proof {
            lemma_next_token_advances(s, p_start);
            lemma_palettes_entries_fuel(
                s,
                lex.pos(),
                zero_palettes_view(),
                (s.len() + 1) as nat,
                (s.len() + 1 - lex.pos()) as nat,
            );
        }
        loop
            invariant_except_break
                spec_palettes_block(s, p_start) == spec_palettes_entries(
                    s,
                    lex.pos(),
                    palettes_view(pal),
                    (s.len() + 1 - lex.pos()) as nat,
                ),
            invariant
                lex.wf(),
                lex.src() == s,
                lex.buffered() is None,
                s == old(lex).src(),
                p_start == old(lex).pos(),
                pal.wf(),
            ensures
                lex.wf(),
                lex.src() == s,
                lex.buffered() is None,
                pal.wf(),
                spec_palettes_block(s, p_start) == Some((palettes_view(pal), lex.pos() as int)),
            decreases remaining_input(*lex),
        {
            let ghost entry = *lex;
            let ghost fuel_here = (s.len() + 1 - entry.pos()) as nat;
            let tok = lex.next_token();
            proof {
                if spec_next_token(s, entry.pos()) is Some {
                    lemma_next_token_advances(s, entry.pos());
                }
            }
            match tok {
                None => {
                    return Err(LemError::UnexpectedEnd);
                },
                Some(Token::Symbol(c)) => {
                    if c == '}' {
                        proof {
                            assert(spec_palettes_block(s, p_start) == Some((
                                palettes_view(pal),
                                lex.pos() as int,
                            )));
                        }
                        break;
                    }
                    return Err(LemError::UnexpectedToken);
                },
                Some(Token::Ident(var)) => {
                    let ghost before_eq = *lex;
                    let r_eq = lex.expect_symbol('=');
                    proof {
                        lemma_advanced_input(before_eq, *lex);
                        if peek_view(before_eq) is Some {
                            lemma_next_token_advances(s, before_eq.pos());
                        }
                    }
                    if r_eq.is_err() {
                        return Err(LemError::UnexpectedToken);
                    }
                    let ghost after_eq = *lex;
                    if str_eq(var, "ega_custom") {
                        match Self::parse_palette_table(lex, true) {
                            Ok(t) => {
                                proof {
                                    lemma_palette_table_advances(s, after_eq.pos(), true);
                                }
                                pal.ega_custom = t;
                            },
                            Err(e) => {
                                return Err(e);
                            },
                        }
                    } else if str_eq(var, "ega_standard") {
                        match Self::parse_palette_table(lex, true) {
                            Ok(t) => {
                                proof {
                                    lemma_palette_table_advances(s, after_eq.pos(), true);
                                }
                                pal.ega_standard = t;
                            },
                            Err(e) => {
                                return Err(e);
                            },
                        }
                    } else if str_eq(var, "ega_preview") {
                        match Self::parse_palette_table(lex, true) {
                            Ok(t) => {
                                proof {
                                    lemma_palette_table_advances(s, after_eq.pos(), true);
                                }
                                pal.ega_preview = t;
                            },
                            Err(e) => {
                                return Err(e);
                            },
                        }
                    } else if str_eq(var, "vga_custom") {
                        match Self::parse_palette_table(lex, false) {
                            Ok(t) => {
                                proof {
                                    lemma_palette_table_advances(s, after_eq.pos(), false);
                                }
                                pal.vga_custom = t;
                            },
                            Err(e) => {
                                return Err(e);
                            },
                        }
                    } else if str_eq(var, "vga_standard") {
                        match Self::parse_palette_table(lex, false) {
                            Ok(t) => {
                                proof {
                                    lemma_palette_table_advances(s, after_eq.pos(), false);
                                }
                                pal.vga_standard = t;
                            },
                            Err(e) => {
                                return Err(e);
                            },
                        }
                    } else if str_eq(var, "vga_preview") {
                        match Self::parse_palette_table(lex, false) {
                            Ok(t) => {
                                proof {
                                    lemma_palette_table_advances(s, after_eq.pos(), false);
                                }
                                pal.vga_preview = t;
                            },
                            Err(e) => {
                                return Err(e);
                            },
                        }
                    } else {
                        return Err(LemError::UnknownProperty);
                    }
                    proof {
                        lemma_palettes_entries_fuel(
                            s,
                            lex.pos(),
                            palettes_view(pal),
                            (fuel_here - 1) as nat,
                            (s.len() + 1 - lex.pos()) as nat,
                        );
                    }
                },
                Some(_) => {
                    return Err(LemError::UnexpectedToken);
                },
            }
        }
        Ok(pal)
    }

    /// Parse one palette table `{ (r,g,b), ...8... }`: eight packed EGA
    /// bytes, or 24 VGA bytes.
    ///
    /// Succeeds exactly when the upcoming tokens form such a table, and
    /// then returns its packed bytes and stands right after its closing
    /// brace.
    fn parse_palette_table(lex: &mut Lexer<'_>, ega: bool) -> (r: Result<Vec<u8>, LemError>)
        requires
            old(lex).wf(),
            old(lex).buffered() is None,
        ensures
            final(lex).wf(),
            final(lex).src() == old(lex).src(),
            final(lex).buffered() is None,
            remaining_input(*final(lex)) <= remaining_input(*old(lex)),
            r is Ok <==> spec_palette_table(old(lex).src(), old(lex).pos(), ega) is Some,
            r is Ok ==> ({
                let (t, p) = spec_palette_table(old(lex).src(), old(lex).pos(), ega)->Some_0;
                &&& r->Ok_0@ == t
                &&& r->Ok_0@.len() == (if ega { 8int } else { 24int })
                &&& final(lex).pos() == p
            }),
    {
        let ghost s = old(lex).src();
        let ghost p_start = old(lex).pos();
        let ghost s0 = *lex;
        let r0 = lex.expect_symbol('{');
        proof {
            lemma_advanced_input(s0, *lex);
        }
        if r0.is_err() {
            return Err(LemError::UnexpectedToken);
        }
        let ghost entries_pos = lex.pos();
        let mut out: Vec<u8> = Vec::new();
        let mut i: usize = 0;
        while i < 8
            invariant
                lex.wf(),
                lex.src() == s,
                lex.buffered() is None,
                s == old(lex).src(),
                p_start == old(lex).pos(),
                spec_next_token(s, p_start) == Some((TokView::Symbol('{'), entries_pos)),
                i <= 8,
                out@.len() == (if ega { 1int } else { 3int }) * i,
                remaining_input(*lex) <= remaining_input(*old(lex)),
                spec_palette_entries(s, entries_pos, 8, Seq::empty(), ega)
                    == spec_palette_entries(s, lex.pos(), (8 - i) as nat, out@, ega),
            decreases 8 - i,
        {
            let ghost b = *lex;
            let trip = match ObjectHeader::parse_quad_rgb(lex) {
                Ok(t) => t,
                Err(e) => {
                    return Err(e);
                },
            };
            let (red, green, blue) = trip;
            let ghost out_before = out@;
            if ega {
                out.push((red % 4) * 16 + (green % 4) * 4 + (blue % 4));
            } else {
                out.push(red);
                out.push(green);
                out.push(blue);
            }
            proof {
                lemma_paren_nums_advances(s, b.pos(), 3);
                let vs = spec_paren_nums(s, b.pos(), 3)->Some_0.0;
                if ega {
                    assert(out@ =~= out_before + seq![ega_pack(vs[0], vs[1], vs[2])]);
                } else {
                    assert(out@ =~= out_before + seq![trunc8(vs[0]), trunc8(vs[1]), trunc8(vs[2])]);
                }
            }
            if i < 7 {
                let ghost s1 = *lex;
                let rc = lex.expect_symbol(',');
                proof {
                    lemma_advanced_input(s1, *lex);
                }
                if rc.is_err() {
                    return Err(LemError::UnexpectedToken);
                }
            }
            i = i + 1;
        }
        let ghost s2 = *lex;
        let rb = lex.expect_symbol('}');
        proof {
            lemma_advanced_input(s2, *lex);
        }
        if rb.is_err() {
            return Err(LemError::UnexpectedToken);
        }
        Ok(out)
    }
}

impl ObjectHeader {
    /// Parse `( r , g , b )`, truncating each channel to a byte.
    ///
    /// Succeeds exactly when the upcoming tokens form a parenthesised
    /// triple of integer literals, and then returns their low bytes and
    /// stands right after the closing parenthesis.
    fn parse_quad_rgb(lex: &mut Lexer<'_>) -> (r: Result<(u8, u8, u8), LemError>)
        requires
            old(lex).wf(),
            old(lex).buffered() is None,
        ensures
            final(lex).wf(),
            final(lex).src() == old(lex).src(),
            final(lex).buffered() is None,
            remaining_input(*final(lex)) <= remaining_input(*old(lex)),
            r is Ok <==> spec_paren_nums(old(lex).src(), old(lex).pos(), 3) is Some,
            r is Ok ==> ({
                let (vs, p3) = spec_paren_nums(old(lex).src(), old(lex).pos(), 3)->Some_0;
                &&& r->Ok_0.0 == trunc8(vs[0])
                &&& r->Ok_0.1 == trunc8(vs[1])
                &&& r->Ok_0.2 == trunc8(vs[2])
                &&& final(lex).pos() == p3
            }),
    {
        let ghost s = old(lex).src();
        let ghost s0 = *lex;
        let r0 = lex.expect_symbol('(');
        proof {
            lemma_advanced_input(s0, *lex);
        }
        if r0.is_err() {
            return Err(LemError::UnexpectedToken);
        }
        let ghost s1 = *lex;
        let red = match lex.get_int_literal() {
            Ok(v) => v,
            Err(e) => {
                proof {
                    lemma_advanced_input(s1, *lex);
                }
                return Err(e);
            },
        };
        proof {
            lemma_advanced_input(s1, *lex);
        }
        let ghost s2 = *lex;
        let r1 = lex.expect_symbol(',');
        proof {
            lemma_advanced_input(s2, *lex);
        }
        if r1.is_err() {
            return Err(LemError::UnexpectedToken);
        }
        let ghost s3 = *lex;
        let green = match lex.get_int_literal() {
            Ok(v) => v,
            Err(e) => {
                proof {
                    lemma_advanced_input(s3, *lex);
                }
                return Err(e);
            },
        };
        proof {
            lemma_advanced_input(s3, *lex);
        }
        let ghost s4 = *lex;
        let r2 = lex.expect_symbol(',');
        proof {
            lemma_advanced_input(s4, *lex);
        }
        if r2.is_err() {
            return Err(LemError::UnexpectedToken);
        }
        let ghost s5 = *lex;
        let blue = match lex.get_int_literal() {
            Ok(v) => v,
            Err(e) => {
                proof {
                    lemma_advanced_input(s5, *lex);
                }
                return Err(e);
            },
        };
        proof {
            lemma_advanced_input(s5, *lex);
        }
        let ghost s6 = *lex;
        let r3 = lex.expect_symbol(')');
        proof {
            lemma_advanced_input(s6, *lex);
        }
        if r3.is_err() {
            return Err(LemError::UnexpectedToken);
        }
        proof {
            assert(spec_nums(s, s1.pos(), 3) is Some && spec_nums(s, s1.pos(), 3)->Some_0
                == (seq![red, green, blue], s6.pos())) by {
                assert(spec_nums(s, s5.pos(), 1) is Some);
                assert(spec_nums(s, s3.pos(), 2) is Some);
                assert(seq![green] + seq![blue] =~= seq![green, blue]);
                assert(seq![red] + seq![green, blue] =~= seq![red, green, blue]);
            }
        }
        Ok((trunc8_exec(red), trunc8_exec(green), trunc8_exec(blue)))
    }
}

} // verus!
