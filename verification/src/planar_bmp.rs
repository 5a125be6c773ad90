//! The planar bitmap engine: a width x height image stored as up to eight
//! overlaid 1-bpp planes, plane-major, each row `pitch = ceil(width/8)` bytes
//! with the high bit leftmost.  The packed value of a pixel concatenates its
//! per-plane bits, plane 0 lowest.
#![allow(unused_imports)]
use vstd::prelude::*;

use crate::LemError;
use crate::binary_io::{
    ByteReader, le16_bytes, le32_bytes, read_le16, read_le32, u16_from, write_le16, write_le32,
};
use crate::bitmath::{
    lemma_pow2_increases, lemma_pow2_values, lemma_u8_bit_update, lemma_u8_mod_split, pow2,
};

verus! {

/// Bit position of pixel column `x` within its plane byte (high bit leftmost).
pub open spec fn bit_pos(x: int) -> u8 {
    (7 - (x % 8)) as u8
}

/// Bit `p` of a packed pixel value.
pub open spec fn value_bit(v: u8, p: int) -> u8 {
    (v >> (p as u8)) & 1
}

/// In a `w` x `h` row-major grid, `(x, y)` names the cell `y * w + x`, and
/// that cell lies within the grid.
pub proof fn lemma_row_major_bound(w: int, h: int, x: int, y: int)
    requires
        0 <= x,
        0 <= w,
        0 <= y <= h,
    ensures
        0 <= y * w,
        y * w <= h * w,
        y * w <= w * h,
        y < h ==> y * w + w <= h * w && y * w + w <= w * h,
        y < h && x < w ==> (y * w + x) / w == y && (y * w + x) % w == x && y * w + x < h * w && y
            * w + x < w * h,
{
    vstd::arithmetic::mul::lemma_mul_nonnegative(y, w);
    vstd::arithmetic::mul::lemma_mul_inequality(y, h, w);
    vstd::arithmetic::mul::lemma_mul_is_commutative(h, w);
    if y < h {
        vstd::arithmetic::mul::lemma_mul_inequality(y + 1, h, w);
        vstd::arithmetic::mul::lemma_mul_is_distributive_add(w, y, 1);
        vstd::arithmetic::mul::lemma_mul_is_commutative(y + 1, w);
        vstd::arithmetic::mul::lemma_mul_is_commutative(y, w);
        assert(y * w + w == (y + 1) * w);
        if x < w {
            vstd::arithmetic::div_mod::lemma_fundamental_div_mod_converse(y * w + x, w, y, x);
        }
    }
}

/// A planar bitmap: `planes` overlaid 1-bpp images and a raw `RGBQUAD`
/// palette, exactly as a graphics set stores them.
pub struct PlanarBMP {
    pub width: usize,
    pub height: usize,
    pub pitch: usize,
    pub planes: usize,
    pub data: Vec<u8>,
    pub palette: Vec<u8>,
}

impl PlanarBMP {
    /// Bytes of one plane.
    pub open spec fn plane_size(self) -> int {
        self.pitch * self.height
    }

    /// The shape invariant: at most eight planes, a pitch of `ceil(width/8)`
    /// bytes, and exactly `pitch * height` bytes for each plane.
    pub open spec fn wf(self) -> bool {
        &&& self.planes <= 8
        &&& self.pitch == (self.width + 7) / 8
        &&& self.data@.len() == self.plane_size() * self.planes
        &&& self.plane_size() <= usize::MAX
        &&& self.data@.len() <= usize::MAX
    }

    /// Index of the byte holding the bit of pixel `(x, y)` in plane `plane`.
    pub open spec fn byte_index(self, plane: int, x: int, y: int) -> int {
        plane * self.plane_size() + y * self.pitch + x / 8
    }

    /// The bit of pixel `(x, y)` in plane `plane` (0 or 1).
    pub open spec fn plane_bit(self, plane: int, x: int, y: int) -> u8 {
        (self.data@[self.byte_index(plane, x, y)] >> bit_pos(x)) & 1
    }

    /// The packed value of the bits of planes `0 .. p` at `(x, y)`.
    pub open spec fn packed_prefix(self, x: int, y: int, p: nat) -> nat
        decreases p,
    {
        if p == 0 {
            0
        } else {
            self.packed_prefix(x, y, (p - 1) as nat) + (self.plane_bit((p - 1) as int, x, y) as nat)
                * pow2((p - 1) as nat)
        }
    }

    /// The packed pixel value at `(x, y)`: bit `p` comes from plane `p`.
    pub open spec fn pixel(self, x: int, y: int) -> nat {
        self.packed_prefix(x, y, self.planes as nat)
    }

    /// The byte index of an in-range pixel lies within the data buffer.
    pub proof fn lemma_byte_index_bound(self, plane: int, x: int, y: int)
        by (nonlinear_arith)
        requires
            self.wf(),
            0 <= plane < self.planes,
            0 <= x < self.width,
            0 <= y < self.height,
        ensures
            0 <= plane * self.plane_size(),
            0 <= y * self.pitch,
            plane * self.plane_size() + y * self.pitch + x / 8 < self.data@.len(),
    {
    }

    /// Two in-range pixel coordinates that live in the same byte share the
    /// plane, the row, and the byte column.
    pub proof fn lemma_byte_index_injective(self, p1: int, x1: int, y1: int, p2: int, x2: int, y2: int)
        by (nonlinear_arith)
        requires
            self.wf(),
            0 <= p1 < self.planes,
            0 <= x1 < self.width,
            0 <= y1 < self.height,
            0 <= p2 < self.planes,
            0 <= x2 < self.width,
            0 <= y2 < self.height,
            self.byte_index(p1, x1, y1) == self.byte_index(p2, x2, y2),
        ensures
            p1 == p2,
            y1 == y2,
            x1 / 8 == x2 / 8,
    {
    }

    /// A packed prefix of `p` planes is below two to the `p`.
    pub proof fn lemma_packed_prefix_bound(self, x: int, y: int, p: nat)
        ensures
            self.packed_prefix(x, y, p) < pow2(p),
        decreases p,
    {
        if p > 0 {
            self.lemma_packed_prefix_bound(x, y, (p - 1) as nat);
            let b: u8 = self.data@[self.byte_index((p - 1) as int, x, y)];
            let s: u8 = bit_pos(x);
            assert((b >> s) & 1 <= 1) by (bit_vector);
            assert(self.plane_bit((p - 1) as int, x, y) == 0 || self.plane_bit(
                (p - 1) as int,
                x,
                y,
            ) == 1);
        }
    }

    /// Every packed pixel value is below two to the number of planes.
    pub proof fn lemma_pixel_bound(self, x: int, y: int)
        ensures
            self.pixel(x, y) < pow2(self.planes as nat),
    {
        self.lemma_packed_prefix_bound(x, y, self.planes as nat);
    }

    /// Pixels whose per-plane bits agree in two bitmaps agree packed.
    pub proof fn lemma_pixel_congruence(self, other: PlanarBMP, x: int, y: int, p: nat)
        requires
            forall|q: int| 0 <= q < p ==> self.plane_bit(q, x, y) == other.plane_bit(q, x, y),
        ensures
            self.packed_prefix(x, y, p) == other.packed_prefix(x, y, p),
        decreases p,
    {
        if p > 0 {
            self.lemma_pixel_congruence(other, x, y, (p - 1) as nat);
        }
    }

    /// A pixel whose per-plane bits are the bits of `v` packs to `v` reduced
    /// by two to the number of planes.
    pub proof fn lemma_pixel_of_value(self, x: int, y: int, v: u8, p: nat)
        requires
            p <= 8,
            forall|q: int| 0 <= q < p ==> self.plane_bit(q, x, y) == value_bit(v, q),
        ensures
            self.packed_prefix(x, y, p) == (v as nat) % pow2(p),
        decreases p,
    {
        lemma_pow2_values();
        if p == 0 {
            assert((v as nat) % 1 == 0);
        } else {
            let k = (p - 1) as nat;
            self.lemma_pixel_of_value(x, y, v, k);
            lemma_u8_mod_split(v, k);
            assert(self.plane_bit(k as int, x, y) == value_bit(v, k as int));
            assert(value_bit(v, k as int) == (v >> (k as u8)) & 1);
        }
    }

    /// Create a cleared bitmap of the given shape.
    pub fn new(width: usize, height: usize, planes: usize, palette: Vec<u8>) -> (r: PlanarBMP)
        requires
            planes <= 8,
            width + 7 <= usize::MAX,
            ((width + 7) / 8) * height * planes <= usize::MAX,
            ((width + 7) / 8) * height <= usize::MAX,
        ensures
            r.wf(),
            r.width == width,
            r.height == height,
            r.planes == planes,
            r.palette@ == palette@,
            r.data@.len() == ((width + 7) / 8) * height * planes,
            forall|i: int| 0 <= i < r.data@.len() ==> r.data@[i] == 0u8,
    {
        let pitch = (width + 7) / 8;
        proof {
            assert(pitch * height * planes <= usize::MAX && pitch * height <= usize::MAX);
        }
        let plane_size = pitch * height;
        PlanarBMP { width, height, pitch, planes, data: vec![0u8; plane_size * planes], palette }
    }

    /// Wrap existing plane-major data (for slices cut out of a decompressed
    /// section) in a bitmap of the given shape.
    pub fn from_contiguous_data(
        data: &Vec<u8>,
        width: usize,
        height: usize,
        planes: usize,
        palette: Vec<u8>,
    ) -> (r: PlanarBMP)
        requires
            planes <= 8,
            width + 7 <= usize::MAX,
            data@.len() == ((width + 7) / 8) * height * planes,
            ((width + 7) / 8) * height <= usize::MAX,
        ensures
            r.wf(),
            r.width == width,
            r.height == height,
            r.planes == planes,
            r.palette@ == palette@,
            r.data@ == data@,
    {
        let pitch = (width + 7) / 8;
        PlanarBMP { width, height, pitch, planes, data: data.clone(), palette }
    }

    /// Gather the packed value of pixel `(x, y)` across the planes.
    pub fn get_packed_pixel(&self, x: usize, y: usize) -> (r: u8)
        requires
            self.wf(),
            x < self.width,
            y < self.height,
        ensures
            r as nat == self.pixel(x as int, y as int),
            (r as nat) < pow2(self.planes as nat),
    {
        let plane_sz: usize = self.pitch * self.height;
        let mut val: u8 = 0;
        let mut weight: u8 = 1;
        let mut plane: usize = 0;
        proof {
            lemma_pow2_values();
        }
        while plane < self.planes
            invariant
                self.wf(),
                x < self.width,
                y < self.height,
                plane <= self.planes,
                plane_sz == self.plane_size(),
                val as nat == self.packed_prefix(x as int, y as int, plane as nat),
                plane < 8 ==> weight as nat == pow2(plane as nat),
            decreases self.planes - plane,
        {
            proof {
                self.lemma_byte_index_bound(plane as int, x as int, y as int);
                self.lemma_packed_prefix_bound(x as int, y as int, plane as nat);
                lemma_pow2_increases(plane as nat, 7);
                lemma_pow2_values();
            }
            let ghost k = plane as nat;
            let idx: usize = plane * plane_sz + y * self.pitch + x / 8;
            let byte: u8 = self.data[idx];
            let s: u8 = (7 - (x % 8)) as u8;
            proof {
                assert(idx == self.byte_index(plane as int, x as int, y as int));
                assert(s == bit_pos(x as int));
                assert((byte >> s) & 1 == 0 || (byte >> s) & 1 == 1) by (bit_vector);
                assert(self.plane_bit(k as int, x as int, y as int) == (byte >> s) & 1);
                assert(self.packed_prefix(x as int, y as int, k + 1) == self.packed_prefix(
                    x as int,
                    y as int,
                    k,
                ) + (self.plane_bit(k as int, x as int, y as int) as nat) * pow2(k));
                if k <= 6 {
                    lemma_pow2_increases(k, 6);
                }
            }
            if ((byte >> s) & 1) == 1 {
                val = val + weight;
            }
            if plane + 1 < 8 {
                weight = weight * 2;
            }
            plane = plane + 1;
            proof {
                let bit = self.plane_bit(k as int, x as int, y as int);
                if bit == 1 {
                    assert((bit as nat) * pow2(k) == pow2(k)) by (nonlinear_arith)
                        requires
                            bit == 1,
                    ;
                } else {
                    assert(bit == 0);
                    assert((bit as nat) * pow2(k) == 0) by (nonlinear_arith)
                        requires
                            bit == 0,
                    ;
                }
                assert(val as nat == self.packed_prefix(x as int, y as int, k + 1));
            }
        }
        proof {
            self.lemma_pixel_bound(x as int, y as int);
        }
        val
    }

    /// The 8-bit indexed form: one byte per pixel, top-down, row-major.
    pub open spec fn pal8_seq(self) -> Seq<u8> {
        Seq::new(
            (self.width * self.height) as nat,
            |i: int| (self.pixel(i % (self.width as int), i / (self.width as int)) % 256) as u8,
        )
    }

    /// Emit one byte per pixel, top-down, row-major.
    pub fn to_pal8_data(&self) -> (r: Vec<u8>)
        requires
            self.wf(),
            self.width * self.height <= usize::MAX,
        ensures
            r@.len() == self.width * self.height,
            r@ == self.pal8_seq(),
            forall|x: int, y: int|
                0 <= x < self.width && 0 <= y < self.height ==> r@[y * self.width + x] as nat
                    == self.pixel(x, y),
    {
        let mut out: Vec<u8> = Vec::new();
        let mut y: usize = 0;
        while y < self.height
            invariant
                self.wf(),
                self.width * self.height <= usize::MAX,
                y <= self.height,
                out@.len() == y * self.width,
                forall|i: int| 0 <= i < out@.len() ==> out@[i] == self.pal8_seq()[i],
            decreases self.height - y,
        {
            let mut x: usize = 0;
            while x < self.width
                invariant
                    self.wf(),
                    self.width * self.height <= usize::MAX,
                    y < self.height,
                    x <= self.width,
                    out@.len() == y * self.width + x,
                    forall|i: int| 0 <= i < out@.len() ==> out@[i] == self.pal8_seq()[i],
                decreases self.width - x,
            {
                proof {
                    lemma_row_major_bound(self.width as int, self.height as int, x as int, y as int);
                    self.lemma_pixel_bound(x as int, y as int);
                    lemma_pow2_increases(self.planes as nat, 8);
                    lemma_pow2_values();
                    assert(0 <= y * self.width + x < self.width * self.height);
                    assert(self.pal8_seq()[y * self.width + x] == (self.pixel(x as int, y as int)
                        % 256) as u8);
                }
                let px = self.get_packed_pixel(x, y);
                out.push(px);
                x = x + 1;
            }
            y = y + 1;
            proof {
                assert((y - 1) * self.width + self.width == y * self.width) by (nonlinear_arith);
            }
        }
        proof {
            assert((self.height as int) * (self.width as int) == (self.width as int) * (
            self.height as int)) by (nonlinear_arith);
            assert(out@ =~= self.pal8_seq());
            assert forall|x: int, y: int|
                0 <= x < self.width && 0 <= y < self.height implies out@[y * self.width + x] as nat
                == self.pixel(x, y) by {
                lemma_row_major_bound(self.width as int, self.height as int, x, y);
                self.lemma_pixel_bound(x, y);
                lemma_pow2_increases(self.planes as nat, 8);
                lemma_pow2_values();
            }
        }
        out
    }

    /// Copy every pixel of `src` into `self` with its top-left corner at
    /// `(x, y)`.  Pixels outside the copied rectangle keep their values.
    pub fn blit(&mut self, src: &PlanarBMP, x: usize, y: usize)
        requires
            old(self).wf(),
            src.wf(),
            src.planes == old(self).planes,
            src.width + x <= old(self).width,
            src.height + y <= old(self).height,
        ensures
            final(self).wf(),
            final(self).width == old(self).width,
            final(self).height == old(self).height,
            final(self).pitch == old(self).pitch,
            final(self).planes == old(self).planes,
            final(self).palette@ == old(self).palette@,
            forall|sx: int, sy: int|
                0 <= sx < src.width && 0 <= sy < src.height ==> final(self).pixel(x + sx, y + sy)
                    == src.pixel(sx, sy),
            forall|x2: int, y2: int|
                0 <= x2 < final(self).width && 0 <= y2 < final(self).height && !(x <= x2 < x
                    + src.width && y <= y2 < y + src.height) ==> final(self).pixel(x2, y2) == old(
                    self,
                ).pixel(x2, y2),
    {
        let mut sy: usize = 0;
        while sy < src.height
            invariant
                self.wf(),
                src.wf(),
                src.planes == self.planes,
                src.width + x <= self.width,
                src.height + y <= self.height,
                sy <= src.height,
                self.width == old(self).width,
                self.height == old(self).height,
                self.pitch == old(self).pitch,
                self.planes == old(self).planes,
                self.palette@ == old(self).palette@,
                forall|sx2: int, sy2: int|
                    0 <= sx2 < src.width && 0 <= sy2 < sy ==> self.pixel(x + sx2, y + sy2)
                        == src.pixel(sx2, sy2),
                forall|x2: int, y2: int|
                    0 <= x2 < self.width && 0 <= y2 < self.height && !(x <= x2 < x + src.width && y
                        <= y2 < y + sy) ==> self.pixel(x2, y2) == old(self).pixel(x2, y2),
            decreases src.height - sy,
        {
            let mut sx: usize = 0;
            while sx < src.width
                invariant
                    self.wf(),
                    src.wf(),
                    src.planes == self.planes,
                    src.width + x <= self.width,
                    src.height + y <= self.height,
                    sy < src.height,
                    sx <= src.width,
                    self.width == old(self).width,
                    self.height == old(self).height,
                    self.pitch == old(self).pitch,
                    self.planes == old(self).planes,
                    self.palette@ == old(self).palette@,
                    forall|sx2: int, sy2: int|
                        0 <= sx2 < src.width && 0 <= sy2 < sy ==> self.pixel(x + sx2, y + sy2)
                            == src.pixel(sx2, sy2),
                    forall|sx2: int| 0 <= sx2 < sx ==> self.pixel(x + sx2, y + sy) == src.pixel(
                        sx2,
                        sy as int,
                    ),
                    forall|x2: int, y2: int|
                        0 <= x2 < self.width && 0 <= y2 < self.height && !(x <= x2 < x + src.width
                            && y <= y2 < y + sy) && !(x <= x2 < x + sx && y2 == y + sy) ==> self
                            .pixel(x2, y2) == old(self).pixel(x2, y2),
                decreases src.width - sx,
            {
                let v = src.get_packed_pixel(sx, sy);
                proof {
                    src.lemma_pixel_bound(sx as int, sy as int);
                }
                self.pset(x + sx, y + sy, v);
                proof {
                    vstd::arithmetic::div_mod::lemma_small_mod(
                        v as nat,
                        pow2(self.planes as nat),
                    );
                }
                sx = sx + 1;
            }
            sy = sy + 1;
        }
    }

    /// Write the packed value `value` to pixel `(x, y)`: plane `p` takes bit
    /// `p` of `value`.  No other pixel changes.
    pub fn pset(&mut self, x: usize, y: usize, value: u8)
        requires
            old(self).wf(),
            x < old(self).width,
            y < old(self).height,
        ensures
            final(self).wf(),
            final(self).width == old(self).width,
            final(self).height == old(self).height,
            final(self).pitch == old(self).pitch,
            final(self).planes == old(self).planes,
            final(self).palette@ == old(self).palette@,
            final(self).data@.len() == old(self).data@.len(),
            forall|p: int|
                0 <= p < final(self).planes ==> final(self).plane_bit(p, x as int, y as int)
                    == value_bit(value, p),
            forall|p: int, x2: int, y2: int|
                0 <= p < final(self).planes && 0 <= x2 < final(self).width
                    && 0 <= y2 < final(self).height && !(x2 == x && y2 == y)
                    ==> final(self).plane_bit(p, x2, y2) == old(self).plane_bit(p, x2, y2),
            final(self).pixel(x as int, y as int) == (value as nat) % pow2(
                final(self).planes as nat,
            ),
            forall|x2: int, y2: int|
                0 <= x2 < final(self).width && 0 <= y2 < final(self).height && !(x2 == x && y2
                    == y) ==> final(self).pixel(x2, y2) == old(self).pixel(x2, y2),
    {
        let plane_sz: usize = self.pitch * self.height;
        let mut plane: usize = 0;
        while plane < self.planes
            invariant
                self.wf(),
                x < self.width,
                y < self.height,
                plane <= self.planes,
                plane_sz == self.plane_size(),
                self.width == old(self).width,
                self.height == old(self).height,
                self.pitch == old(self).pitch,
                self.planes == old(self).planes,
                self.palette@ == old(self).palette@,
                self.data@.len() == old(self).data@.len(),
                forall|p: int|
                    0 <= p < plane ==> self.plane_bit(p, x as int, y as int) == value_bit(value, p),
                forall|p: int|
                    plane <= p < self.planes ==> self.plane_bit(p, x as int, y as int) == old(
                        self,
                    ).plane_bit(p, x as int, y as int),
                forall|p: int, x2: int, y2: int|
                    0 <= p < self.planes && 0 <= x2 < self.width && 0 <= y2 < self.height && !(x2
                        == x && y2 == y) ==> self.plane_bit(p, x2, y2) == old(self).plane_bit(
                        p,
                        x2,
                        y2,
                    ),
            decreases self.planes - plane,
        {
            proof {
                self.lemma_byte_index_bound(plane as int, x as int, y as int);
            }
            let idx: usize = plane * plane_sz + y * self.pitch + x / 8;
            let s: u8 = (7 - (x % 8)) as u8;
            let mask: u8 = 1u8 << s;
            let b: u8 = self.data[idx];
            let set_bit: bool = ((value >> (plane as u8)) & 1) == 1;
            let nb: u8 = if set_bit {
                b | mask
            } else {
                b & !mask
            };
            let ghost prev = *self;
            self.data[idx] = nb;
            proof {
                assert forall|t: u8| t < 8 implies (t != s ==> ((nb >> t) & 1 == (b >> t) & 1)) && (
                t == s ==> (nb >> t) & 1 == (if set_bit {
                    1u8
                } else {
                    0u8
                })) by {
                    lemma_u8_bit_update(b, s, t);
                }
                assert(idx == prev.byte_index(plane as int, x as int, y as int));
                assert(s == bit_pos(x as int));
                assert(self.data@ == prev.data@.update(idx as int, nb));
                let pb: u8 = plane as u8;
                assert(((value >> pb) & 1) == 0 || ((value >> pb) & 1) == 1) by (bit_vector);
                assert(self.plane_bit(plane as int, x as int, y as int) == (nb >> s) & 1);
                assert(self.plane_bit(plane as int, x as int, y as int) == value_bit(
                    value,
                    plane as int,
                ));
                assert forall|p: int, x2: int, y2: int|
                    0 <= p < self.planes && 0 <= x2 < self.width && 0 <= y2 < self.height && !(p
                        == plane && x2 == x && y2 == y) implies self.plane_bit(p, x2, y2)
                    == prev.plane_bit(p, x2, y2) by {
                    prev.lemma_byte_index_bound(p, x2, y2);
                    if prev.byte_index(p, x2, y2) == idx {
                        prev.lemma_byte_index_injective(
                            p,
                            x2,
                            y2,
                            plane as int,
                            x as int,
                            y as int,
                        );
                        assert(x2 % 8 != x % 8) by {
                            assert(x2 / 8 == x as int / 8 && x2 != x);
                        }
                        assert(bit_pos(x2) != s && bit_pos(x2) < 8);
                        assert((nb >> bit_pos(x2)) & 1 == (b >> bit_pos(x2)) & 1);
                    } else {
                        assert(self.data@[prev.byte_index(p, x2, y2)] == prev.data@[prev.byte_index(
                            p,
                            x2,
                            y2,
                        )]);
                    }
                }
            }
            plane = plane + 1;
        }
        proof {
            self.lemma_pixel_of_value(x as int, y as int, value, self.planes as nat);
            assert forall|x2: int, y2: int|
                0 <= x2 < self.width && 0 <= y2 < self.height && !(x2 == x && y2 == y) implies self
                .pixel(x2, y2) == old(self).pixel(x2, y2) by {
                self.lemma_pixel_congruence(*old(self), x2, y2, self.planes as nat);
            }
        }
    }
}

impl PlanarBMP {
    /// The packed 1-bpp form of a rectangle of one plane: `ceil(w/8)` bytes
    /// per row, high bit leftmost, padding bits zero.  Bit `c` of row `row`
    /// is the plane's bit at `(x0 + c, y0 + row)`.
    pub open spec fn region_bit(self, plane: int, x0: int, y0: int, w: int, row: int, c: int) -> u8 {
        if c < w {
            self.plane_bit(plane, x0 + c, y0 + row)
        } else {
            0
        }
    }

    /// Extract a rectangle of one plane as packed 1-bpp rows.
    pub fn get_plane_data(&self, plane: usize, x0: usize, y0: usize, w: usize, h: usize) -> (r:
        Vec<u8>)
        requires
            self.wf(),
            plane < self.planes,
            x0 + w <= self.width,
            y0 + h <= self.height,
            w + 7 <= usize::MAX,
            ((w + 7) / 8) * h <= usize::MAX,
        ensures
            r@.len() == ((w + 7) / 8) * h,
            forall|row: int, c: int|
                0 <= row < h && 0 <= c < ((w + 7) / 8) * 8 ==> ({
                    let byte = r@[row * ((w + 7) / 8) + c / 8];
                    ((byte >> bit_pos(c)) & 1) == #[trigger] self.region_bit(
                        plane as int,
                        x0 as int,
                        y0 as int,
                        w as int,
                        row,
                        c,
                    )
                }),
    {
        let row_bytes: usize = (w + 7) / 8;
        let mut out: Vec<u8> = Vec::new();
        let mut row: usize = 0;
        while row < h
            invariant
                self.wf(),
                plane < self.planes,
                x0 + w <= self.width,
                y0 + h <= self.height,
                row_bytes == (w + 7) / 8,
                row_bytes * h <= usize::MAX,
                row <= h,
                out@.len() == row_bytes * row,
                forall|r2: int, c: int|
                    0 <= r2 < row && 0 <= c < row_bytes * 8 ==> ({
                        let byte = out@[r2 * (row_bytes as int) + c / 8];
                        ((byte >> bit_pos(c)) & 1) == #[trigger] self.region_bit(
                            plane as int,
                            x0 as int,
                            y0 as int,
                            w as int,
                            r2,
                            c,
                        )
                    }),
            decreases h - row,
        {
            proof {
                lemma_row_major_bound(row_bytes as int, h as int, 0, row as int);
            }
            let mut bi: usize = 0;
            while bi < row_bytes
                invariant
                    self.wf(),
                    plane < self.planes,
                    x0 + w <= self.width,
                    y0 + h <= self.height,
                    row_bytes == (w + 7) / 8,
                    row_bytes * h <= usize::MAX,
                    row < h,
                    bi <= row_bytes,
                    out@.len() == row_bytes * row + bi,
                    forall|r2: int, c: int|
                        0 <= r2 < row && 0 <= c < row_bytes * 8 ==> ({
                            let byte = out@[r2 * (row_bytes as int) + c / 8];
                            ((byte >> bit_pos(c)) & 1) == #[trigger] self.region_bit(
                                plane as int,
                                x0 as int,
                                y0 as int,
                                w as int,
                                r2,
                                c,
                            )
                        }),
                    forall|c: int|
                        0 <= c < bi * 8 ==> ({
                            let byte = out@[row * (row_bytes as int) + c / 8];
                            ((byte >> bit_pos(c)) & 1) == #[trigger] self.region_bit(
                                plane as int,
                                x0 as int,
                                y0 as int,
                                w as int,
                                row as int,
                                c,
                            )
                        }),
                decreases row_bytes - bi,
            {
                let mut byte: u8 = 0;
                let mut b: usize = 0;
                // Pack eight bits, high bit first; columns past the width
                // contribute zeros.
                while b < 8
                    invariant
                        self.wf(),
                        plane < self.planes,
                        x0 + w <= self.width,
                        y0 + h <= self.height,
                        row_bytes == (w + 7) / 8,
                        row < h,
                        bi < row_bytes,
                        b <= 8,
                        forall|t: int|
                            0 <= t < b ==> ((byte >> ((b - 1 - t) as u8)) & 1) == #[trigger] self.region_bit(
                                plane as int,
                                x0 as int,
                                y0 as int,
                                w as int,
                                row as int,
                                bi * 8 + t,
                            ),
                    decreases 8 - b,
                {
                    let c = bi * 8 + b;
                    let bit: u8 = if c < w {
                        proof {
                            self.lemma_byte_index_bound(plane as int, x0 + c, y0 + row);
                        }
                        let plane_sz: usize = self.pitch * self.height;
                        let idx: usize = plane * plane_sz + (y0 + row) * self.pitch + (x0 + c) / 8;
                        let s: u8 = (7 - ((x0 + c) % 8)) as u8;
                        let v = self.data[idx];
                        proof {
                            assert(((v >> s) & 1) <= 1) by (bit_vector);
                        }
                        (v >> s) & 1
                    } else {
                        0
                    };
                    let ghost ob = byte;
                    let ghost bb = b as nat;
                    proof {
                        crate::dat_section::lemma_byte_append_bit(ob, bit, bb);
                    }
                    byte = (byte << 1) | bit;
                    b = b + 1;
                    proof {
                        assert forall|t: int| 0 <= t < b implies ((byte >> ((b - 1 - t) as u8) as u8)
                            & 1) == #[trigger] self.region_bit(
                            plane as int,
                            x0 as int,
                            y0 as int,
                            w as int,
                            row as int,
                            (bi * 8 + t) as int,
                        ) by {
                            assert(crate::dat_section::byte_bits_msb(byte, bb + 1)[t] == ((byte >> ((
                            bb + 1 - 1 - t) as u8)) & 1));
                            if t < bb {
                                assert(crate::dat_section::byte_bits_msb(ob, bb)[t] == ((ob >> ((bb
                                    - 1 - t) as u8)) & 1));
                            }
                        }
                    }
                }
                out.push(byte);
                bi = bi + 1;
                proof {
                    assert(row * (row_bytes as int) == (row_bytes as int) * (row as int))
                        by (nonlinear_arith);
                    assert(0 <= row * (row_bytes as int)) by (nonlinear_arith)
                        requires
                            row >= 0,
                            row_bytes >= 0,
                    ;
                    assert forall|r2: int, c: int|
                        0 <= r2 < row && 0 <= c < row_bytes * 8 implies ({
                        let byv = out@[r2 * (row_bytes as int) + c / 8];
                        ((byv >> bit_pos(c)) & 1) == #[trigger] self.region_bit(
                            plane as int,
                            x0 as int,
                            y0 as int,
                            w as int,
                            r2,
                            c,
                        )
                    }) by {
                        assert(0 <= c / 8 < row_bytes) by (nonlinear_arith)
                            requires
                                0 <= c < row_bytes * 8,
                        ;
                        assert(0 <= r2 * (row_bytes as int) && r2 * (row_bytes as int) + c / 8
                            < (row_bytes as int) * (row as int)) by (nonlinear_arith)
                            requires
                                0 <= r2 < row,
                                0 <= c / 8 < row_bytes,
                        ;
                        assert((row_bytes as int) * (row as int) <= out@.len() - 1);
                    }
                    assert forall|c: int|
                        0 <= c < bi * 8 implies ({
                        let byv = out@[row * (row_bytes as int) + c / 8];
                        ((byv >> bit_pos(c)) & 1) == #[trigger] self.region_bit(
                            plane as int,
                            x0 as int,
                            y0 as int,
                            w as int,
                            row as int,
                            c,
                        )
                    }) by {
                        if c >= (bi - 1) * 8 {
                            assert(c / 8 == bi - 1 && c % 8 == c - (bi - 1) * 8) by (nonlinear_arith)
                                requires
                                    (bi - 1) * 8 <= c < bi * 8,
                            ;
                            assert(out@[row * (row_bytes as int) + c / 8] == byte);
                            let t = c - (bi - 1) * 8;
                            assert(bit_pos(c) == (7 - t) as u8);
                            assert(((byte >> ((8 - 1 - t) as u8)) & 1) == self.region_bit(
                                plane as int,
                                x0 as int,
                                y0 as int,
                                w as int,
                                row as int,
                                (bi - 1) * 8 + t,
                            ));
                            assert((bi - 1) * 8 + t == c);
                        } else {
                            assert(0 <= c / 8 < bi - 1) by (nonlinear_arith)
                                requires
                                    0 <= c < (bi - 1) * 8,
                            ;
                            assert(row * (row_bytes as int) + c / 8 < out@.len() - 1);
                        }
                    }
                }
            }
            row = row + 1;
            proof {
                assert((row - 1) * row_bytes + row_bytes == row * row_bytes) by (nonlinear_arith);
                assert(row * (row_bytes as int) == (row_bytes as int) * (row as int))
                    by (nonlinear_arith);
                assert forall|r2: int, c: int|
                    0 <= r2 < row && 0 <= c < row_bytes * 8 implies ({
                    let byv = out@[r2 * (row_bytes as int) + c / 8];
                    ((byv >> bit_pos(c)) & 1) == #[trigger] self.region_bit(
                        plane as int,
                        x0 as int,
                        y0 as int,
                        w as int,
                        r2,
                        c,
                    )
                }) by {
                    assert(0 <= c / 8 < row_bytes) by (nonlinear_arith)
                        requires
                            0 <= c < row_bytes * 8,
                    ;
                    assert(0 <= r2 * (row_bytes as int) && r2 * (row_bytes as int) + c / 8
                        < out@.len()) by (nonlinear_arith)
                        requires
                            0 <= r2 < row,
                            0 <= c / 8 < row_bytes,
                            out@.len() == row_bytes * row,
                    ;
                    if r2 == row - 1 {
                        assert(c < (row_bytes as int) * 8);
                        assert((r2 * (row_bytes as int)) == ((row - 1) * (row_bytes as int)));
                    }
                }
            }
        }
        proof {
            assert(out@.len() == row_bytes * h) by (nonlinear_arith)
                requires
                    out@.len() == (row_bytes as int) * (h as int) || out@.len() == row_bytes * h,
            ;
        }
        out
    }

    /// A new bitmap whose plane `p` is a copy of this bitmap's plane
    /// `plane_map[p]`.
    pub fn from_swizzle(src: &PlanarBMP, plane_map: Vec<usize>) -> (r: PlanarBMP)
        requires
            src.wf(),
            plane_map@.len() <= 8,
            forall|p: int| 0 <= p < plane_map@.len() ==> plane_map@[p] < src.planes,
            src.plane_size() * plane_map@.len() <= usize::MAX,
        ensures
            r.wf(),
            r.width == src.width,
            r.height == src.height,
            r.planes == plane_map@.len(),
            r.palette@ == src.palette@,
            forall|p: int, x: int, y: int|
                0 <= p < r.planes && 0 <= x < r.width && 0 <= y < r.height ==> r.plane_bit(p, x, y)
                    == src.plane_bit(plane_map@[p] as int, x, y),
    {
        let plane_sz: usize = src.pitch * src.height;
        let mut data: Vec<u8> = Vec::new();
        let mut p: usize = 0;
        while p < plane_map.len()
            invariant
                src.wf(),
                plane_sz == src.plane_size(),
                p <= plane_map@.len() <= 8,
                forall|q: int| 0 <= q < plane_map@.len() ==> plane_map@[q] < src.planes,
                src.plane_size() * plane_map@.len() <= usize::MAX,
                data@.len() == plane_sz * p,
                forall|q: int, t: int|
                    0 <= q < p && 0 <= t < plane_sz ==> #[trigger] data@[q * (plane_sz as int) + t]
                        == src.data@[plane_map@[q] * (plane_sz as int) + t],
            decreases plane_map@.len() - p,
        {
            let sp = plane_map[p];
            let mut t: usize = 0;
            proof {
                lemma_row_major_bound(plane_sz as int, plane_map@.len() as int, 0, p as int);
                lemma_row_major_bound(plane_sz as int, src.planes as int, 0, sp as int);
                assert((p + 1) * (plane_sz as int) == p * (plane_sz as int) + plane_sz)
                    by (nonlinear_arith);
                assert((sp + 1) * (plane_sz as int) == sp * (plane_sz as int) + plane_sz)
                    by (nonlinear_arith);
                assert(p * (plane_sz as int) + plane_sz <= plane_map@.len() * (plane_sz as int));
                assert(sp * (plane_sz as int) + plane_sz <= src.planes * (plane_sz as int));
            }
            while t < plane_sz
                invariant
                    src.wf(),
                    plane_sz == src.plane_size(),
                    p < plane_map@.len() <= 8,
                    sp == plane_map@[p as int],
                    sp < src.planes,
                    forall|q: int| 0 <= q < plane_map@.len() ==> plane_map@[q] < src.planes,
                    src.plane_size() * plane_map@.len() <= usize::MAX,
                    t <= plane_sz,
                    (p + 1) * plane_sz <= plane_map@.len() * plane_sz,
                    (sp + 1) * plane_sz <= src.planes * plane_sz,
                    data@.len() == plane_sz * p + t,
                    forall|q: int, u: int|
                        0 <= q < p && 0 <= u < plane_sz ==> #[trigger] data@[q * (plane_sz as int)
                            + u] == src.data@[plane_map@[q] * (plane_sz as int) + u],
                    forall|u: int|
                        0 <= u < t ==> #[trigger] data@[p * (plane_sz as int) + u] == src.data@[sp
                            * (plane_sz as int) + u],
                decreases plane_sz - t,
            {
                proof {
                    assert(sp * plane_sz + t < src.planes * plane_sz) by (nonlinear_arith)
                        requires
                            0 <= t < plane_sz,
                            (sp + 1) * plane_sz <= src.planes * plane_sz,
                            sp >= 0,
                    ;
                    assert(src.planes * plane_sz == (plane_sz as int) * (src.planes as int))
                        by (nonlinear_arith);
                    assert(src.data@.len() == plane_sz * src.planes);
                    assert((plane_sz as int) * (src.planes as int) == plane_sz * src.planes)
                        by (nonlinear_arith);
                    assert(p * plane_sz + t < plane_map@.len() * plane_sz) by (nonlinear_arith)
                        requires
                            0 <= t < plane_sz,
                            (p + 1) * plane_sz <= plane_map@.len() * plane_sz,
                            p >= 0,
                    ;
                }
                let v = src.data[sp * plane_sz + t];
                data.push(v);
                t = t + 1;
                proof {
                    assert(data@.len() == plane_sz * p + t);
                    assert forall|u: int|
                        0 <= u < t implies #[trigger] data@[p * (plane_sz as int) + u]
                        == src.data@[sp * (plane_sz as int) + u] by {
                        assert(p * (plane_sz as int) == (plane_sz as int) * (p as int))
                            by (nonlinear_arith);
                        if u == t - 1 {
                            assert(data@[data@.len() - 1] == v);
                        }
                    }
                    assert forall|q: int, u: int|
                        0 <= q < p && 0 <= u < plane_sz implies #[trigger] data@[q * (
                    plane_sz as int) + u] == src.data@[plane_map@[q] * (plane_sz as int) + u] by {
                        assert(0 <= q * (plane_sz as int) + u < (plane_sz as int) * (p as int))
                            by (nonlinear_arith)
                            requires
                                0 <= q < p,
                                0 <= u < plane_sz,
                        ;
                        assert((plane_sz as int) * (p as int) <= data@.len() - 1);
                    }
                }
            }
            p = p + 1;
            proof {
                assert((p - 1) * plane_sz + plane_sz == p * plane_sz) by (nonlinear_arith);
                assert forall|q: int, u: int|
                    0 <= q < p && 0 <= u < plane_sz implies #[trigger] data@[q * (plane_sz as int)
                    + u] == src.data@[plane_map@[q] * (plane_sz as int) + u] by {
                    if q == p - 1 {
                        assert(data@[q * (plane_sz as int) + u] == src.data@[sp * (
                        plane_sz as int) + u]);
                    }
                }
            }
        }
        let r = PlanarBMP {
            width: src.width,
            height: src.height,
            pitch: src.pitch,
            planes: plane_map.len(),
            data,
            palette: clone_bytes(&src.palette),
        };
        proof {
            assert(r.data@.len() == r.plane_size() * r.planes) by (nonlinear_arith)
                requires
                    r.data@.len() == plane_sz * plane_map@.len() || r.data@.len() == plane_sz
                        * plane_map@.len(),
                    plane_sz == r.plane_size(),
                    r.planes == plane_map@.len(),
            ;
            assert forall|p2: int, x: int, y: int|
                0 <= p2 < r.planes && 0 <= x < r.width && 0 <= y < r.height implies r.plane_bit(
                p2,
                x,
                y,
            ) == src.plane_bit(plane_map@[p2] as int, x, y) by {
                r.lemma_byte_index_bound(p2, x, y);
                src.lemma_byte_index_bound(plane_map@[p2] as int, x, y);
                lemma_row_major_bound(r.pitch as int, r.height as int, x / 8, y);
                assert(x / 8 < r.pitch);
                assert(0 <= y * r.pitch + x / 8 < plane_sz as int);
                assert(r.data@[p2 * (plane_sz as int) + (y * r.pitch + x / 8)] == src.data@[
                    plane_map@[p2] * (plane_sz as int) + (y * r.pitch + x / 8)]);
                assert(r.byte_index(p2, x, y) == p2 * (plane_sz as int) + (y * r.pitch + x / 8));
                assert(src.byte_index(plane_map@[p2] as int, x, y) == plane_map@[p2] * (plane_sz as int)
                    + (y * r.pitch + x / 8));
            }
        }
        r
    }
}

/// The packed pixel value at `(x, y)` of a bottom-up BMP payload with the
/// given row stride and bit depth: `bpp` bits, high bits leftmost within a
/// byte.
pub open spec fn bmp_packed_pixel(
    bytes: Seq<u8>,
    stride: int,
    h: int,
    bpp: int,
    x: int,
    y: int,
) -> u8 {
    let byte = bytes[(h - 1 - y) * stride + (x * bpp) / 8];
    let sh = (8 - bpp - ((x * bpp) % 8)) as u8;
    let mask = (pow2(bpp as nat) - 1) as u8;
    (byte >> sh) & mask
}

impl PlanarBMP {
    /// Build a bitmap from a bottom-up packed BMP payload.  Supported depths
    /// are 1 (one plane), 4 (four planes, two pixels per byte) and 8 (eight
    /// planes, one pixel per byte); scanlines are `stride` bytes.
    pub fn from_packed(
        bytes: &Vec<u8>,
        width: usize,
        height: usize,
        bpp: usize,
        stride: usize,
        palette: Vec<u8>,
    ) -> (r: PlanarBMP)
        requires
            bpp == 1 || bpp == 4 || bpp == 8,
            width + 7 <= usize::MAX,
            width * bpp <= usize::MAX - 7,
            (width * bpp + 7) / 8 <= stride,
            stride * height <= bytes@.len(),
            ((width + 7) / 8) * height * bpp <= usize::MAX,
            ((width + 7) / 8) * height <= usize::MAX,
        ensures
            r.wf(),
            r.width == width,
            r.height == height,
            r.planes == bpp,
            r.palette@ == palette@,
            forall|x: int, y: int|
                0 <= x < width && 0 <= y < height ==> r.pixel(x, y) == bmp_packed_pixel(
                    bytes@,
                    stride as int,
                    height as int,
                    bpp as int,
                    x,
                    y,
                ) as nat,
    {
        let ghost pal_view = palette@;
        let bl = bytes.len();
        let mut r = PlanarBMP::new(width, height, bpp, palette);
        let mut y: usize = 0;
        while y < height
            invariant
                r.wf(),
                r.width == width,
                r.height == height,
                r.planes == bpp,
                r.palette@ == pal_view,
                bpp == 1 || bpp == 4 || bpp == 8,
                width * bpp <= usize::MAX - 7,
                (width * bpp + 7) / 8 <= stride,
                stride * height <= bytes@.len(),
                bl == bytes@.len(),
                y <= height,
                forall|x2: int, y2: int|
                    0 <= x2 < width && 0 <= y2 < y ==> r.pixel(x2, y2) == bmp_packed_pixel(
                        bytes@,
                        stride as int,
                        height as int,
                        bpp as int,
                        x2,
                        y2,
                    ) as nat,
            decreases height - y,
        {
            let mut x: usize = 0;
            while x < width
                invariant
                    r.wf(),
                    r.width == width,
                    r.height == height,
                    r.planes == bpp,
                    r.palette@ == pal_view,
                    bpp == 1 || bpp == 4 || bpp == 8,
                    width * bpp <= usize::MAX - 7,
                    (width * bpp + 7) / 8 <= stride,
                    stride * height <= bytes@.len(),
                    bl == bytes@.len(),
                    y < height,
                    x <= width,
                    forall|x2: int, y2: int|
                        0 <= x2 < width && 0 <= y2 < y ==> r.pixel(x2, y2) == bmp_packed_pixel(
                            bytes@,
                            stride as int,
                            height as int,
                            bpp as int,
                            x2,
                            y2,
                        ) as nat,
                    forall|x2: int|
                        0 <= x2 < x ==> r.pixel(x2, y as int) == bmp_packed_pixel(
                            bytes@,
                            stride as int,
                            height as int,
                            bpp as int,
                            x2,
                            y as int,
                        ) as nat,
                decreases width - x,
            {
                proof {
                    lemma_row_major_bound(stride as int, height as int, 0, (height - 1 - y) as int);
                    assert(x * bpp + bpp <= width * bpp) by (nonlinear_arith)
                        requires
                            0 <= x < width,
                            bpp >= 1,
                    ;
                    assert(x * bpp >= 0) by (nonlinear_arith)
                        requires
                            x >= 0,
                            bpp >= 0,
                    ;
                    assert((x * bpp) / 8 < stride && (x * bpp) % 8 + bpp <= 8) by {
                        assert((x * bpp) / 8 <= (width * bpp - 1) / 8);
                        assert((width * bpp - 1) / 8 < (width * bpp + 7) / 8);
                        assert((x * bpp) % 8 + bpp <= 8) by (nonlinear_arith)
                            requires
                                bpp == 1 || bpp == 4 || bpp == 8,
                                x >= 0,
                        ;
                    }
                    assert((height - 1 - y) * stride + (x * bpp) / 8 < stride * height) by {
                        assert((height - 1 - y) * stride + stride <= height * stride);
                        assert(height * stride == stride * height) by (nonlinear_arith);
                    }
                }
                let off: usize = (height - 1 - y) * stride + (x * bpp) / 8;
                let sh: u8 = (8 - bpp - ((x * bpp) % 8)) as u8;
                let mask: u8 = if bpp == 8 {
                    255
                } else if bpp == 4 {
                    15
                } else {
                    1
                };
                proof {
                    lemma_pow2_values();
                }
                let v: u8 = (bytes[off] >> sh) & mask;
                proof {
                    let b = bytes@[off as int];
                    assert(((b >> sh) & 255u8) <= 255 && ((b >> sh) & 15u8) <= 15 && ((b >> sh)
                        & 1u8) <= 1) by (bit_vector);
                    assert((v as nat) < pow2(bpp as nat));
                }
                r.pset(x, y, v);
                proof {
                    vstd::arithmetic::div_mod::lemma_small_mod(v as nat, pow2(bpp as nat));
                    assert(r.pixel(x as int, y as int) == v as nat);
                }
                x = x + 1;
            }
            y = y + 1;
        }
        r
    }

    /// Read a whole BMP file: headers, palette and pixel data.  Tolerates
    /// info headers larger than 40 bytes by skipping the excess, and
    /// accepts only uncompressed bottom-up images at 1, 4 or 8 bits per
    /// pixel that fit their pixel data.  Dimensions are capped at 0x4000
    /// and the info header at 0x10000 bytes, far beyond any file of this
    /// format, to keep every size computation within 32 bits.
    ///
    /// Succeeds exactly on the acceptable files, and then returns the image
    /// whose packed pixels are the payload's and whose palette is the
    /// file's colour table.
    #[verifier::rlimit(100)]
    #[verifier::spinoff_prover]
    pub fn from_bmp_file(bytes: &Vec<u8>) -> (r: Result<PlanarBMP, LemError>)
        ensures
            r is Ok <==> bmp_accepted(bytes@),
            ({
                let b = bytes@;
                &&& b.len() < 14 ==> r == Err::<PlanarBMP, LemError>(LemError::UnexpectedEof)
                &&& b.len() >= 14 && !bmp_sig_ok(b) ==> r == Err::<PlanarBMP, LemError>(
                    LemError::BadBitmap,
                )
                &&& b.len() >= 14 && bmp_sig_ok(b) && b.len() < 54 ==> r == Err::<
                    PlanarBMP,
                    LemError,
                >(LemError::UnexpectedEof)
                &&& b.len() >= 54 && bmp_sig_ok(b) && !bmp_shape_ok(b) ==> r == Err::<
                    PlanarBMP,
                    LemError,
                >(LemError::BadBitmap)
                &&& b.len() >= 54 && bmp_sig_ok(b) && bmp_shape_ok(b) && !(bmp_pal_ok(b)
                    && bmp_data_ok(b) && bmp_size_ok(b)) ==> r == Err::<PlanarBMP, LemError>(
                    LemError::UnexpectedEof,
                )
            }),
            r is Ok ==> ({
                let b = bytes@;
                let img = r->Ok_0;
                &&& img.wf()
                &&& img.width == bmp_w(b)
                &&& img.height == bmp_h(b)
                &&& img.planes == bmp_bpp(b)
                &&& img.palette@ == b.subrange(
                    14 + bmp_info_size(b),
                    14 + bmp_info_size(b) + 4 * bmp_nc(b),
                )
                &&& forall|x: int, y: int|
                    0 <= x < bmp_w(b) && 0 <= y < bmp_h(b) ==> img.pixel(x, y)
                        == bmp_packed_pixel(
                        b.skip(bmp_off_bits(b)),
                        bmp_stride(b),
                        bmp_h(b),
                        bmp_bpp(b),
                        x,
                        y,
                    ) as nat
            }),
    {
        let ghost b = bytes@;
        if bytes.len() < 14 {
            return Err(LemError::UnexpectedEof);
        }
        let sig: u16 = bytes[1] as u16 * 256 + bytes[0] as u16;
        if sig != 0x4D42 {
            return Err(LemError::BadBitmap);
        }
        let off_bits: usize = (bytes[13] as usize * 0x1000000 + bytes[12] as usize * 0x10000
            + bytes[11] as usize * 256 + bytes[10] as usize);
        if bytes.len() < 54 {
            return Err(LemError::UnexpectedEof);
        }
        let bi_size: usize = (bytes[17] as usize * 0x1000000 + bytes[16] as usize * 0x10000
            + bytes[15] as usize * 256 + bytes[14] as usize);
        let width: usize = (bytes[21] as usize * 0x1000000 + bytes[20] as usize * 0x10000
            + bytes[19] as usize * 256 + bytes[18] as usize);
        let height: usize = (bytes[25] as usize * 0x1000000 + bytes[24] as usize * 0x10000
            + bytes[23] as usize * 256 + bytes[22] as usize);
        let bpp: usize = bytes[29] as usize * 256 + bytes[28] as usize;
        let compression: usize = (bytes[33] as usize * 0x1000000 + bytes[32] as usize * 0x10000
            + bytes[31] as usize * 256 + bytes[30] as usize);
        let clr_used: usize = (bytes[49] as usize * 0x1000000 + bytes[48] as usize * 0x10000
            + bytes[47] as usize * 256 + bytes[46] as usize);
        proof {
            assert(off_bits == bmp_off_bits(b) && bi_size == bmp_info_size(b) && width == bmp_w(b)
                && height == bmp_h(b) && bpp == bmp_bpp(b) && compression == bmp_compression(b)
                && clr_used == bmp_clr_used(b));
        }
        if bi_size < 40 || compression != 0 {
            return Err(LemError::BadBitmap);
        }
        if !(bpp == 1 || bpp == 4 || bpp == 8) {
            return Err(LemError::BadBitmap);
        }
        if width > 0x4000 || height > 0x4000 || bi_size > 0x0001_0000 {
            return Err(LemError::BadBitmap);
        }
        proof {
            assert(((width + 7) / 8) * height <= 0x801 * 0x4000 && ((width + 7) / 8) * height * bpp
                <= 0x801 * 0x4000 * 8 && width * bpp <= 0x4000 * 8) by (nonlinear_arith)
                requires
                    width <= 0x4000,
                    height <= 0x4000,
                    1 <= bpp <= 8,
            ;
        }
        // The palette sits after the info header; pixel data at bfOffBits.
        let num_colours: usize = if clr_used != 0 && clr_used <= 256 {
            clr_used
        } else {
            proof {
                lemma_pow2_values();
                lemma_pow2_increases(bpp as nat, 8);
            }
            pow2_exec(bpp as u8)
        };
        proof {
            lemma_pow2_values();
            lemma_pow2_increases(bpp as nat, 8);
        }
        assert(num_colours == bmp_nc(b) && num_colours <= 256);
        let pal_start: usize = 14 + bi_size;
        if pal_start > bytes.len() || bytes.len() - pal_start < 4 * num_colours {
            return Err(LemError::UnexpectedEof);
        }
        let mut palette: Vec<u8> = Vec::new();
        let bl2 = bytes.len();
        let mut i: usize = 0;
        while i < 4 * num_colours
            invariant
                pal_start + 4 * num_colours <= bytes@.len(),
                num_colours <= 256,
                bl2 == bytes@.len(),
                i <= 4 * num_colours,
                palette@ == bytes@.subrange(pal_start as int, pal_start + i),
            decreases 4 * num_colours - i,
        {
            palette.push(bytes[pal_start + i]);
            i = i + 1;
            assert(palette@ =~= bytes@.subrange(pal_start as int, pal_start + i));
        }
        let data_start = off_bits;
        if data_start > bytes.len() {
            return Err(LemError::UnexpectedEof);
        }
        let stride: usize = ((width * bpp + 7) / 8 + 3) / 4 * 4;
        proof {
            assert(stride == bmp_stride(b));
            if stride > 0 {
                assert(((bytes@.len() - data_start) as int) / (stride as int) >= height <==> (
                stride as int) * (height as int) <= bytes@.len() - data_start)
                    by (nonlinear_arith)
                    requires
                        stride > 0,
                        data_start <= bytes@.len(),
                        height >= 0,
                ;
                assert((stride as int) * (height as int) == bmp_stride(b) * bmp_h(b));
            }
        }
        if stride > 0 && (bytes.len() - data_start) / stride < height {
            return Err(LemError::UnexpectedEof);
        }
        let mut payload: Vec<u8> = Vec::new();
        let mut k: usize = data_start;
        proof {
            if stride > 0 {
                assert(stride * height <= bytes@.len() - data_start) by (nonlinear_arith)
                    requires
                        stride > 0,
                        height <= ((bytes@.len() - data_start) as int) / (stride as int),
                        data_start <= bytes@.len(),
                ;
            }
        }
        while k < bytes.len()
            invariant
                data_start <= k <= bytes@.len(),
                payload@.len() == k - data_start,
                payload@ == bytes@.subrange(data_start as int, k as int),
            decreases bytes@.len() - k,
        {
            payload.push(bytes[k]);
            k = k + 1;
            assert(payload@ =~= bytes@.subrange(data_start as int, k as int));
        }
        let img = PlanarBMP::from_packed(&payload, width, height, bpp, stride, palette);
        proof {
            assert(payload@ =~= b.skip(bmp_off_bits(b)));
        }
        Ok(img)
    }
}

/// One palette entry: 8-bit red, green and blue channels.
#[derive(Clone, Copy, PartialEq, Eq, Structural, Debug)]
pub struct ColourRGB {
    pub r: u8,
    pub g: u8,
    pub b: u8,
}

impl ColourRGB {
    /// An entry from plain 8-bit channels.
    pub fn rgb(r: u8, g: u8, b: u8) -> (c: ColourRGB)
        ensures
            c == (ColourRGB { r, g, b }),
    {
        ColourRGB { r, g, b }
    }

    /// An entry from an EGA byte (`IRGBrgb`, six effective bits): each
    /// channel combines its high and low bit and scales to {0, 85, 170,
    /// 255}.
    pub fn ega_rgb(e: u8) -> (c: ColourRGB)
        ensures
            c.r == ((((e >> 5) & 1) * 2 + ((e >> 2) & 1)) * 85) as u8,
            c.g == ((((e >> 4) & 1) * 2 + ((e >> 1) & 1)) * 85) as u8,
            c.b == ((((e >> 3) & 1) * 2 + (e & 1)) * 85) as u8,
    {
        proof {
            let ev = e;
            assert(((ev >> 5) & 1) <= 1 && ((ev >> 4) & 1) <= 1 && ((ev >> 3) & 1) <= 1 && ((ev
                >> 2) & 1) <= 1 && ((ev >> 1) & 1) <= 1 && (ev & 1) <= 1) by (bit_vector);
        }
        let r = (((e >> 5) & 1) * 2 + ((e >> 2) & 1)) * 85;
        let g = (((e >> 4) & 1) * 2 + ((e >> 1) & 1)) * 85;
        let b = (((e >> 3) & 1) * 2 + (e & 1)) * 85;
        ColourRGB { r, g, b }
    }

    /// An entry from a 6-bit VGA triple: each channel is scaled by four.
    pub fn vga_rgb(r: u8, g: u8, b: u8) -> (c: ColourRGB)
        requires
            r < 64,
            g < 64,
            b < 64,
        ensures
            c == (ColourRGB { r: (r * 4) as u8, g: (g * 4) as u8, b: (b * 4) as u8 }),
    {
        ColourRGB { r: r * 4, g: g * 4, b: b * 4 }
    }
}

/// An ordered table of RGB palette entries.
pub struct PaletteRGB {
    pub colours: Vec<ColourRGB>,
}

impl PaletteRGB {
    /// Build a palette from packed 6-bit VGA triples, three bytes per entry.
    pub fn from_vga_data(num_colours: usize, data: &Vec<u8>) -> (p: PaletteRGB)
        requires
            data@.len() >= num_colours * 3,
            forall|i: int| 0 <= i < data@.len() ==> data@[i] < 64,
        ensures
            p.colours@.len() == num_colours,
            forall|i: int|
                0 <= i < num_colours ==> p.colours@[i] == (ColourRGB {
                    r: (data@[i * 3] * 4) as u8,
                    g: (data@[i * 3 + 1] * 4) as u8,
                    b: (data@[i * 3 + 2] * 4) as u8,
                }),
    {
        let dl = data.len();
        let mut colours: Vec<ColourRGB> = Vec::new();
        let mut i: usize = 0;
        while i < num_colours
            invariant
                i <= num_colours,
                dl == data@.len(),
                data@.len() >= num_colours * 3,
                forall|k: int| 0 <= k < data@.len() ==> data@[k] < 64,
                colours@.len() == i,
                forall|k: int|
                    0 <= k < i ==> colours@[k] == (ColourRGB {
                        r: (data@[k * 3] * 4) as u8,
                        g: (data@[k * 3 + 1] * 4) as u8,
                        b: (data@[k * 3 + 2] * 4) as u8,
                    }),
            decreases num_colours - i,
        {
            proof {
                assert(i * 3 + 2 < num_colours * 3) by (nonlinear_arith)
                    requires
                        0 <= i < num_colours,
                ;
            }
            let vga_r = data[i * 3];
            let vga_g = data[i * 3 + 1];
            let vga_b = data[i * 3 + 2];
            colours.push(ColourRGB::vga_rgb(vga_r, vga_g, vga_b));
            i = i + 1;
        }
        PaletteRGB { colours }
    }

    /// The palette as raw `RGBQUAD` bytes: `B, G, R, 0` for each entry.
    pub fn as_rgbquad(&self) -> (r: Vec<u8>)
        ensures
            r@.len() == 4 * self.colours@.len(),
            forall|i: int|
                0 <= i < self.colours@.len() ==> r@[4 * i] == self.colours@[i].b && r@[4 * i + 1]
                    == self.colours@[i].g && r@[4 * i + 2] == self.colours@[i].r && r@[4 * i + 3]
                    == 0u8,
    {
        let mut out: Vec<u8> = Vec::new();
        let mut i: usize = 0;
        while i < self.colours.len()
            invariant
                i <= self.colours@.len(),
                out@.len() == 4 * i,
                forall|k: int|
                    0 <= k < i ==> out@[4 * k] == self.colours@[k].b && out@[4 * k + 1]
                        == self.colours@[k].g && out@[4 * k + 2] == self.colours@[k].r && out@[4
                        * k + 3] == 0u8,
            decreases self.colours@.len() - i,
        {
            let c = self.colours[i];
            out.push(c.b);
            out.push(c.g);
            out.push(c.r);
            out.push(0);
            i = i + 1;
        }
        out
    }
}

/// Convert 8-bit palette indices to `RGBQUAD` bytes using a graphics set's
/// VGA tables: indices 0 to 7 use the standard table, 8 to 15 the custom
/// one.  Each 6-bit channel is scaled by four.
pub fn pal8_to_rgb(pal8_data: Vec<u8>, pal: &crate::graphics_set::Palettes) -> (r: Vec<u8>)
    requires
        pal.wf(),
        forall|i: int| 0 <= i < pal8_data@.len() ==> pal8_data@[i] < 16,
    ensures
        r@.len() == 4 * pal8_data@.len(),
        forall|i: int|
            0 <= i < pal8_data@.len() ==> ({
                let idx = #[trigger] pal8_data@[i] as int;
                let rr = if idx < 8 {
                    pal.vga_standard@[idx * 3]
                } else {
                    pal.vga_custom@[(idx - 8) * 3]
                };
                let gg = if idx < 8 {
                    pal.vga_standard@[idx * 3 + 1]
                } else {
                    pal.vga_custom@[(idx - 8) * 3 + 1]
                };
                let bb = if idx < 8 {
                    pal.vga_standard@[idx * 3 + 2]
                } else {
                    pal.vga_custom@[(idx - 8) * 3 + 2]
                };
                r@[4 * i] == ((bb % 64) * 4) as u8 && r@[4 * i + 1] == ((gg % 64) * 4) as u8 && r@[4
                    * i + 2] == ((rr % 64) * 4) as u8 && r@[4 * i + 3] == 0u8
            }),
{
    let mut rgb_data: Vec<u8> = Vec::new();
    let mut i: usize = 0;
    while i < pal8_data.len()
        invariant
            pal.wf(),
            i <= pal8_data@.len(),
            forall|k: int| 0 <= k < pal8_data@.len() ==> pal8_data@[k] < 16,
            rgb_data@.len() == 4 * i,
            forall|k: int|
                0 <= k < i ==> ({
                    let idx = #[trigger] pal8_data@[k] as int;
                    let rr = if idx < 8 {
                        pal.vga_standard@[idx * 3]
                    } else {
                        pal.vga_custom@[(idx - 8) * 3]
                    };
                    let gg = if idx < 8 {
                        pal.vga_standard@[idx * 3 + 1]
                    } else {
                        pal.vga_custom@[(idx - 8) * 3 + 1]
                    };
                    let bb = if idx < 8 {
                        pal.vga_standard@[idx * 3 + 2]
                    } else {
                        pal.vga_custom@[(idx - 8) * 3 + 2]
                    };
                    rgb_data@[4 * k] == ((bb % 64) * 4) as u8 && rgb_data@[4 * k + 1] == ((gg % 64)
                        * 4) as u8 && rgb_data@[4 * k + 2] == ((rr % 64) * 4) as u8 && rgb_data@[4
                        * k + 3] == 0u8
                }),
        decreases pal8_data@.len() - i,
    {
        let idx = pal8_data[i] as usize;
        let rr: u8;
        let gg: u8;
        let bb: u8;
        if idx < 8 {
            rr = pal.vga_standard[idx * 3];
            gg = pal.vga_standard[idx * 3 + 1];
            bb = pal.vga_standard[idx * 3 + 2];
        } else {
            rr = pal.vga_custom[(idx - 8) * 3];
            gg = pal.vga_custom[(idx - 8) * 3 + 1];
            bb = pal.vga_custom[(idx - 8) * 3 + 2];
        }
        rgb_data.push((bb % 64) * 4);
        rgb_data.push((gg % 64) * 4);
        rgb_data.push((rr % 64) * 4);
        rgb_data.push(0);
        i = i + 1;
    }
    rgb_data
}

/// The sixteen-colour `RGBQUAD` palette of a graphics set: entries 0 to 7
/// from the standard table, 8 to 15 from the custom one, built from the
/// EGA bytes.
pub fn ega_palette_rgbquad(standard: &Vec<u8>, custom: &Vec<u8>) -> (r: Vec<u8>)
    requires
        standard@.len() == 8,
        custom@.len() == 8,
    ensures
        r@.len() == 64,
        forall|i: int|
            0 <= i < 16 ==> ({
                let e = if i < 8 {
                    standard@[i]
                } else {
                    custom@[i - 8]
                };
                &&& #[trigger] r@[4 * i] == ((((e >> 3) & 1) * 2 + (e & 1)) * 85) as u8
                &&& r@[4 * i + 1] == ((((e >> 4) & 1) * 2 + ((e >> 1) & 1)) * 85) as u8
                &&& r@[4 * i + 2] == ((((e >> 5) & 1) * 2 + ((e >> 2) & 1)) * 85) as u8
                &&& r@[4 * i + 3] == 0u8
            }),
{
    let mut out: Vec<u8> = Vec::new();
    let mut i: usize = 0;
    while i < 16
        invariant
            standard@.len() == 8,
            custom@.len() == 8,
            i <= 16,
            out@.len() == 4 * i,
            forall|k: int|
                0 <= k < i ==> ({
                    let e = if k < 8 {
                        standard@[k]
                    } else {
                        custom@[k - 8]
                    };
                    &&& #[trigger] out@[4 * k] == ((((e >> 3) & 1) * 2 + (e & 1)) * 85) as u8
                    &&& out@[4 * k + 1] == ((((e >> 4) & 1) * 2 + ((e >> 1) & 1)) * 85) as u8
                    &&& out@[4 * k + 2] == ((((e >> 5) & 1) * 2 + ((e >> 2) & 1)) * 85) as u8
                    &&& out@[4 * k + 3] == 0u8
                }),
        decreases 16 - i,
    {
        let e = if i < 8 {
            standard[i]
        } else {
            custom[i - 8]
        };
        let c = ColourRGB::ega_rgb(e);
        let ghost out_before = out@;
        out.push(c.b);
        out.push(c.g);
        out.push(c.r);
        out.push(0);
        i = i + 1;
        proof {
            assert(out@ =~= out_before + seq![c.b, c.g, c.r, 0u8]);
            assert(out@[4 * (i - 1)] == c.b && out@[4 * (i - 1) + 1] == c.g && out@[4 * (i - 1)
                + 2] == c.r && out@[4 * (i - 1) + 3] == 0u8);
            assert forall|k: int|
                0 <= k < i implies ({
                let e2 = if k < 8 {
                    standard@[k]
                } else {
                    custom@[k - 8]
                };
                &&& #[trigger] out@[4 * k] == ((((e2 >> 3) & 1) * 2 + (e2 & 1)) * 85) as u8
                &&& out@[4 * k + 1] == ((((e2 >> 4) & 1) * 2 + ((e2 >> 1) & 1)) * 85) as u8
                &&& out@[4 * k + 2] == ((((e2 >> 5) & 1) * 2 + ((e2 >> 2) & 1)) * 85) as u8
                &&& out@[4 * k + 3] == 0u8
            }) by {
                if k < i - 1 {
                    assert(4 * k + 3 < 4 * (i - 1));
                    assert(out@[4 * k] == out_before[4 * k] && out@[4 * k + 1] == out_before[4 * k
                        + 1] && out@[4 * k + 2] == out_before[4 * k + 2] && out@[4 * k + 3]
                        == out_before[4 * k + 3]);
                } else {
                    assert(k == i - 1);
                }
            }
        }
    }
    out
}

/// Copy a byte buffer.
pub fn clone_bytes(data: &Vec<u8>) -> (r: Vec<u8>)
    ensures
        r@ == data@,
{
    let mut out: Vec<u8> = Vec::new();
    let mut i: usize = 0;
    while i < data.len()
        invariant
            i <= data@.len(),
            out@ == data@.subrange(0, i as int),
        decreases data@.len() - i,
    {
        out.push(data[i]);
        i = i + 1;
        assert(out@ =~= data@.subrange(0, i as int));
    }
    assert(out@ =~= data@);
    out
}

/// The 14-byte BMP file header.
#[allow(non_snake_case)]
#[derive(Clone, Copy, PartialEq, Eq, Structural, Debug)]
pub struct BitmapFileHeader {
    pub bfType: u16,
    pub bfSize: u32,
    pub _bfReserved1: u16,
    pub _bfReserved2: u16,
    pub bfOffBits: u32,
}

/// The on-disk form of a BMP file header.
pub open spec fn file_header_bytes(h: BitmapFileHeader) -> Seq<u8> {
    le16_bytes(h.bfType) + le32_bytes(h.bfSize) + le16_bytes(h._bfReserved1) + le16_bytes(
        h._bfReserved2,
    ) + le32_bytes(h.bfOffBits)
}

impl BitmapFileHeader {
    /// A header for a file of `size` bytes whose pixel data starts at
    /// `data_offset`, carrying the `BM` signature.
    pub fn new(size: u32, data_offset: u32) -> (r: BitmapFileHeader)
        ensures
            r == (BitmapFileHeader {
                bfType: 0x4D42,
                bfSize: size,
                _bfReserved1: 0,
                _bfReserved2: 0,
                bfOffBits: data_offset,
            }),
    {
        BitmapFileHeader {
            bfType: 0x4D42,
            bfSize: size,
            _bfReserved1: 0,
            _bfReserved2: 0,
            bfOffBits: data_offset,
        }
    }

    /// Read a 14-byte file header; fails only on a short buffer.
    #[verifier::rlimit(40)]
    pub fn from_data(reader: &mut ByteReader) -> (r: Result<BitmapFileHeader, LemError>)
        requires
            old(reader).wf(),
        ensures
            final(reader).wf(),
            final(reader).bytes() == old(reader).bytes(),
            old(reader).position() + 14 <= old(reader).bytes().len() ==> {
                &&& r is Ok
                &&& file_header_bytes(r->Ok_0) == old(reader).bytes().subrange(
                    old(reader).position(),
                    old(reader).position() + 14,
                )
                &&& final(reader).position() == old(reader).position() + 14
            },
            old(reader).position() + 14 > old(reader).bytes().len() ==> r == Err::<
                BitmapFileHeader,
                LemError,
            >(LemError::UnexpectedEof),
    {
        if reader.remaining_len() < 14 {
            return Err(LemError::UnexpectedEof);
        }
        let bfType = read_le16(reader).unwrap();
        let bfSize = read_le32(reader).unwrap();
        let _bfReserved1 = read_le16(reader).unwrap();
        let _bfReserved2 = read_le16(reader).unwrap();
        let bfOffBits = read_le32(reader).unwrap();
        let h = BitmapFileHeader { bfType, bfSize, _bfReserved1, _bfReserved2, bfOffBits };
        proof {
            let b = old(reader).bytes();
            let p = old(reader).position();
            crate::binary_io::lemma_u16_to_le_bytes(b[p], b[p + 1]);
            crate::binary_io::lemma_u32_to_le_bytes(b[p + 2], b[p + 3], b[p + 4], b[p + 5]);
            crate::binary_io::lemma_u16_to_le_bytes(b[p + 6], b[p + 7]);
            crate::binary_io::lemma_u16_to_le_bytes(b[p + 8], b[p + 9]);
            crate::binary_io::lemma_u32_to_le_bytes(b[p + 10], b[p + 11], b[p + 12], b[p + 13]);
            assert(file_header_bytes(h) =~= b.subrange(p, p + 14));
        }
        Ok(h)
    }

    /// Append the 14-byte on-disk form.
    #[verifier::rlimit(100)]
    #[verifier::spinoff_prover]
    pub fn write(&self, writer: &mut Vec<u8>)
        ensures
            final(writer)@ == old(writer)@ + file_header_bytes(*self),
    {
        write_le16(self.bfType, writer);
        write_le32(self.bfSize, writer);
        write_le16(self._bfReserved1, writer);
        write_le16(self._bfReserved2, writer);
        write_le32(self.bfOffBits, writer);
        assert(writer@ =~= old(writer)@ + file_header_bytes(*self));
    }
}

/// The 40-byte BMP info header.
#[allow(non_snake_case)]
#[derive(Clone, Copy, PartialEq, Eq, Structural, Debug)]
pub struct BitmapInfoHeader {
    pub biSize: u32,
    pub biWidth: u32,
    pub biHeight: u32,
    pub biPlanes: u16,
    pub biBitCount: u16,
    pub biCompression: u32,
    pub biSizeImage: u32,
    pub _biXPelsPerMeter: u32,
    pub _biYPelsPerMeter: u32,
    pub biClrUsed: u32,
    pub _biClrImportant: u32,
}

/// The on-disk form of a BMP info header.
pub open spec fn info_header_bytes(h: BitmapInfoHeader) -> Seq<u8> {
    le32_bytes(h.biSize) + le32_bytes(h.biWidth) + le32_bytes(h.biHeight) + le16_bytes(h.biPlanes)
        + le16_bytes(h.biBitCount) + le32_bytes(h.biCompression) + le32_bytes(h.biSizeImage)
        + le32_bytes(h._biXPelsPerMeter) + le32_bytes(h._biYPelsPerMeter) + le32_bytes(h.biClrUsed)
        + le32_bytes(h._biClrImportant)
}

impl BitmapInfoHeader {
    /// A 40-byte header for an uncompressed bottom-up image.
    pub fn new(width: u32, height: u32, bpp: u16, pal_size: u32, image_size: u32) -> (r:
        BitmapInfoHeader)
        ensures
            r == (BitmapInfoHeader {
                biSize: 40,
                biWidth: width,
                biHeight: height,
                biPlanes: 1,
                biBitCount: bpp,
                biCompression: 0,
                biSizeImage: image_size,
                _biXPelsPerMeter: 0,
                _biYPelsPerMeter: 0,
                biClrUsed: pal_size,
                _biClrImportant: 0,
            }),
    {
        BitmapInfoHeader {
            biSize: 40,
            biWidth: width,
            biHeight: height,
            biPlanes: 1,
            biBitCount: bpp,
            biCompression: 0,
            biSizeImage: image_size,
            _biXPelsPerMeter: 0,
            _biYPelsPerMeter: 0,
            biClrUsed: pal_size,
            _biClrImportant: 0,
        }
    }

    /// Read a 40-byte info header; fails only on a short buffer.
    #[verifier::rlimit(100)]
    #[verifier::spinoff_prover]
    pub fn from_data(reader: &mut ByteReader) -> (r: Result<BitmapInfoHeader, LemError>)
        requires
            old(reader).wf(),
        ensures
            final(reader).wf(),
            final(reader).bytes() == old(reader).bytes(),
            old(reader).position() + 40 <= old(reader).bytes().len() ==> {
                &&& r is Ok
                &&& info_header_bytes(r->Ok_0) == old(reader).bytes().subrange(
                    old(reader).position(),
                    old(reader).position() + 40,
                )
                &&& final(reader).position() == old(reader).position() + 40
            },
            old(reader).position() + 40 > old(reader).bytes().len() ==> r == Err::<
                BitmapInfoHeader,
                LemError,
            >(LemError::UnexpectedEof),
    {
        if reader.remaining_len() < 40 {
            return Err(LemError::UnexpectedEof);
        }
        let biSize = read_le32(reader).unwrap();
        let biWidth = read_le32(reader).unwrap();
        let biHeight = read_le32(reader).unwrap();
        let biPlanes = read_le16(reader).unwrap();
        let biBitCount = read_le16(reader).unwrap();
        let biCompression = read_le32(reader).unwrap();
        let biSizeImage = read_le32(reader).unwrap();
        let _biXPelsPerMeter = read_le32(reader).unwrap();
        let _biYPelsPerMeter = read_le32(reader).unwrap();
        let biClrUsed = read_le32(reader).unwrap();
        let _biClrImportant = read_le32(reader).unwrap();
        let h = BitmapInfoHeader {
            biSize,
            biWidth,
            biHeight,
            biPlanes,
            biBitCount,
            biCompression,
            biSizeImage,
            _biXPelsPerMeter,
            _biYPelsPerMeter,
            biClrUsed,
            _biClrImportant,
        };
        proof {
            lemma_info_header_parse(old(reader).bytes(), old(reader).position(), h);
        }
        Ok(h)
    }

    /// Append the 40-byte on-disk form.
    #[verifier::rlimit(100)]
    #[verifier::spinoff_prover]
    pub fn write(&self, writer: &mut Vec<u8>)
        ensures
            final(writer)@ == old(writer)@ + info_header_bytes(*self),
    {
        write_le32(self.biSize, writer);
        write_le32(self.biWidth, writer);
        write_le32(self.biHeight, writer);
        write_le16(self.biPlanes, writer);
        write_le16(self.biBitCount, writer);
        write_le32(self.biCompression, writer);
        write_le32(self.biSizeImage, writer);
        write_le32(self._biXPelsPerMeter, writer);
        write_le32(self._biYPelsPerMeter, writer);
        write_le32(self.biClrUsed, writer);
        write_le32(self._biClrImportant, writer);
        assert(writer@ =~= old(writer)@ + info_header_bytes(*self));
    }
}

/// An info header whose fields were assembled from forty bytes serialises
/// back to those bytes.
#[verifier::rlimit(100)]
#[verifier::spinoff_prover]
proof fn lemma_info_header_parse(b: Seq<u8>, p: int, h: BitmapInfoHeader)
    requires
        0 <= p,
        p + 40 <= b.len(),
        h.biSize == crate::binary_io::u32_from(b[p], b[p + 1], b[p + 2], b[p + 3]),
        h.biWidth == crate::binary_io::u32_from(b[p + 4], b[p + 5], b[p + 6], b[p + 7]),
        h.biHeight == crate::binary_io::u32_from(b[p + 8], b[p + 9], b[p + 10], b[p + 11]),
        h.biPlanes == crate::binary_io::u16_from(b[p + 12], b[p + 13]),
        h.biBitCount == crate::binary_io::u16_from(b[p + 14], b[p + 15]),
        h.biCompression == crate::binary_io::u32_from(b[p + 16], b[p + 17], b[p + 18], b[p + 19]),
        h.biSizeImage == crate::binary_io::u32_from(b[p + 20], b[p + 21], b[p + 22], b[p + 23]),
        h._biXPelsPerMeter == crate::binary_io::u32_from(
            b[p + 24],
            b[p + 25],
            b[p + 26],
            b[p + 27],
        ),
        h._biYPelsPerMeter == crate::binary_io::u32_from(
            b[p + 28],
            b[p + 29],
            b[p + 30],
            b[p + 31],
        ),
        h.biClrUsed == crate::binary_io::u32_from(b[p + 32], b[p + 33], b[p + 34], b[p + 35]),
        h._biClrImportant == crate::binary_io::u32_from(b[p + 36], b[p + 37], b[p + 38], b[p + 39]),
    ensures
        info_header_bytes(h) == b.subrange(p, p + 40),
{
    crate::binary_io::lemma_u32_to_le_bytes(b[p], b[p + 1], b[p + 2], b[p + 3]);
    crate::binary_io::lemma_u32_to_le_bytes(b[p + 4], b[p + 5], b[p + 6], b[p + 7]);
    crate::binary_io::lemma_u32_to_le_bytes(b[p + 8], b[p + 9], b[p + 10], b[p + 11]);
    crate::binary_io::lemma_u16_to_le_bytes(b[p + 12], b[p + 13]);
    crate::binary_io::lemma_u16_to_le_bytes(b[p + 14], b[p + 15]);
    crate::binary_io::lemma_u32_to_le_bytes(b[p + 16], b[p + 17], b[p + 18], b[p + 19]);
    crate::binary_io::lemma_u32_to_le_bytes(b[p + 20], b[p + 21], b[p + 22], b[p + 23]);
    crate::binary_io::lemma_u32_to_le_bytes(b[p + 24], b[p + 25], b[p + 26], b[p + 27]);
    crate::binary_io::lemma_u32_to_le_bytes(b[p + 28], b[p + 29], b[p + 30], b[p + 31]);
    crate::binary_io::lemma_u32_to_le_bytes(b[p + 32], b[p + 33], b[p + 34], b[p + 35]);
    crate::binary_io::lemma_u32_to_le_bytes(b[p + 36], b[p + 37], b[p + 38], b[p + 39]);
    assert(info_header_bytes(h) =~= b.subrange(p, p + 40));
}

/// The little-endian fields of a BMP file, read straight off its bytes,
/// and the conditions under which `from_bmp_file` accepts it.
pub open spec fn bmp_off_bits(b: Seq<u8>) -> int {
    crate::binary_io::u32_from(b[10], b[11], b[12], b[13]) as int
}

pub open spec fn bmp_info_size(b: Seq<u8>) -> int {
    crate::binary_io::u32_from(b[14], b[15], b[16], b[17]) as int
}

pub open spec fn bmp_w(b: Seq<u8>) -> int {
    crate::binary_io::u32_from(b[18], b[19], b[20], b[21]) as int
}

pub open spec fn bmp_h(b: Seq<u8>) -> int {
    crate::binary_io::u32_from(b[22], b[23], b[24], b[25]) as int
}

pub open spec fn bmp_bpp(b: Seq<u8>) -> int {
    crate::binary_io::u16_from(b[28], b[29]) as int
}

pub open spec fn bmp_compression(b: Seq<u8>) -> int {
    crate::binary_io::u32_from(b[30], b[31], b[32], b[33]) as int
}

pub open spec fn bmp_clr_used(b: Seq<u8>) -> int {
    crate::binary_io::u32_from(b[46], b[47], b[48], b[49]) as int
}

/// How many palette entries the file carries: `biClrUsed` when it is a
/// sensible count, else the full table for its depth.
pub open spec fn bmp_nc(b: Seq<u8>) -> int {
    if bmp_clr_used(b) != 0 && bmp_clr_used(b) <= 256 {
        bmp_clr_used(b)
    } else {
        pow2(bmp_bpp(b) as nat) as int
    }
}

/// The four-byte-aligned scanline stride of the file.
pub open spec fn bmp_stride(b: Seq<u8>) -> int {
    ((bmp_w(b) * bmp_bpp(b) + 7) / 8 + 3) / 4 * 4
}

pub open spec fn bmp_sig_ok(b: Seq<u8>) -> bool {
    crate::binary_io::u16_from(b[0], b[1]) == 0x4D42
}

/// An uncompressed image at a supported depth, within the reader's caps.
pub open spec fn bmp_shape_ok(b: Seq<u8>) -> bool {
    &&& bmp_info_size(b) >= 40
    &&& bmp_compression(b) == 0
    &&& (bmp_bpp(b) == 1 || bmp_bpp(b) == 4 || bmp_bpp(b) == 8)
    &&& bmp_w(b) <= 0x4000
    &&& bmp_h(b) <= 0x4000
    &&& bmp_info_size(b) <= 0x0001_0000
}

pub open spec fn bmp_pal_ok(b: Seq<u8>) -> bool {
    14 + bmp_info_size(b) + 4 * bmp_nc(b) <= b.len()
}

pub open spec fn bmp_data_ok(b: Seq<u8>) -> bool {
    bmp_off_bits(b) <= b.len()
}

pub open spec fn bmp_size_ok(b: Seq<u8>) -> bool {
    bmp_stride(b) == 0 || bmp_stride(b) * bmp_h(b) + bmp_off_bits(b) <= b.len()
}

/// All of it together: the files `from_bmp_file` accepts.
pub open spec fn bmp_accepted(b: Seq<u8>) -> bool {
    &&& b.len() >= 54
    &&& bmp_sig_ok(b)
    &&& bmp_shape_ok(b)
    &&& bmp_pal_ok(b)
    &&& bmp_data_ok(b)
    &&& bmp_size_ok(b)
}

impl PlanarBMP {
    /// The pixel rows of the 8-bit indexed form, bottom row first, the first
    /// `k` of them.
    pub open spec fn pal8_rows_bottom_up(self, k: nat) -> Seq<u8>
        decreases k,
    {
        if k == 0 {
            Seq::empty()
        } else {
            self.pal8_rows_bottom_up((k - 1) as nat) + self.pal8_seq().subrange(
                (self.height - k) * self.width,
                (self.height - k) * self.width + self.width,
            )
        }
    }

    /// The whole serialised BMP file that `save_as_pal8` produces: file
    /// header, info header, the stored palette verbatim, then the 8-bit
    /// indexed rows bottom-up with no row padding.
    pub open spec fn pal8_file_bytes(self) -> Seq<u8> {
        let num_colours = pow2(self.planes as nat) as int;
        let data_offset = 54 + 4 * num_colours;
        let data_size = self.width * self.height;
        file_header_bytes(
            BitmapFileHeader {
                bfType: 0x4D42,
                bfSize: (data_offset + data_size) as u32,
                _bfReserved1: 0,
                _bfReserved2: 0,
                bfOffBits: data_offset as u32,
            },
        ) + info_header_bytes(
            BitmapInfoHeader {
                biSize: 40,
                biWidth: self.width as u32,
                biHeight: self.height as u32,
                biPlanes: 1,
                biBitCount: 8,
                biCompression: 0,
                biSizeImage: data_size as u32,
                _biXPelsPerMeter: 0,
                _biYPelsPerMeter: 0,
                biClrUsed: num_colours as u32,
                _biClrImportant: 0,
            },
        ) + self.palette@ + self.pal8_rows_bottom_up(self.height as nat)
    }

    /// Serialise as an 8-bit-per-pixel BMP: headers, the stored palette, then
    /// one byte per pixel, rows bottom-up.  The palette must hold exactly one
    /// `RGBQUAD` per representable colour, so that the pixel data really
    /// starts at the offset the file header declares.
    pub fn save_as_pal8(&self) -> (r: Vec<u8>)
        requires
            self.wf(),
            self.palette@.len() == 4 * pow2(self.planes as nat),
            self.width * self.height + 1078 <= u32::MAX,
            self.width <= u32::MAX,
            self.height <= u32::MAX,
        ensures
            r@ == self.pal8_file_bytes(),
    {
        proof {
            lemma_pow2_values();
            lemma_pow2_increases(self.planes as nat, 8);
        }
        let data_size: usize = self.width * self.height;
        let num_colours: usize = pow2_exec(self.planes as u8);
        let data_offset: usize = 54 + 4 * num_colours;
        let bmp_file_header = BitmapFileHeader::new(
            (data_offset + data_size) as u32,
            data_offset as u32,
        );
        let bmp_info_header = BitmapInfoHeader::new(
            self.width as u32,
            self.height as u32,
            8,
            num_colours as u32,
            data_size as u32,
        );
        let mut out: Vec<u8> = Vec::new();
        bmp_file_header.write(&mut out);
        bmp_info_header.write(&mut out);
        crate::binary_io::append_bytes(&mut out, &self.palette);
        let data = self.to_pal8_data();
        let ghost head = out@;
        let mut k: usize = 0;
        while k < self.height
            invariant
                self.wf(),
                k <= self.height,
                self.width * self.height <= u32::MAX,
                data@ == self.pal8_seq(),
                data@.len() == self.width * self.height,
                out@ == head + self.pal8_rows_bottom_up(k as nat),
            decreases self.height - k,
        {
            let row: usize = self.height - 1 - k;
            proof {
                lemma_row_major_bound(self.width as int, self.height as int, 0, row as int);
                if self.width > 0 {
                    lemma_row_major_bound(
                        self.width as int,
                        self.height as int,
                        self.width - 1,
                        row as int,
                    );
                }
            }
            let start: usize = row * self.width;
            let mut i: usize = 0;
            while i < self.width
                invariant
                    self.wf(),
                    k < self.height,
                    self.width * self.height <= u32::MAX,
                    row == self.height - 1 - k,
                    start == row * self.width,
                    start + self.width <= data@.len(),
                    data@.len() == self.width * self.height,
                    i <= self.width,
                    out@ == head + self.pal8_rows_bottom_up(k as nat) + data@.subrange(
                        start as int,
                        start + i,
                    ),
                decreases self.width - i,
            {
                out.push(data[start + i]);
                i = i + 1;
                assert(out@ =~= head + self.pal8_rows_bottom_up(k as nat) + data@.subrange(
                    start as int,
                    start + i,
                ));
            }
            k = k + 1;
            proof {
                assert((self.height - k) * self.width == start);
                assert(out@ =~= head + self.pal8_rows_bottom_up(k as nat));
            }
        }
        proof {
            assert(out@ =~= self.pal8_file_bytes());
        }
        out
    }
}

impl PlanarBMP {
    /// The bottom-up rows hold one byte per pixel.
    pub proof fn lemma_pal8_rows_len(self, k: nat)
        requires
            self.wf(),
            k <= self.height,
        ensures
            self.pal8_rows_bottom_up(k).len() == k * self.width,
        decreases k,
    {
        if k == 0 {
            assert(self.pal8_rows_bottom_up(0) == Seq::<u8>::empty());
            assert(k * self.width == 0) by (nonlinear_arith)
                requires
                    k == 0,
            ;
        } else {
            self.lemma_pal8_rows_len((k - 1) as nat);
            lemma_row_major_bound(self.width as int, self.height as int, 0, self.height - k);
            assert(self.pal8_seq().len() == self.width * self.height);
            assert(0 <= (self.height - k) * self.width);
            assert((self.height - k) * self.width + self.width <= self.width * self.height);
            assert(self.pal8_seq().subrange(
                (self.height - k) * self.width,
                (self.height - k) * self.width + self.width,
            ).len() == self.width);
            assert(self.pal8_rows_bottom_up(k).len() == self.pal8_rows_bottom_up((k - 1) as nat)
                .len() + self.width);
            assert((k - 1) * self.width + self.width == k * self.width) by (nonlinear_arith);
        }
    }

    /// Indexing into the bottom-up rows: block `j` of the payload holds the
    /// image's row `h - 1 - j`.
    pub proof fn lemma_pal8_rows_index(self, k: nat, j: int, t: int)
        requires
            self.wf(),
            k <= self.height,
            0 <= j < k,
            0 <= t < self.width,
        ensures
            self.pal8_rows_bottom_up(k).len() == k * self.width,
            self.pal8_rows_bottom_up(k)[j * self.width + t] == self.pal8_seq()[(self.height - 1
                - j) * self.width + t],
        decreases k,
    {
        lemma_row_major_bound(self.width as int, self.height as int, t, self.height - k);
        assert(self.pal8_seq().len() == self.width * self.height);
        assert((self.height - k) * self.width + self.width <= self.width * self.height);
        if k > 0 {
            if j < k - 1 {
                self.lemma_pal8_rows_index((k - 1) as nat, j, t);
                assert((k - 1) * self.width + self.width == k * self.width) by (nonlinear_arith);
                assert(0 <= j * self.width + t < (k - 1) * self.width) by (nonlinear_arith)
                    requires
                        0 <= j < k - 1,
                        0 <= t < self.width,
                ;
            } else {
                self.lemma_pal8_rows_len((k - 1) as nat);
                assert((k - 1) * self.width + self.width == k * self.width) by (nonlinear_arith);
                assert(self.pal8_rows_bottom_up(k)[j * self.width + t] == self.pal8_seq().subrange(
                    (self.height - k) * self.width,
                    (self.height - k) * self.width + self.width,
                )[t]);
            }
        }
    }

    /// Serialising with `save_as_pal8` and rebuilding the image from the
    /// file's pixel rows with `from_packed` at eight bits per pixel gives
    /// back every packed pixel.  `q` stands for the rebuilt image.
    pub proof fn lemma_pal8_round_trip(self, q: PlanarBMP)
        requires
            self.wf(),
            q.width == self.width,
            q.height == self.height,
            q.planes == 8,
            forall|x: int, y: int|
                0 <= x < self.width && 0 <= y < self.height ==> q.pixel(x, y) == bmp_packed_pixel(
                    self.pal8_rows_bottom_up(self.height as nat),
                    self.width as int,
                    self.height as int,
                    8,
                    x,
                    y,
                ) as nat,
        ensures
            forall|x: int, y: int|
                0 <= x < self.width && 0 <= y < self.height ==> q.pixel(x, y) == self.pixel(x, y),
    {
        lemma_pow2_values();
        assert forall|x: int, y: int|
            0 <= x < self.width && 0 <= y < self.height implies q.pixel(x, y) == self.pixel(
            x,
            y,
        ) by {
            self.lemma_pal8_rows_index(self.height as nat, self.height - 1 - y, x);
            lemma_row_major_bound(self.width as int, self.height as int, x, y);
            let b = self.pal8_rows_bottom_up(self.height as nat)[(self.height - 1 - y)
                * self.width + x];
            assert(((b >> 0u8) & 255u8) == b) by (bit_vector);
            assert(b == self.pal8_seq()[y * self.width + x]);
            self.lemma_pixel_bound(x, y);
            lemma_pow2_increases(self.planes as nat, 8);
            assert(self.pal8_seq()[y * self.width + x] == (self.pixel(x, y) % 256) as u8);
        }
    }
}

/// Two to the power `e`, executably (`e` at most 8).
pub fn pow2_exec(e: u8) -> (r: usize)
    requires
        e <= 8,
    ensures
        r == pow2(e as nat),
{
    proof {
        lemma_pow2_values();
    }
    let mut r: usize = 1;
    let mut i: u8 = 0;
    while i < e
        invariant
            i <= e,
            e <= 8,
            r == pow2(i as nat),
        decreases e - i,
    {
        proof {
            lemma_pow2_increases(i as nat, 7);
            lemma_pow2_values();
        }
        r = r * 2;
        i = i + 1;
    }
    r
}

} // verus!
