//! The `main.dat` orchestrator's compute: slicing a decompressed section
//! into animation filmstrips driven by a configured table of sprite
//! geometries.  The table itself is configuration the caller supplies.
#![allow(unused_imports)]
use vstd::prelude::*;

use crate::LemError;
use crate::bitmath::{lemma_pow2_increases, lemma_pow2_values, pow2};
use crate::planar_bmp::{pow2_exec, PlanarBMP};

verus! {

/// One animation's geometry: how many frames, and each frame's shape.
#[derive(Clone, Copy, PartialEq, Eq, Structural, Debug)]
pub struct AnimDesc {
    pub num_frames: usize,
    pub width: usize,
    pub height: usize,
    pub planes: usize,
}

/// A descriptor the slicer can work with: a byte-aligned width and shapes
/// small enough for every size computation (far beyond any real sprite).
pub open spec fn anim_ok(a: AnimDesc) -> bool {
    &&& 1 <= a.planes <= 8
    &&& a.width % 8 == 0
    &&& a.width <= 0x1000
    &&& a.height <= 0x1000
    &&& a.num_frames <= 0x4000
    &&& a.height * a.num_frames <= 0x4000
}

/// Bytes of one frame of an animation: its planes, each `width/8` bytes
/// per row.
pub open spec fn anim_frame_bytes(a: AnimDesc) -> int {
    (a.width as int / 8) * a.height * a.planes
}

/// Bytes the first `k` animations occupy in the decompressed section.
pub open spec fn anims_total(anims: Seq<AnimDesc>, k: int) -> int
    decreases k,
{
    if k <= 0 {
        0
    } else {
        anims_total(anims, k - 1) + anims[k - 1].num_frames * anim_frame_bytes(anims[k - 1])
    }
}

/// The first `4 * 2^planes` bytes of an RGBQUAD palette, zero-padded: the
/// palette an image with that many planes is saved with.
pub fn rgbquad_prefix(pal: &Vec<u8>, planes: usize) -> (r: Vec<u8>)
    requires
        planes <= 8,
    ensures
        r@.len() == 4 * pow2(planes as nat),
{
    proof {
        lemma_pow2_values();
        lemma_pow2_increases(planes as nat, 8);
    }
    let want: usize = 4 * pow2_exec(planes as u8);
    let mut out: Vec<u8> = Vec::new();
    let mut i: usize = 0;
    while i < want
        invariant
            i <= want,
            out@.len() == i,
        decreases want - i,
    {
        if i < pal.len() {
            out.push(pal[i]);
        } else {
            out.push(0);
        }
        i = i + 1;
    }
    out
}

/// Slice `data` into one vertical filmstrip BMP per descriptor, frames
/// stacked top to bottom, advancing a running offset by each animation's
/// size.
///
/// Succeeds exactly when every descriptor is workable and the section holds
/// all the frames; each returned buffer is then a whole 8-bit BMP file of
/// the descriptor's filmstrip shape.
pub fn extract_anims(data: &Vec<u8>, anims: &Vec<AnimDesc>, palette: &Vec<u8>) -> (r: Result<
    Vec<Vec<u8>>,
    LemError,
>)
    ensures
        r is Ok <==> (forall|k: int| 0 <= k < anims@.len() ==> anim_ok(#[trigger] anims@[k]))
            && anims_total(anims@, anims@.len() as int) <= data@.len(),
        r is Ok ==> r->Ok_0@.len() == anims@.len(),
{
    let dl = data.len();
    // First pass: validate the geometry and the section size.
    let mut used: usize = 0;
    let mut i: usize = 0;
    while i < anims.len()
        invariant
            i <= anims@.len(),
            dl == data@.len(),
            used == anims_total(anims@, i as int),
            used <= dl,
            forall|k: int| 0 <= k < i ==> anim_ok(#[trigger] anims@[k]),
        decreases anims@.len() - i,
    {
        let a = anims[i];
        if !(1 <= a.planes && a.planes <= 8 && a.width % 8 == 0 && a.width <= 0x1000 && a.height
            <= 0x1000 && a.num_frames <= 0x4000) {
            return Err(LemError::BadBitmap);
        }
        proof {
            assert(a.height * a.num_frames <= 0x1000 * 0x4000) by (nonlinear_arith)
                requires
                    0 <= a.height <= 0x1000,
                    0 <= a.num_frames <= 0x4000,
            ;
        }
        if a.height * a.num_frames > 0x4000 {
            return Err(LemError::BadBitmap);
        }
        proof {
            assert((a.width as int / 8) * a.planes <= 0x200 * 8 && a.num_frames * ((a.width as int
                / 8) * a.height * a.planes) == (a.width as int / 8) * a.planes * (a.height
                * a.num_frames) && (a.width as int / 8) * a.planes * (a.height * a.num_frames)
                <= 0x200 * 8 * 0x4000) by (nonlinear_arith)
                requires
                    a.width <= 0x1000,
                    a.height <= 0x1000,
                    1 <= a.planes <= 8,
                    a.height * a.num_frames <= 0x4000,
            ;
        }
        let need: usize = (a.width / 8) * a.planes * (a.height * a.num_frames);
        if dl - used < need {
            proof {
                lemma_anims_total_step(anims@, i as int);
                if forall|k: int| 0 <= k < anims@.len() ==> anim_ok(#[trigger] anims@[k]) {
                    lemma_anims_total_mono(anims@, i + 1, anims@.len() as int);
                }
            }
            return Err(LemError::UnexpectedEof);
        }
        proof {
            lemma_anims_total_step(anims@, i as int);
        }
        used = used + need;
        i = i + 1;
    }
    // Second pass: build each filmstrip.
    let mut out: Vec<Vec<u8>> = Vec::new();
    let mut offset: usize = 0;
    let mut j: usize = 0;
    while j < anims.len()
        invariant
            j <= anims@.len(),
            dl == data@.len(),
            offset == anims_total(anims@, j as int),
            anims_total(anims@, anims@.len() as int) <= dl,
            forall|k: int| 0 <= k < anims@.len() ==> anim_ok(#[trigger] anims@[k]),
            out@.len() == j,
        decreases anims@.len() - j,
    {
        let a = anims[j];
        proof {
            lemma_anims_total_step(anims@, j as int);
            lemma_anims_total_mono(anims@, j + 1, anims@.len() as int);
            assert((a.width as int / 8) * a.height * a.planes >= 0 && a.num_frames * ((
            a.width as int / 8) * a.height * a.planes) == (a.width as int / 8) * a.planes * (
            a.height * a.num_frames)) by (nonlinear_arith)
                requires
                    a.width >= 0,
                    a.height >= 0,
                    a.planes >= 0,
                    a.num_frames >= 0,
            ;
            assert(((a.width + 7) / 8) * (a.height * a.num_frames) <= 0x201 * 0x4000 && ((a.width
                + 7) / 8) * (a.height * a.num_frames) * a.planes <= 0x201 * 0x4000 * 8 && a.width
                * (a.height * a.num_frames) <= 0x1000 * 0x4000) by (nonlinear_arith)
                requires
                    a.width <= 0x1000,
                    a.height <= 0x1000,
                    1 <= a.planes <= 8,
                    a.height * a.num_frames <= 0x4000,
            ;
            assert((a.width as int / 8) * a.height <= 0x200 * 0x1000 && (a.width as int / 8)
                * a.height * a.planes <= 0x200 * 0x1000 * 8) by (nonlinear_arith)
                requires
                    a.width <= 0x1000,
                    a.height <= 0x1000,
                    1 <= a.planes <= 8,
            ;
        }
        let strip_h = a.height * a.num_frames;
        let mut strip = PlanarBMP::new(a.width, strip_h, a.planes, rgbquad_prefix(palette, a.planes));
        let frame_bytes: usize = (a.width / 8) * a.height * a.planes;
        let mut f: usize = 0;
        while f < a.num_frames
            invariant
                anim_ok(a),
                strip_h == a.height * a.num_frames,
                frame_bytes == anim_frame_bytes(a),
                dl == data@.len(),
                offset + a.num_frames * frame_bytes <= dl,
                f <= a.num_frames,
                strip.wf(),
                strip.width == a.width,
                strip.height == strip_h,
                strip.planes == a.planes,
                strip.palette@.len() == 4 * pow2(a.planes as nat),
            decreases a.num_frames - f,
        {
            proof {
                assert(f * frame_bytes + frame_bytes <= a.num_frames * frame_bytes && (f + 1)
                    * frame_bytes == f * frame_bytes + frame_bytes && f * a.height + a.height
                    <= a.num_frames * a.height && a.num_frames * a.height == a.height
                    * a.num_frames) by (nonlinear_arith)
                    requires
                        0 <= f < a.num_frames,
                        frame_bytes >= 0,
                        a.height >= 0,
                ;
                assert(((a.width + 7) / 8) * a.height * a.planes == frame_bytes)
                    by (nonlinear_arith)
                    requires
                        a.width % 8 == 0,
                        a.width >= 0,
                        frame_bytes == (a.width as int / 8) * a.height * a.planes,
                ;
                assert(((a.width + 7) / 8) * a.height <= 0x201 * 0x1000) by (nonlinear_arith)
                    requires
                        0 <= a.width <= 0x1000,
                        0 <= a.height <= 0x1000,
                ;
            }
            let start = offset + f * frame_bytes;
            let frame_data = crate::binary_io::slice_range(data, start, frame_bytes);
            let converted = PlanarBMP::from_contiguous_data(
                &frame_data,
                a.width,
                a.height,
                a.planes,
                Vec::new(),
            );
            strip.blit(&converted, 0, f * a.height);
            f = f + 1;
        }
        proof {
            lemma_pow2_values();
            lemma_pow2_increases(a.planes as nat, 8);
            assert(a.width * strip_h + 1078 <= u32::MAX);
        }
        let file = strip.save_as_pal8();
        out.push(file);
        offset = offset + a.num_frames * frame_bytes;
        j = j + 1;
        proof {
            lemma_anims_total_step(anims@, (j - 1) as int);
        }
    }
    Ok(out)
}

/// Unfolding the running total one animation at a time.
proof fn lemma_anims_total_step(anims: Seq<AnimDesc>, k: int)
    requires
        0 <= k < anims.len(),
    ensures
        anims_total(anims, k + 1) == anims_total(anims, k) + anims[k].num_frames
            * anim_frame_bytes(anims[k]),
{
}

/// The running total only grows with more animations.
proof fn lemma_anims_total_mono(anims: Seq<AnimDesc>, k: int, n: int)
    requires
        0 <= k <= n <= anims.len(),
        forall|t: int| 0 <= t < anims.len() ==> anim_ok(#[trigger] anims[t]),
    ensures
        anims_total(anims, k) <= anims_total(anims, n),
    decreases n - k,
{
    if k < n {
        lemma_anims_total_mono(anims, k + 1, n);
        let a = anims[k];
        assert(a.num_frames * anim_frame_bytes(a) >= 0) by (nonlinear_arith)
            requires
                anim_frame_bytes(a) >= 0,
                a.num_frames >= 0,
        ;
        assert(anim_frame_bytes(a) >= 0) by (nonlinear_arith)
            requires
                a.width >= 0,
                a.height >= 0,
                a.planes >= 0,
        ;
    }
}

} // verus!
