//! Aspect-ratio-preserving frame-fit scaling.
//!
//! Given the dimensions of a decoded image frame and of the container it is
//! drawn into, computes the largest uniformly-scaled placement that fits
//! entirely inside the container, centred along whichever axis has slack.
//! All arithmetic is exact integer arithmetic; divisions round toward zero.

use vstd::arithmetic::div_mod::{
    lemma_fundamental_div_mod, lemma_multiply_divide_le, lemma_multiply_divide_lt,
};
use vstd::prelude::*;

verus! {

/// The placement of a scaled frame inside its container: the size to draw at
/// and the offset of the top-left corner.
#[derive(Clone, Copy, PartialEq, Eq, Structural, Debug)]
pub struct FrameFit {
    pub draw_width: u32,
    pub draw_height: u32,
    pub offset_x: u32,
    pub offset_y: u32,
}

/// Scaling a frame with a zero source height or into a container of zero
/// height is a contract violation by the caller.
#[derive(Clone, Copy, PartialEq, Eq, Structural, Debug)]
pub enum ScaleError {
    InvalidDimensions,
}

/// True when the source image is relatively wider than the container, i.e.
/// `sw / sh > dw / dh`, written without division so it is exact.
pub open spec fn fills_width(sw: int, sh: int, dw: int, dh: int) -> bool {
    sw * dh > dw * sh
}

pub open spec fn spec_draw_width(sw: int, sh: int, dw: int, dh: int) -> int {
    if fills_width(sw, sh, dw, dh) {
        dw
    } else {
        (dh * sw) / sh
    }
}

pub open spec fn spec_draw_height(sw: int, sh: int, dw: int, dh: int) -> int {
    if fills_width(sw, sh, dw, dh) {
        (dw * sh) / sw
    } else {
        dh
    }
}

pub open spec fn spec_offset_x(sw: int, sh: int, dw: int, dh: int) -> int {
    if fills_width(sw, sh, dw, dh) {
        0
    } else {
        (dw - spec_draw_width(sw, sh, dw, dh)) / 2
    }
}

pub open spec fn spec_offset_y(sw: int, sh: int, dw: int, dh: int) -> int {
    if fills_width(sw, sh, dw, dh) {
        (dh - spec_draw_height(sw, sh, dw, dh)) / 2
    } else {
        0
    }
}

/// Computes the placement of a `sw` x `sh` frame inside a `dw` x `dh`
/// container: scaled uniformly to the largest size that fits, and centred
/// along the axis with slack. Rejects zero source or container heights.
pub fn fit_frame(sw: u32, sh: u32, dw: u32, dh: u32) -> (r: Result<FrameFit, ScaleError>)
    ensures
        (r is Err) <==> (sh == 0 || dh == 0),
        r matches Err(e) ==> e is InvalidDimensions,
        r matches Ok(f) ==> {
            &&& f.draw_width == spec_draw_width(sw as int, sh as int, dw as int, dh as int)
            &&& f.draw_height == spec_draw_height(sw as int, sh as int, dw as int, dh as int)
            &&& f.offset_x == spec_offset_x(sw as int, sh as int, dw as int, dh as int)
            &&& f.offset_y == spec_offset_y(sw as int, sh as int, dw as int, dh as int)
            &&& f.draw_width <= dw
            &&& f.draw_height <= dh
        },
{
    if sh == 0 || dh == 0 {
        return Err(ScaleError::InvalidDimensions);
    }

    let swu: u64 = sw as u64;
    let shu: u64 = sh as u64;
    let dwu: u64 = dw as u64;
    let dhu: u64 = dh as u64;

    proof {
        assert(swu * dhu <= 0xffff_ffff * 0xffff_ffff && dwu * shu <= 0xffff_ffff * 0xffff_ffff
            && dhu * swu <= 0xffff_ffff * 0xffff_ffff)
            by (nonlinear_arith)
            requires
                swu <= 0xffff_ffff,
                shu <= 0xffff_ffff,
                dwu <= 0xffff_ffff,
                dhu <= 0xffff_ffff,
        ;
    }

    if swu * dhu > dwu * shu {
        // The image is relatively wider than the container: fill the full
        // container width and centre vertically.
        proof {
            if swu == 0 {
                assert(swu * dhu == 0) by (nonlinear_arith)
                    requires
                        swu == 0,
                ;
            }
            lemma_multiply_divide_lt((dwu * shu) as int, swu as int, dhu as int);
        }
        let draw_height: u32 = ((dwu * shu) / swu) as u32;
        let offset_y: u32 = (dh - draw_height) / 2;
        Ok(FrameFit { draw_width: dw, draw_height, offset_x: 0, offset_y })
    } else {
        // The image is relatively taller (or exactly proportioned): fill the
        // full container height and centre horizontally.
        proof {
            assert(dhu * swu <= shu * dwu) by (nonlinear_arith)
                requires
                    swu * dhu <= dwu * shu,
            ;
            lemma_multiply_divide_le((dhu * swu) as int, shu as int, dwu as int);
        }
        let draw_width: u32 = ((dhu * swu) / shu) as u32;
        let offset_x: u32 = (dw - draw_width) / 2;
        Ok(FrameFit { draw_width, draw_height: dh, offset_x, offset_y: 0 })
    }
}

/// For every strictly positive source and container size, the computed
/// placement fits inside the container, the filled axis is flush while the
/// other is centred within one pixel of rounding, and the aspect ratio of the
/// drawn rectangle matches the source ratio as closely as integer sizes
/// allow: on the filled axis the other drawn size is the exact rational
/// `sw/sh` scaling rounded down.
pub proof fn lemma_scaler_containment(sw: int, sh: int, dw: int, dh: int)
    requires
        0 < sw,
        0 < sh,
        0 < dw,
        0 < dh,
    ensures
        spec_draw_width(sw, sh, dw, dh) <= dw,
        spec_draw_height(sw, sh, dw, dh) <= dh,
        0 <= spec_offset_x(sw, sh, dw, dh),
        0 <= spec_offset_y(sw, sh, dw, dh),
        fills_width(sw, sh, dw, dh) ==> {
            &&& spec_draw_width(sw, sh, dw, dh) == dw
            &&& spec_offset_x(sw, sh, dw, dh) == 0
            &&& sw * spec_draw_height(sw, sh, dw, dh) <= dw * sh
            &&& dw * sh < sw * (spec_draw_height(sw, sh, dw, dh) + 1)
            &&& 0 <= dh - (spec_draw_height(sw, sh, dw, dh) + 2 * spec_offset_y(sw, sh, dw, dh))
                <= 1
        },
        !fills_width(sw, sh, dw, dh) ==> {
            &&& spec_draw_height(sw, sh, dw, dh) == dh
            &&& spec_offset_y(sw, sh, dw, dh) == 0
            &&& sh * spec_draw_width(sw, sh, dw, dh) <= dh * sw
            &&& dh * sw < sh * (spec_draw_width(sw, sh, dw, dh) + 1)
            &&& 0 <= dw - (spec_draw_width(sw, sh, dw, dh) + 2 * spec_offset_x(sw, sh, dw, dh))
                <= 1
        },
{
    if fills_width(sw, sh, dw, dh) {
        let q = (dw * sh) / sw;
        lemma_multiply_divide_lt(dw * sh, sw, dh);
        lemma_fundamental_div_mod(dw * sh, sw);
        assert(dw * sh - sw * q < sw && 0 <= dw * sh - sw * q) by (nonlinear_arith)
            requires
                0 < sw,
                dw * sh == sw * ((dw * sh) / sw) + (dw * sh) % sw,
                q == (dw * sh) / sw,
                0 <= (dw * sh) % sw < sw,
        ;
        assert(sw * (q + 1) == sw * q + sw) by (nonlinear_arith);
        lemma_fundamental_div_mod(dh - q, 2);
    } else {
        let q = (dh * sw) / sh;
        assert(dh * sw <= sh * dw) by (nonlinear_arith)
            requires
                sw * dh <= dw * sh,
        ;
        lemma_multiply_divide_le(dh * sw, sh, dw);
        lemma_fundamental_div_mod(dh * sw, sh);
        assert(dh * sw - sh * q < sh && 0 <= dh * sw - sh * q) by (nonlinear_arith)
            requires
                0 < sh,
                dh * sw == sh * ((dh * sw) / sh) + (dh * sw) % sh,
                q == (dh * sw) / sh,
                0 <= (dh * sw) % sh < sh,
        ;
        assert(sh * (q + 1) == sh * q + sh) by (nonlinear_arith);
        lemma_fundamental_div_mod(dw - q, 2);
    }
}

} // verus!
