//! Preparing a decoded RGB frame for an RGBA drawing surface: every packed
//! three-byte pixel is widened with a fully opaque alpha byte. Trailing bytes
//! that do not form a whole pixel are ignored.

use vstd::prelude::*;

verus! {

/// The number of whole pixels in a packed RGB byte buffer.
pub open spec fn pixel_count(n: nat) -> nat {
    n / 3
}

/// Pixel `i` of `out` carries the three source bytes of pixel `i` of `rgb`
/// followed by a fully opaque alpha byte.
pub open spec fn rgba_pixel_ok(rgb: Seq<u8>, out: Seq<u8>, i: int) -> bool {
    &&& out[4 * i] == rgb[3 * i]
    &&& out[4 * i + 1] == rgb[3 * i + 1]
    &&& out[4 * i + 2] == rgb[3 * i + 2]
    &&& out[4 * i + 3] == 255u8
}

/// Widens packed RGB bytes to RGBA with an opaque alpha channel: pixel `i` of
/// the result carries the three source bytes of pixel `i` followed by 255.
pub fn rgb_to_rgba(rgb: &[u8]) -> (out: Vec<u8>)
    ensures
        out@.len() == 4 * pixel_count(rgb@.len()),
        forall|i: int| 0 <= i < pixel_count(rgb@.len()) ==> rgba_pixel_ok(rgb@, out@, i),
{
    let mut out: Vec<u8> = Vec::new();
    let pixels = rgb.len() / 3;
    let mut i: usize = 0;
    while i < pixels
        invariant
            pixels == pixel_count(rgb@.len()),
            rgb@.len() <= usize::MAX,
            i <= pixels,
            out@.len() == 4 * i,
            forall|j: int| 0 <= j < i ==> rgba_pixel_ok(rgb@, out@, j),
        decreases pixels - i,
    {
        proof {
            assert(3 * i + 2 < rgb@.len()) by (nonlinear_arith)
                requires
                    i < pixels,
                    pixels == rgb@.len() / 3,
            ;
        }
        let ghost out0 = out@;
        out.push(rgb[3 * i]);
        out.push(rgb[3 * i + 1]);
        out.push(rgb[3 * i + 2]);
        out.push(255);
        proof {
            assert(rgba_pixel_ok(rgb@, out@, i as int));
            assert forall|j: int| 0 <= j < i implies rgba_pixel_ok(rgb@, out@, j) by {
                assert(rgba_pixel_ok(rgb@, out0, j));
                assert(out@[4 * j] == out0[4 * j]);
                assert(out@[4 * j + 1] == out0[4 * j + 1]);
                assert(out@[4 * j + 2] == out0[4 * j + 2]);
                assert(out@[4 * j + 3] == out0[4 * j + 3]);
            }
        }
        i = i + 1;
    }
    out
}

} // verus!
