use vstd::prelude::*;

pub mod bayer;
pub mod grayscale;

use crate::grayscale::{
    diffused_pixels, is_binary, lemma_thresholded, mid_thresholds, ordered_thresholds, same_alpha,
    thresholded, DitherError, Grayscale, Pixel, ONE,
};

verus! {

/// The transform to apply to an image.
#[derive(Clone, Copy, Debug, PartialEq, Eq)]
pub enum Method {
    Grayscale,
    Quantise,
    WhiteNoise,
    Bayer0,
    Bayer1,
    Bayer2,
    Bayer3,
    FloydSteinberg,
}

/// The order of the Bayer matrix that a method uses, if it is ordered dithering.
pub open spec fn bayer_order(by: Method) -> Option<nat> {
    match by {
        Method::Bayer0 => Some(0),
        Method::Bayer1 => Some(1),
        Method::Bayer2 => Some(2),
        Method::Bayer3 => Some(3),
        _ => None,
    }
}

/// What a deterministic method makes of the pixels of an image of width `w`.
pub open spec fn transformed(by: Method, p: Seq<Pixel>, w: nat) -> Seq<Pixel> {
    match by {
        Method::Grayscale => p,
        Method::Quantise => thresholded(p, mid_thresholds(p.len())),
        Method::FloydSteinberg => diffused_pixels(p, w),
        _ => match bayer_order(by) {
            Some(n) => thresholded(p, ordered_thresholds(n, w, p.len())),
            None => p,
        },
    }
}

/// Applies one method to an image. Every method but white noise succeeds and
/// gives exactly `transformed`; white noise fails only when its random source
/// cannot be seeded, and otherwise thresholds each pixel by one draw in
/// `[0, ONE)`. Every result has the input's width, pixel count and
/// alphas, and every method but `Grayscale` leaves only black and white.
pub fn apply(g: Grayscale, by: Method) -> (r: Result<Grayscale, DitherError>)
    requires g.wf(),
    ensures
        by != Method::WhiteNoise ==> r is Ok && r->Ok_0@ == transformed(by, g@, g.spec_width()),
        by == Method::WhiteNoise && r is Err ==> r->Err_0 == DitherError::RandomSourceUnavailable,
        by == Method::WhiteNoise && r is Ok ==> exists|t: Seq<int>|
            t.len() == g@.len() && (forall|i: int| 0 <= i < t.len() ==> 0 <= #[trigger] t[i] < ONE)
            && r->Ok_0@ == thresholded(g@, t),
        r is Ok ==> {
            &&& r->Ok_0.wf()
            &&& r->Ok_0.spec_width() == g.spec_width()
            &&& same_alpha(r->Ok_0@, g@)
            &&& (by != Method::Grayscale ==> is_binary(r->Ok_0@))
        },
{
    let r = match by {
        Method::Grayscale => Ok(g),
        Method::Quantise => Ok(g.quantise()),
        Method::WhiteNoise => g.white_noise(),
        Method::Bayer0 => Ok(g.bayer(0)),
        Method::Bayer1 => Ok(g.bayer(1)),
        Method::Bayer2 => Ok(g.bayer(2)),
        Method::Bayer3 => Ok(g.bayer(3)),
        Method::FloydSteinberg => Ok(g.floyd_steinberg()),
    };
    proof {
        if r is Ok {
            let o = r->Ok_0;
            if by == Method::WhiteNoise {
                let t = choose|t: Seq<int>| t.len() == g@.len()
                    && (forall|i: int| 0 <= i < t.len() ==> 0 <= #[trigger] t[i] < ONE)
                    && o@ == thresholded(g@, t);
                lemma_thresholded(g@, t);
            } else if by == Method::Quantise {
                lemma_thresholded(g@, mid_thresholds(g@.len()));
            } else if let Some(n) = bayer_order(by) {
                lemma_thresholded(g@, ordered_thresholds(n, g.spec_width(), g@.len()));
            }
        }
    }
    r
}

/// Every method but white noise is deterministic: images with the same pixels
/// and width give results with the same pixels.
pub proof fn lemma_deterministic(by: Method, a: Grayscale, b: Grayscale, ra: Grayscale, rb: Grayscale)
    requires
        by != Method::WhiteNoise,
        a@ == b@,
        a.spec_width() == b.spec_width(),
        ra@ == transformed(by, a@, a.spec_width()),
        rb@ == transformed(by, b@, b.spec_width()),
    ensures
        ra@ == rb@,
{
}

} // verus!
