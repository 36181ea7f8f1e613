use vstd::prelude::*;

use crate::bayer::{bayer_matrix, bayer_seq, side, lemma_bayer_bound, lemma_seq_at};

verus! {

/// Linear luminance of white, in fixed point: a luminance `l` stands for `l / ONE`.
pub const ONE: i64 = 16777216;

/// Mid-gray, the threshold of plain quantisation.
pub const HALF: i64 = 8388608;

/// One pixel: linear luminance in fixed point, and the untouched alpha byte.
#[derive(Clone, Copy, Debug, PartialEq, Eq)]
pub struct Pixel {
    pub luma: i64,
    pub alpha: u8,
}

/// What can go wrong while building or dithering an image.
#[derive(Clone, Copy, Debug, PartialEq, Eq)]
pub enum DitherError {
    /// The random source of white-noise dithering could not be seeded.
    RandomSourceUnavailable,
    /// The width is zero or does not divide the pixel count.
    InvalidImageShape,
    /// A luminance lies outside `[0, ONE]`.
    LuminanceOutOfRange,
}

/// Black or white: white exactly when `above` holds.
pub open spec fn level(above: bool) -> i64 {
    if above { ONE } else { 0 }
}

/// Whether a pixel sequence can be the pixels of an image of the given width.
pub open spec fn valid_image(p: Seq<Pixel>, width: nat) -> bool {
    &&& width > 0
    &&& p.len() % width == 0
    &&& forall|i: int| 0 <= i < p.len() ==> 0 <= #[trigger] p[i].luma <= ONE
}

/// Every pixel is black or white.
pub open spec fn is_binary(p: Seq<Pixel>) -> bool {
    forall|i: int| 0 <= i < p.len() ==> #[trigger] p[i].luma == 0 || p[i].luma == ONE
}

/// Same length and the same alpha at every index.
pub open spec fn same_alpha(a: Seq<Pixel>, b: Seq<Pixel>) -> bool {
    &&& a.len() == b.len()
    &&& forall|i: int| 0 <= i < a.len() ==> #[trigger] a[i].alpha == b[i].alpha
}

/// Each pixel made white exactly when its luminance exceeds its threshold.
pub open spec fn thresholded(p: Seq<Pixel>, t: Seq<int>) -> Seq<Pixel> {
    Seq::new(p.len(), |i: int| Pixel { luma: level(p[i].luma > t[i]), alpha: p[i].alpha })
}

/// Thresholds of plain quantisation: mid-gray everywhere.
pub open spec fn mid_thresholds(len: nat) -> Seq<int> {
    Seq::new(len, |i: int| HALF as int)
}

/// Threshold of ordered dithering of order `n` at pixel `i` of an image of the
/// given width: with `x = i % width` and `y = i / width`, the matrix entry at
/// `(x % m) * m + y % m`, scaled from `[0, m * m)` to `[0, ONE)`.
pub open spec fn ordered_threshold(n: nat, width: nat, i: nat) -> int {
    let m = side(n);
    let x = i % width;
    let y = i / width;
    bayer_seq(n)[((x % m) * m + y % m) as int] * (ONE as int / (m * m) as int)
}

pub open spec fn ordered_thresholds(n: nat, width: nat, len: nat) -> Seq<int> {
    Seq::new(len, |i: int| ordered_threshold(n, width, i as nat))
}

/// The luminances of a pixel sequence.
pub open spec fn lumas(p: Seq<Pixel>) -> Seq<int> {
    Seq::new(p.len(), |i: int| p[i].luma as int)
}

/// `k` sixteenths of an error, rounded toward zero.
pub open spec fn share(e: int, k: int) -> int {
    if e >= 0 { (e * k) / 16 } else { -((-e * k) / 16) }
}

/// Adds `v` to the entry at `t`.
pub open spec fn bump(l: Seq<int>, t: int, v: int) -> Seq<int> {
    l.update(t, l[t] + v)
}

/// One step of error diffusion at index `i` of an image of width `w` and height
/// `h`: the pixel is set to black or white, and its error goes in sixteenths to
/// the neighbours not yet visited that lie inside the image: 7 to the right, 3
/// below left, 5 below, 1 below right.
pub open spec fn diffuse_at(l: Seq<int>, w: int, h: int, i: int) -> Seq<int> {
    let new = level(l[i] > HALF) as int;
    let e = l[i] - new;
    let x = i % w;
    let y = i / w;
    let l1 = l.update(i, new);
    let l2 = if x + 1 < w { bump(l1, i + 1, share(e, 7)) } else { l1 };
    let l3 = if x > 0 && y + 1 < h { bump(l2, i + w - 1, share(e, 3)) } else { l2 };
    let l4 = if y + 1 < h { bump(l3, i + w, share(e, 5)) } else { l3 };
    if x + 1 < w && y + 1 < h { bump(l4, i + w + 1, share(e, 1)) } else { l4 }
}

/// The luminances after the first `k` steps of error diffusion, in row-major
/// order.
pub open spec fn diffused(l: Seq<int>, w: int, h: int, k: nat) -> Seq<int>
    decreases k,
{
    if k == 0 { l } else { diffuse_at(diffused(l, w, h, (k - 1) as nat), w, h, k - 1) }
}

/// Sixteenths of a half-step error that pixel `j` may have received once the
/// pixels before `i` are done and the first `stage` targets of pixel `i` too.
spec fn credit(j: int, i: int, w: int, stage: int) -> int {
    (if j - 1 < i || (stage >= 1 && j - 1 == i) { 7int } else { 0 })
        + (if j - w + 1 < i || (stage >= 2 && j - w + 1 == i) { 3int } else { 0 })
        + (if j - w < i || (stage >= 3 && j - w == i) { 5int } else { 0 })
        + (if j - w - 1 < i || (stage >= 4 && j - w - 1 == i) { 1int } else { 0 })
}

/// Offset from a pixel to its target of the given stage.
spec fn offset(w: int, stage: int) -> int {
    if stage == 1 { 1 } else if stage == 2 { w - 1 } else if stage == 3 { w } else { w + 1 }
}

/// Sixteenths of the error that go to the target of the given stage.
spec fn weight(stage: int) -> int {
    if stage == 1 { 7 } else if stage == 2 { 3 } else if stage == 3 { 5 } else { 1 }
}

/// Each pixel after `i` is within its credit of its original luminance.
spec fn bounded(px: Seq<Pixel>, orig: Seq<Pixel>, i: int, w: int, stage: int) -> bool {
    forall|j: int| i < j < px.len() ==>
        -HALF * credit(j, i, w, stage) <= 16 * (#[trigger] px[j].luma - orig[j].luma)
        <= HALF * credit(j, i, w, stage)
}

proof fn lemma_stage(before: Seq<Pixel>, after: Seq<Pixel>, orig: Seq<Pixel>, i: int, w: int, stage: int, sh: int)
    requires
        1 <= stage <= 4,
        after.len() == before.len(),
        bounded(before, orig, i, w, stage - 1),
        -HALF * weight(stage) <= 16 * sh <= HALF * weight(stage),
        forall|j: int| i < j < before.len() ==> (#[trigger] after[j]).luma
            == before[j].luma + (if j == i + offset(w, stage) { sh } else { 0 }),
    ensures
        bounded(after, orig, i, w, stage),
{
    assert forall|j: int| i < j < after.len() implies
        -HALF * credit(j, i, w, stage) <= 16 * (#[trigger] after[j].luma - orig[j].luma)
        <= HALF * credit(j, i, w, stage) by {
        assert(after[j].luma == before[j].luma + (if j == i + offset(w, stage) { sh } else { 0 }));
        let d = before[j].luma - orig[j].luma;
        let c0 = credit(j, i, w, stage - 1);
        let c1 = credit(j, i, w, stage);
        let wt = weight(stage);
        assert(-HALF * c0 <= 16 * d <= HALF * c0);
        if j == i + offset(w, stage) {
            assert(c1 >= c0 + wt);
            assert(-HALF * c1 <= 16 * (d + sh) <= HALF * c1) by (nonlinear_arith)
                requires
                    -HALF * c0 <= 16 * d <= HALF * c0,
                    -HALF * wt <= 16 * sh <= HALF * wt,
                    c1 >= c0 + wt;
        } else {
            assert(c1 >= c0);
            assert(-HALF * c1 <= 16 * d <= HALF * c1) by (nonlinear_arith)
                requires
                    -HALF * c0 <= 16 * d <= HALF * c0,
                    c1 >= c0;
        }
    }
}

proof fn lemma_share_bound(e: int, k: int)
    requires 0 <= k <= 16,
    ensures
        e >= 0 ==> 0 <= 16 * share(e, k) <= e * k,
        e < 0 ==> e * k <= 16 * share(e, k) <= 0,
        e >= 0 ==> e * k - 16 < 16 * share(e, k),
        e < 0 ==> 16 * share(e, k) < e * k + 16,
{
    if e >= 0 {
        let a = e * k;
        assert(a >= 0) by (nonlinear_arith) requires e >= 0, k >= 0, a == e * k;
        assert(0 <= 16 * (a / 16) <= a) by (nonlinear_arith) requires a >= 0;
        assert(a - 16 < 16 * (a / 16)) by (nonlinear_arith) requires a >= 0;
    } else {
        let a = -e * k;
        assert(a >= 0) by (nonlinear_arith) requires e < 0, k >= 0, a == -e * k;
        assert(0 <= 16 * (a / 16) <= a) by (nonlinear_arith) requires a >= 0;
        assert(a - 16 < 16 * (a / 16)) by (nonlinear_arith) requires a >= 0;
        assert(-e * k == -(e * k)) by (nonlinear_arith);
    }
}

proof fn lemma_share_mag(e: int, k: int)
    requires 0 <= k <= 16, -HALF <= e <= HALF,
    ensures
        -HALF * k <= 16 * share(e, k) <= HALF * k,
{
    lemma_share_bound(e, k);
    assert(0 <= HALF * k) by (nonlinear_arith) requires k >= 0;
    assert(-HALF * k <= 0) by (nonlinear_arith) requires k >= 0;
    if e >= 0 {
        assert(e * k <= HALF * k) by (nonlinear_arith) requires e <= HALF, k >= 0;
    } else {
        assert(e * k >= -HALF * k) by (nonlinear_arith) requires e >= -HALF, k >= 0;
    }
}

fn share_of(e: i64, k: i64) -> (r: i64)
    requires
        -HALF <= e <= HALF,
        0 <= k <= 16,
    ensures
        r == share(e as int, k as int),
        -HALF * k <= 16 * r <= HALF * k,
{
    proof {
        lemma_share_mag(e as int, k as int);
        assert(-HALF * 16 <= e * k <= HALF * 16) by (nonlinear_arith)
            requires -HALF <= e <= HALF, 0 <= k <= 16;
    }
    if e >= 0 {
        let a: i64 = e * k;
        a / 16
    } else {
        proof {
            assert(0 <= (-e) * k <= HALF * 16) by (nonlinear_arith)
                requires -HALF <= e < 0, 0 <= k <= 16;
        }
        let a: i64 = (-e) * k;
        -(a / 16)
    }
}

/// The coordinates of an index inside an image of width `w` and height `h`,
/// and the neighbours that stay inside it.
proof fn lemma_coords(i: int, w: int, h: int)
    requires 0 <= i < w * h, w > 0,
    ensures
        i == w * (i / w) + i % w,
        0 <= i % w < w,
        0 <= i / w < h,
        i % w + 1 < w ==> i + 1 < w * h,
        i / w + 1 < h ==> i + w < w * h,
        i / w + 1 < h && i % w + 1 < w ==> i + w + 1 < w * h,
{
    vstd::arithmetic::div_mod::lemma_fundamental_div_mod(i, w);
    vstd::arithmetic::div_mod::lemma_mod_pos_bound(i, w);
    vstd::arithmetic::div_mod::lemma_div_pos_is_pos(i, w);
    let x = i % w;
    let y = i / w;
    assert(y < h) by (nonlinear_arith)
        requires i == w * y + x, 0 <= x, i < w * h, w > 0;
    if x + 1 < w {
        assert(i + 1 < w * h) by (nonlinear_arith)
            requires i == w * y + x, x + 1 < w, y < h, w > 0;
    }
    if y + 1 < h {
        assert(i + w + 1 < w * h || x + 1 >= w) by (nonlinear_arith)
            requires i == w * y + x, x < w, y + 1 < h, w > 0;
        assert(i + w < w * h) by (nonlinear_arith)
            requires i == w * y + x, x < w, y + 1 < h, w > 0;
    }
}

/// Error diffusion conserves the error of a pixel whose four neighbours all lie
/// inside the image: what the neighbours receive together is the error, short of
/// it by less than four units from rounding each share toward zero.
pub proof fn lemma_error_conserved(l: Seq<int>, w: int, h: int, i: int)
    requires
        w > 0,
        l.len() == w * h,
        0 <= i < l.len(),
        i % w > 0,
        i % w + 1 < w,
        i / w + 1 < h,
    ensures
        ({
            let e = l[i] - level(l[i] > HALF) as int;
            let d = diffuse_at(l, w, h, i);
            let got = (d[i + 1] - l[i + 1]) + (d[i + w - 1] - l[i + w - 1]) + (d[i + w] - l[i + w])
                + (d[i + w + 1] - l[i + w + 1]);
            &&& got == share(e, 7) + share(e, 3) + share(e, 5) + share(e, 1)
            &&& e >= 0 ==> 0 <= e - got < 4
            &&& e < 0 ==> 0 <= got - e < 4
        }),
{
    lemma_coords(i, w, h);
    let e = l[i] - level(l[i] > HALF) as int;
    lemma_share_bound(e, 7);
    lemma_share_bound(e, 3);
    lemma_share_bound(e, 5);
    lemma_share_bound(e, 1);
    assert(e * 7 + e * 3 + e * 5 + e * 1 == 16 * e) by (nonlinear_arith);
}

/// The sum of a sequence.
pub open spec fn seq_sum(s: Seq<int>) -> int
    decreases s.len(),
{
    if s.len() == 0 { 0 } else { seq_sum(s.drop_last()) + s.last() }
}

proof fn lemma_sum_update(s: Seq<int>, t: int, v: int)
    requires 0 <= t < s.len(),
    ensures seq_sum(s.update(t, v)) == seq_sum(s) - s[t] + v,
    decreases s.len(),
{
    let u = s.update(t, v);
    if t == s.len() - 1 {
        assert(u.drop_last() =~= s.drop_last());
    } else {
        lemma_sum_update(s.drop_last(), t, v);
        assert(u.drop_last() =~= s.drop_last().update(t, v));
    }
}

/// The error of pixel `i` when it is scanned: its luminance then, less the
/// level it is set to.
pub open spec fn step_error(l: Seq<int>, i: int) -> int {
    l[i] - level(l[i] > HALF) as int
}

/// What pixel `i` of an image of width `w` and height `h` hands on of an
/// error `e`: the shares of the neighbours that lie inside the image.
pub open spec fn passed_on(e: int, i: int, w: int, h: int) -> int {
    let x = i % w;
    let y = i / w;
    (if x + 1 < w { share(e, 7) } else { 0 })
        + (if x > 0 && y + 1 < h { share(e, 3) } else { 0 })
        + (if y + 1 < h { share(e, 5) } else { 0 })
        + (if x + 1 < w && y + 1 < h { share(e, 1) } else { 0 })
}

/// Sixteenths of its error that pixel `i` hands on: 16 for a pixel whose
/// four neighbours all lie inside the image.
pub open spec fn weight_on(i: int, w: int, h: int) -> int {
    let x = i % w;
    let y = i / w;
    (if x + 1 < w { 7int } else { 0 })
        + (if x > 0 && y + 1 < h { 3int } else { 0 })
        + (if y + 1 < h { 5int } else { 0 })
        + (if x + 1 < w && y + 1 < h { 1int } else { 0 })
}

/// Over the first `k` steps of the scan, the errors that were not handed on.
pub open spec fn kept_error(l: Seq<int>, w: int, h: int, k: nat) -> int
    decreases k,
{
    if k == 0 {
        0
    } else {
        let e = step_error(diffused(l, w, h, (k - 1) as nat), k - 1);
        kept_error(l, w, h, (k - 1) as nat) + (e - passed_on(e, k - 1, w, h))
    }
}

/// What a pixel hands on is its error times its weight in sixteenths, short
/// of it by less than four units from rounding each share toward zero.
pub proof fn lemma_passed_on(e: int, i: int, w: int, h: int)
    requires w > 0,
    ensures
        e >= 0 ==> 0 <= e * weight_on(i, w, h) - 16 * passed_on(e, i, w, h) < 64,
        e < 0 ==> 0 <= 16 * passed_on(e, i, w, h) - e * weight_on(i, w, h) < 64,
{
    lemma_share_bound(e, 7);
    lemma_share_bound(e, 3);
    lemma_share_bound(e, 5);
    lemma_share_bound(e, 1);
    let x = i % w;
    let y = i / w;
    let a: int = if x + 1 < w { 1 } else { 0 };
    let b: int = if x > 0 && y + 1 < h { 1 } else { 0 };
    let c: int = if y + 1 < h { 1 } else { 0 };
    let d: int = if x + 1 < w && y + 1 < h { 1 } else { 0 };
    assert(e * weight_on(i, w, h) == a * (e * 7) + b * (e * 3) + c * (e * 5) + d * (e * 1)) by (nonlinear_arith)
        requires weight_on(i, w, h) == a * 7 + b * 3 + c * 5 + d * 1;
    assert(passed_on(e, i, w, h) == a * share(e, 7) + b * share(e, 3) + c * share(e, 5) + d * share(e, 1));
}

proof fn lemma_step_sum(l: Seq<int>, w: int, h: int, i: int)
    requires
        w > 0,
        l.len() == w * h,
        0 <= i < l.len(),
    ensures
        diffuse_at(l, w, h, i).len() == l.len(),
        seq_sum(diffuse_at(l, w, h, i)) == seq_sum(l) - step_error(l, i)
            + passed_on(step_error(l, i), i, w, h),
{
    lemma_coords(i, w, h);
    let e = step_error(l, i);
    let new = level(l[i] > HALF) as int;
    let x = i % w;
    let y = i / w;
    let l1 = l.update(i, new);
    lemma_sum_update(l, i, new);
    let l2 = if x + 1 < w { bump(l1, i + 1, share(e, 7)) } else { l1 };
    if x + 1 < w {
        lemma_sum_update(l1, i + 1, l1[i + 1] + share(e, 7));
    }
    let l3 = if x > 0 && y + 1 < h { bump(l2, i + w - 1, share(e, 3)) } else { l2 };
    if x > 0 && y + 1 < h {
        lemma_sum_update(l2, i + w - 1, l2[i + w - 1] + share(e, 3));
    }
    let l4 = if y + 1 < h { bump(l3, i + w, share(e, 5)) } else { l3 };
    if y + 1 < h {
        lemma_sum_update(l3, i + w, l3[i + w] + share(e, 5));
    }
    if x + 1 < w && y + 1 < h {
        lemma_sum_update(l4, i + w + 1, l4[i + w + 1] + share(e, 1));
    }
}

proof fn lemma_diffused_len(l: Seq<int>, w: int, h: int, k: nat)
    requires
        w > 0,
        l.len() == w * h,
        k <= l.len(),
    ensures
        diffused(l, w, h, k).len() == l.len(),
    decreases k,
{
    if k > 0 {
        lemma_diffused_len(l, w, h, (k - 1) as nat);
        lemma_step_sum(diffused(l, w, h, (k - 1) as nat), w, h, k - 1);
    }
}

/// Error diffusion over the whole image: the luminance lost from the input to
/// the output is exactly the error that pixels did not hand on. By
/// `lemma_passed_on` a pixel hands on its error times its weight, which is
/// 16 sixteenths for a pixel whose neighbours all lie inside the image,
/// short of it by rounding alone.
pub proof fn lemma_total_error(l: Seq<int>, w: int, h: int, k: nat)
    requires
        w > 0,
        l.len() == w * h,
        k <= l.len(),
    ensures
        seq_sum(l) - seq_sum(diffused(l, w, h, k)) == kept_error(l, w, h, k),
    decreases k,
{
    if k > 0 {
        lemma_total_error(l, w, h, (k - 1) as nat);
        lemma_diffused_len(l, w, h, (k - 1) as nat);
        lemma_step_sum(diffused(l, w, h, (k - 1) as nat), w, h, k - 1);
    }
}

/// Thresholding gives black or white pixels and keeps every alpha.
pub proof fn lemma_thresholded(p: Seq<Pixel>, t: Seq<int>)
    ensures
        thresholded(p, t).len() == p.len(),
        same_alpha(thresholded(p, t), p),
        is_binary(thresholded(p, t)),
{
}

/// The pixels after error diffusion over an image of width `w`.
pub open spec fn diffused_pixels(p: Seq<Pixel>, w: nat) -> Seq<Pixel> {
    Seq::new(p.len(), |i: int| Pixel {
        luma: diffused(lumas(p), w as int, p.len() as int / w as int, p.len())[i] as i64,
        alpha: p[i].alpha,
    })
}

#[verifier::external_type_specification]
#[verifier::external_body]
pub struct ExSmallRng(rand::rngs::SmallRng);

#[verifier::external_type_specification]
#[verifier::external_body]
pub struct ExRandError(rand::Error);

/// Relies on `SeedableRng::from_rng` for rand's `SmallRng`, seeded from
/// `rand::rngs::OsRng`: when the operating system's entropy source fails, the
/// `getrandom` error comes back as `Err`, without a panic.
#[verifier::external_body]
fn seeded_rng() -> (r: Result<rand::rngs::SmallRng, rand::Error>) {
    <rand::rngs::SmallRng as rand::SeedableRng>::from_rng(rand::rngs::OsRng)
}

/// Relies on `Rng::gen_range` over the non-empty range `0..ONE`: the value lies
/// in that range.
#[verifier::external_body]
fn draw(rng: &mut rand::rngs::SmallRng) -> (r: i64)
    ensures
        0 <= r < ONE,
{
    rand::Rng::gen_range(rng, 0..ONE)
}

/// An image as a row-major sequence of pixels and a width.
pub struct Grayscale {
    pixels: Vec<Pixel>,
    width: usize,
}

impl View for Grayscale {
    type V = Seq<Pixel>;

    closed spec fn view(&self) -> Seq<Pixel> {
        self.pixels@
    }
}

impl Grayscale {
    /// The width in pixels.
    pub closed spec fn spec_width(&self) -> nat {
        self.width as nat
    }

    /// The well-formedness of an image.
    pub open spec fn wf(&self) -> bool {
        valid_image(self@, self.spec_width())
    }

    /// Builds an image from row-major pixels and a width.
    pub fn new(pixels: Vec<Pixel>, width: usize) -> (r: Result<Grayscale, DitherError>)
        ensures
            match r {
                Ok(g) => g.wf() && g@ == pixels@ && g.spec_width() == width,
                Err(e) => !valid_image(pixels@, width as nat) && e == (if width == 0
                    || pixels@.len() % (width as nat) != 0 {
                    DitherError::InvalidImageShape
                } else {
                    DitherError::LuminanceOutOfRange
                }),
            },
            r is Ok <==> valid_image(pixels@, width as nat),
    {
        if width == 0 || pixels.len() % width != 0 {
            return Err(DitherError::InvalidImageShape);
        }
        let mut i: usize = 0;
        while i < pixels.len()
            invariant
                i <= pixels@.len(),
                width > 0,
                pixels@.len() % (width as nat) == 0,
                forall|j: int| 0 <= j < i ==> 0 <= #[trigger] pixels@[j].luma <= ONE,
            decreases pixels@.len() - i,
        {
            if pixels[i].luma < 0 || pixels[i].luma > ONE {
                proof {
                    assert(!(0 <= pixels@[i as int].luma <= ONE));
                }
                return Err(DitherError::LuminanceOutOfRange);
            }
            i = i + 1;
        }
        Ok(Grayscale { pixels, width })
    }

    /// The width in pixels.
    pub fn width(&self) -> (r: usize)
        ensures r == self.spec_width(),
    {
        self.width
    }

    /// A copy of the pixels, row-major.
    pub fn to_pixels(&self) -> (r: Vec<Pixel>)
        ensures r@ == self@,
    {
        self.pixels.clone()
    }

    /// Makes each pixel white where its luminance exceeds the threshold of the
    /// same index, black elsewhere.
    fn threshold_by(&self, t: &Vec<i64>) -> (r: Grayscale)
        requires
            self.wf(),
            t@.len() == self@.len(),
        ensures
            r.wf(),
            r.spec_width() == self.spec_width(),
            r@ == thresholded(self@, t@.map_values(|v: i64| v as int)),
    {
        let ghost ts = t@.map_values(|v: i64| v as int);
        let mut out: Vec<Pixel> = Vec::new();
        let mut i: usize = 0;
        while i < self.pixels.len()
            invariant
                i <= self@.len(),
                self.wf(),
                t@.len() == self@.len(),
                ts == t@.map_values(|v: i64| v as int),
                out@.len() == i,
                forall|j: int| 0 <= j < i ==> #[trigger] out@[j] == thresholded(self@, ts)[j],
            decreases self@.len() - i,
        {
            let p = self.pixels[i];
            let l: i64 = if p.luma > t[i] { ONE } else { 0 };
            out.push(Pixel { luma: l, alpha: p.alpha });
            i = i + 1;
        }
        proof {
            assert(out@ =~= thresholded(self@, ts));
        }
        Grayscale { pixels: out, width: self.width }
    }

    /// Plain quantisation: white where the luminance exceeds mid-gray.
    pub fn quantise(&self) -> (r: Grayscale)
        requires self.wf(),
        ensures
            r.wf(),
            r.spec_width() == self.spec_width(),
            r@ == thresholded(self@, mid_thresholds(self@.len())),
    {
        let mut t: Vec<i64> = Vec::new();
        let mut i: usize = 0;
        while i < self.pixels.len()
            invariant
                i <= self@.len(),
                t@.len() == i,
                forall|j: int| 0 <= j < i ==> #[trigger] t@[j] == HALF,
            decreases self@.len() - i,
        {
            t.push(HALF);
            i = i + 1;
        }
        let r = self.threshold_by(&t);
        proof {
            assert(t@.map_values(|v: i64| v as int) =~= mid_thresholds(self@.len()));
        }
        r
    }

    /// White-noise dithering with the given draws, one per pixel in row-major
    /// order: white where the luminance exceeds the pixel's draw.
    pub fn white_noise_with(&self, noise: &Vec<i64>) -> (r: Grayscale)
        requires
            self.wf(),
            noise@.len() == self@.len(),
        ensures
            r.wf(),
            r.spec_width() == self.spec_width(),
            r@ == thresholded(self@, noise@.map_values(|v: i64| v as int)),
    {
        self.threshold_by(noise)
    }

    /// White-noise dithering: one fresh draw in `[0, ONE)` per pixel, in
    /// row-major order, from a generator seeded from system entropy.
    pub fn white_noise(&self) -> (r: Result<Grayscale, DitherError>)
        requires self.wf(),
        ensures
            match r {
                Ok(g) => g.wf() && g.spec_width() == self.spec_width() && exists|t: Seq<int>|
                    t.len() == self@.len() && (forall|i: int| 0 <= i < t.len() ==> 0 <= #[trigger] t[i] < ONE)
                    && g@ == thresholded(self@, t),
                Err(e) => e == DitherError::RandomSourceUnavailable,
            },
    {
        let mut rng = match seeded_rng() {
            Ok(rng) => rng,
            Err(_) => return Err(DitherError::RandomSourceUnavailable),
        };
        let mut noise: Vec<i64> = Vec::new();
        let mut i: usize = 0;
        while i < self.pixels.len()
            invariant
                i <= self@.len(),
                noise@.len() == i,
                forall|j: int| 0 <= j < i ==> 0 <= #[trigger] noise@[j] < ONE,
            decreases self@.len() - i,
        {
            let v = draw(&mut rng);
            noise.push(v);
            i = i + 1;
        }
        let g = self.white_noise_with(&noise);
        proof {
            let t = noise@.map_values(|v: i64| v as int);
            assert(forall|j: int| 0 <= j < t.len() ==> 0 <= #[trigger] t[j] < ONE);
        }
        Ok(g)
    }

    /// Ordered dithering against the Bayer matrix of order `n`.
    pub fn bayer(&self, n: u64) -> (r: Grayscale)
        requires
            self.wf(),
            n <= 3,
        ensures
            r.wf(),
            r.spec_width() == self.spec_width(),
            r@ == thresholded(self@, ordered_thresholds(n as nat, self.spec_width(), self@.len())),
    {
        let matrix = bayer_matrix(n);
        let m: usize = if n == 0 { 2 } else if n == 1 { 4 } else if n == 2 { 8 } else { 16 };
        let scale: i64 = if n == 0 { 4194304 } else if n == 1 { 1048576 } else if n == 2 { 262144 } else { 65536 };
        proof {
            reveal_with_fuel(side, 4);
            if n == 0 {
                assert(scale == ONE as int / 4);
            } else if n == 1 {
                assert(scale == ONE as int / 16);
            } else if n == 2 {
                assert(scale == ONE as int / 64);
            } else {
                assert(scale == ONE as int / 256);
            }
        }
        let ghost ts = ordered_thresholds(n as nat, self.width as nat, self@.len());
        let mut t: Vec<i64> = Vec::new();
        let mut i: usize = 0;
        while i < self.pixels.len()
            invariant
                i <= self@.len(),
                self.wf(),
                n <= 3,
                m == side(n as nat),
                2 <= m <= 16,
                scale == ONE as int / (m * m) as int,
                scale <= 4194304,
                matrix@.len() == bayer_seq(n as nat).len(),
                forall|j: int| 0 <= j < matrix@.len() ==> matrix@[j] as nat == #[trigger] bayer_seq(n as nat)[j],
                ts == ordered_thresholds(n as nat, self.width as nat, self@.len()),
                t@.len() == i,
                forall|j: int| 0 <= j < i ==> #[trigger] t@[j] == ts[j],
            decreases self@.len() - i,
        {
            let x = i % self.width;
            let y = i / self.width;
            let xm = x % m;
            let ym = y % m;
            proof {
                assert(xm * m + ym < m * m) by (nonlinear_arith)
                    requires xm < m, ym < m;
                assert(xm * m <= 240) by (nonlinear_arith)
                    requires xm < m, m <= 16;
            }
            let idx = xm * m + ym;
            proof {
                lemma_seq_at(n as nat, idx as int);
                lemma_bayer_bound(n as nat, (idx as int % m as int) as nat, (idx as int / m as int) as nat);
                assert(m * m <= 256) by (nonlinear_arith)
                    requires m <= 16;
                assert(matrix@[idx as int] < 256);
                let mv = matrix@[idx as int] as int;
                assert(0 <= mv * scale <= 256 * 4194304) by (nonlinear_arith)
                    requires 0 <= mv < 256, 0 <= scale <= 4194304;
            }
            let v: i64 = matrix[idx] as i64 * scale;
            t.push(v);
            i = i + 1;
        }
        let r = self.threshold_by(&t);
        proof {
            assert(t@.map_values(|v: i64| v as int) =~= ts);
        }
        r
    }

    /// Floyd-Steinberg error diffusion over the pixels in row-major order.
    #[verifier::rlimit(60)]
    pub fn floyd_steinberg(&self) -> (r: Grayscale)
        requires self.wf(),
        ensures
            r.wf(),
            r.spec_width() == self.spec_width(),
            same_alpha(r@, self@),
            is_binary(r@),
            lumas(r@) == diffused(lumas(self@), self.spec_width() as int,
                self@.len() as int / self.spec_width() as int, self@.len()),
            r@ == diffused_pixels(self@, self.spec_width()),
    {
        let width = self.width;
        let n = self.pixels.len();
        let height = n / width;
        let ghost orig = self@;
        let ghost w = width as int;
        let ghost h = height as int;
        proof {
            vstd::arithmetic::div_mod::lemma_fundamental_div_mod(n as int, w);
            assert(w * h == n);
        }
        let mut px = self.pixels.clone();
        let mut i: usize = 0;
        while i < n
            invariant
                self.wf(),
                orig == self@,
                n == orig.len(),
                w == width,
                h == height,
                w > 0,
                w * h == n,
                i <= n,
                px@.len() == n,
                lumas(px@) == diffused(lumas(orig), w, h, i as nat),
                same_alpha(px@, orig),
                forall|j: int| 0 <= j < i ==> #[trigger] px@[j].luma == 0 || px@[j].luma == ONE,
                forall|j: int| i <= j < n ==>
                    -HALF * credit(j, i as int, w, 0) <= 16 * (#[trigger] px@[j].luma - orig[j].luma)
                    <= HALF * credit(j, i as int, w, 0),
            decreases n - i,
        {
            let ghost l0 = lumas(px@);
            let ghost ii = i as int;
            proof {
                lemma_coords(ii, w, h);
                assert(credit(ii, ii, w, 0) <= 16);
                assert(0 <= orig[ii].luma <= ONE);
            }
            let old = px[i].luma;
            let new: i64 = if old > HALF { ONE } else { 0 };
            let a = px[i].alpha;
            px.set(i, Pixel { luma: new, alpha: a });
            let e = old - new;
            let x = i % width;
            let y = i / width;
            let ghost l1 = l0.update(ii, new as int);
            proof {
                assert(lumas(px@) =~= l1);
            }
            let s7 = share_of(e, 7);
            let s3 = share_of(e, 3);
            let s5 = share_of(e, 5);
            let s1 = share_of(e, 1);
            let ghost ee = e as int;
            proof {
                assert(ee == l0[ii] - level(l0[ii] > HALF) as int);
                assert(bounded(px@, orig, ii, w, 0));
            }
            // right
            let ghost b1 = px@;
            let ghost g1 = x + 1 < width;
            if x + 1 < width {
                let t = i + 1;
                let p = px[t];
                px.set(t, Pixel { luma: p.luma + s7, alpha: p.alpha });
            }
            let ghost l2 = if g1 { bump(l1, ii + 1, share(ee, 7)) } else { l1 };
            proof {
                lemma_stage(b1, px@, orig, ii, w, 1, if g1 { s7 as int } else { 0 });
                assert(lumas(px@) =~= l2);
            }
            // below left
            let ghost b2 = px@;
            let ghost g2 = x > 0 && y + 1 < height;
            if x > 0 && y + 1 < height {
                let t = i + width - 1;
                let p = px[t];
                px.set(t, Pixel { luma: p.luma + s3, alpha: p.alpha });
            }
            let ghost l3 = if g2 { bump(l2, ii + w - 1, share(ee, 3)) } else { l2 };
            proof {
                lemma_stage(b2, px@, orig, ii, w, 2, if g2 { s3 as int } else { 0 });
                assert(lumas(px@) =~= l3);
            }
            // below
            let ghost b3 = px@;
            let ghost g3 = y + 1 < height;
            if y + 1 < height {
                let t = i + width;
                let p = px[t];
                px.set(t, Pixel { luma: p.luma + s5, alpha: p.alpha });
            }
            let ghost l4 = if g3 { bump(l3, ii + w, share(ee, 5)) } else { l3 };
            proof {
                lemma_stage(b3, px@, orig, ii, w, 3, if g3 { s5 as int } else { 0 });
                assert(lumas(px@) =~= l4);
            }
            // below right
            let ghost b4 = px@;
            let ghost g4 = x + 1 < width && y + 1 < height;
            if x + 1 < width && y + 1 < height {
                let t = i + width + 1;
                let p = px[t];
                px.set(t, Pixel { luma: p.luma + s1, alpha: p.alpha });
            }
            let ghost l5 = if g4 { bump(l4, ii + w + 1, share(ee, 1)) } else { l4 };
            proof {
                lemma_stage(b4, px@, orig, ii, w, 4, if g4 { s1 as int } else { 0 });
                assert(lumas(px@) =~= l5);
                assert(l5 == diffuse_at(l0, w, h, ii));
                assert forall|j: int| ii + 1 <= j < n implies
                    -HALF * credit(j, ii + 1, w, 0) <= 16 * (#[trigger] px@[j].luma - orig[j].luma)
                    <= HALF * credit(j, ii + 1, w, 0) by {
                    assert(credit(j, ii + 1, w, 0) == credit(j, ii, w, 4));
                }
            }
            i = i + 1;
        }
        proof {
            let d = diffused(lumas(orig), w, h, n as nat);
            assert forall|j: int| 0 <= j < n implies #[trigger] px@[j] == diffused_pixels(orig, w as nat)[j] by {
                assert(lumas(px@)[j] == px@[j].luma as int);
                assert(orig.len() as int / w == h);
                assert(d[j] == px@[j].luma as int);
                assert(px@[j].alpha == orig[j].alpha);
                assert(diffused_pixels(orig, w as nat)[j].luma == px@[j].luma);
            }
            assert(px@ =~= diffused_pixels(orig, w as nat));
        }
        Grayscale { pixels: px, width }
    }
}

} // verus!
