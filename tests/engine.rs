use dither::bayer::bayer_matrix;
use dither::grayscale::{DitherError, Grayscale, Pixel, HALF, ONE};
use dither::{apply, Method};

fn image(lumas: &[i64], alpha: u8, width: usize) -> Grayscale {
    let pixels = lumas.iter().map(|&l| Pixel { luma: l, alpha }).collect();
    Grayscale::new(pixels, width).unwrap()
}

fn lumas_of(g: &Grayscale) -> Vec<i64> {
    g.to_pixels().iter().map(|p| p.luma).collect()
}

fn srgb_to_linear(c: f64) -> f64 {
    if c < 0.04045 { c / 12.92 } else { ((c + 0.055) / 1.055).powf(2.4) }
}

fn fixed(l: f64) -> i64 {
    (l * ONE as f64).round() as i64
}

const ALL: [Method; 8] = [
    Method::Grayscale,
    Method::Quantise,
    Method::WhiteNoise,
    Method::Bayer0,
    Method::Bayer1,
    Method::Bayer2,
    Method::Bayer3,
    Method::FloydSteinberg,
];

#[test]
fn bayer_order_zero_is_base_pattern() {
    assert_eq!(bayer_matrix(0), vec![0, 2, 3, 1]);
}

#[test]
fn bayer_order_one_is_classic_four_by_four() {
    let m = bayer_matrix(1);
    assert_eq!(m, vec![0, 8, 2, 10, 12, 4, 14, 6, 3, 11, 1, 9, 15, 7, 13, 5]);
    let mut sorted = m.clone();
    sorted.sort();
    assert_eq!(sorted, (0..16).collect::<Vec<u64>>());
    let base = bayer_matrix(0);
    for y in 0..2 {
        for x in 0..2 {
            assert_eq!(m[y * 4 + x], 4 * base[y * 2 + x]);
        }
    }
}

#[test]
fn bayer_higher_orders_are_permutations() {
    for n in 2..4u64 {
        let m = bayer_matrix(n);
        let side = 1usize << (n + 1);
        assert_eq!(m.len(), side * side);
        let mut sorted = m.clone();
        sorted.sort();
        assert_eq!(sorted, (0..(side * side) as u64).collect::<Vec<u64>>());
    }
}

#[test]
fn mid_gray_quantises_to_white() {
    let l = fixed(0.2126 * srgb_to_linear(188.0 / 255.0) + 0.7152 * srgb_to_linear(188.0 / 255.0)
        + 0.0722 * srgb_to_linear(188.0 / 255.0));
    assert!(l > HALF);
    let g = image(&[l, l, l, l], 255, 2);
    let q = g.quantise();
    for p in q.to_pixels() {
        assert_eq!(p, Pixel { luma: ONE, alpha: 255 });
    }
}

#[test]
fn floyd_steinberg_keeps_alternation() {
    let g = image(&[0, ONE, 0, ONE], 255, 4);
    assert_eq!(lumas_of(&g.floyd_steinberg()), vec![0, ONE, 0, ONE]);
}

#[test]
fn floyd_steinberg_carries_error_right() {
    let g = image(&[HALF - 1000, HALF - 1000], 7, 2);
    assert_eq!(lumas_of(&g.floyd_steinberg()), vec![0, ONE]);
    assert_eq!(lumas_of(&g.quantise()), vec![0, 0]);
}

#[test]
fn floyd_steinberg_spreads_downward() {
    // 0.4 everywhere on a 2x2 image: the first pixel goes black and its error
    // turns the second white; the negative error of that one keeps the second
    // row black.
    let l = fixed(0.4);
    let g = image(&[l, l, l, l], 255, 2);
    assert_eq!(lumas_of(&g.floyd_steinberg()), vec![0, ONE, 0, 0]);
}

#[test]
fn bayer_order_zero_thresholds() {
    let l = ONE / 4 + 1;
    let g = image(&[l, l, l, l], 9, 2);
    assert_eq!(lumas_of(&g.bayer(0)), vec![ONE, 0, 0, ONE]);
}

#[test]
fn bayer_uses_column_for_matrix_row() {
    // width 4, one row: x runs 0..3, y = 0, so the index is (x % 2) * 2.
    let l = ONE / 2 + 1;
    let g = image(&[l, l, l, l], 1, 4);
    assert_eq!(lumas_of(&g.bayer(0)), vec![ONE, 0, ONE, 0]);
}

#[test]
fn white_noise_with_given_draws() {
    let g = image(&[100, 200, ONE, 0], 3, 2);
    let out = g.white_noise_with(&vec![99, 200, ONE - 1, 0]);
    assert_eq!(lumas_of(&out), vec![ONE, 0, ONE, 0]);
}

#[test]
fn white_noise_keeps_black_and_white() {
    let g = image(&[0, ONE, 0, ONE, ONE, 0], 42, 3);
    let out = g.white_noise().unwrap();
    assert_eq!(lumas_of(&out), vec![0, ONE, 0, ONE, ONE, 0]);
    assert!(out.to_pixels().iter().all(|p| p.alpha == 42));
}

#[test]
fn white_noise_is_unbiased_on_mid_gray() {
    let n = 20000;
    let g = image(&vec![HALF; n], 255, 100);
    let out = g.white_noise().unwrap();
    let whites = lumas_of(&out).iter().filter(|&&v| v == ONE).count();
    let frac = whites as f64 / n as f64;
    assert!(frac > 0.45 && frac < 0.55, "fraction {}", frac);
}

#[test]
fn every_method_keeps_shape_and_alpha() {
    let lumas: Vec<i64> = (0..24).map(|i| (i as i64) * ONE / 23).collect();
    let pixels: Vec<Pixel> = lumas.iter().enumerate().map(|(i, &l)| Pixel { luma: l, alpha: (i * 10) as u8 }).collect();
    for by in ALL {
        let g = Grayscale::new(pixels.clone(), 6).unwrap();
        let out = apply(g, by).unwrap();
        assert_eq!(out.width(), 6);
        let px = out.to_pixels();
        assert_eq!(px.len(), pixels.len());
        for (a, b) in px.iter().zip(pixels.iter()) {
            assert_eq!(a.alpha, b.alpha);
            if by != Method::Grayscale {
                assert!(a.luma == 0 || a.luma == ONE);
            }
        }
        if by == Method::Grayscale {
            assert_eq!(px, pixels);
        }
    }
}

#[test]
fn deterministic_methods_repeat() {
    let lumas: Vec<i64> = (0..30).map(|i| ((i * 7919) % 31) as i64 * ONE / 30).collect();
    for by in ALL {
        if by == Method::WhiteNoise {
            continue;
        }
        let a = apply(image(&lumas, 1, 5), by).unwrap().to_pixels();
        let b = apply(image(&lumas, 1, 5), by).unwrap().to_pixels();
        assert_eq!(a, b);
    }
}

#[test]
fn invalid_shapes_are_refused() {
    let px = vec![Pixel { luma: 0, alpha: 0 }; 6];
    assert_eq!(Grayscale::new(px.clone(), 0).err(), Some(DitherError::InvalidImageShape));
    assert_eq!(Grayscale::new(px.clone(), 4).err(), Some(DitherError::InvalidImageShape));
    assert!(Grayscale::new(px, 3).is_ok());
}

#[test]
fn luminance_out_of_range_is_refused() {
    let px = vec![Pixel { luma: ONE + 1, alpha: 0 }, Pixel { luma: 0, alpha: 0 }];
    assert_eq!(Grayscale::new(px, 2).err(), Some(DitherError::LuminanceOutOfRange));
    let px = vec![Pixel { luma: -1, alpha: 0 }];
    assert_eq!(Grayscale::new(px, 1).err(), Some(DitherError::LuminanceOutOfRange));
}

#[test]
fn empty_image_stays_empty() {
    let g = Grayscale::new(Vec::new(), 3).unwrap();
    assert!(g.floyd_steinberg().to_pixels().is_empty());
    assert!(g.bayer(3).to_pixels().is_empty());
}
