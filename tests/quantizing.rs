use palette::{IntoColor, Oklab, Srgb};
use pixel_dither::color::{default_palette_hex, parse_palette, Rgb8, Rgba8};
use pixel_dither::dither::{alpha_candidates, color_candidates, DITHER_ONE};
use pixel_dither::perceptual::{nearest, nearest_scaled, Lab, Target, LAB_LIMIT};
use pixel_dither::quantize::{
    dither_pixel, run, run_with_parameters, Palette, PaletteError, SourcePixel, ALPHA_DITHER,
    COLOR_DITHER,
};
use pixel_dither::ranking::sort_by_key;
use pixel_dither::threshold::ThresholdMap;

const LAB_SCALE: f32 = 1048576.0;

fn to_lab(c: Rgb8) -> Lab {
    let lab: Oklab = Srgb::new(c.r as f32 / 255.0, c.g as f32 / 255.0, c.b as f32 / 255.0)
        .into_color();
    Lab {
        l: (lab.l * LAB_SCALE).round() as i32,
        a: (lab.a * LAB_SCALE).round() as i32,
        b: (lab.b * LAB_SCALE).round() as i32,
    }
}

fn default_palette() -> Palette {
    let colors = parse_palette(&default_palette_hex()).unwrap();
    let labs = colors.iter().map(|c| to_lab(*c)).collect();
    Palette::new(colors, labs).unwrap()
}

fn grey(l: i32) -> Lab {
    Lab { l, a: 0, b: 0 }
}

fn black_white() -> Palette {
    Palette::new(
        vec![Rgb8 { r: 0, g: 0, b: 0 }, Rgb8 { r: 255, g: 255, b: 255 }],
        vec![grey(0), grey(100)],
    )
    .unwrap()
}

#[test]
fn nearest_picks_closest_entry() {
    let p = vec![grey(0), grey(10), grey(20)];
    assert_eq!(nearest(&p, grey(6)), 1);
    assert_eq!(nearest(&p, grey(100)), 2);
    assert_eq!(nearest(&p, Lab { l: 0, a: 3, b: -4 }), 0);
    let q = vec![Lab { l: 0, a: 10, b: 0 }, Lab { l: 0, a: 0, b: 10 }, grey(-9)];
    assert_eq!(nearest(&q, Lab { l: 0, a: 9, b: 1 }), 0);
    assert_eq!(nearest(&q, Lab { l: 0, a: 1, b: 9 }), 1);
}

#[test]
fn nearest_prefers_first_on_tie() {
    let p = vec![grey(0), grey(10), grey(20)];
    assert_eq!(nearest(&p, grey(5)), 0);
    assert_eq!(nearest(&p, grey(15)), 1);
    let same = vec![grey(7), grey(7)];
    assert_eq!(nearest(&same, grey(7)), 0);
}

#[test]
fn nearest_distance_is_minimal() {
    let p = vec![
        Lab { l: 5, a: -3, b: 8 },
        Lab { l: -2, a: 4, b: 1 },
        Lab { l: 9, a: 9, b: -9 },
        Lab { l: 0, a: 0, b: 0 },
    ];
    let d = |x: Lab, y: Lab| {
        let (dl, da, db) = ((x.l - y.l) as i64, (x.a - y.a) as i64, (x.b - y.b) as i64);
        dl * dl + da * da + db * db
    };
    for l in -10..10 {
        for a in -10..10 {
            let c = Lab { l, a, b: 3 };
            let r = nearest(&p, c);
            for (j, e) in p.iter().enumerate() {
                assert!(d(c, p[r]) <= d(c, *e));
                if j < r {
                    assert!(d(c, p[r]) < d(c, *e));
                }
            }
        }
    }
}

#[test]
fn nearest_scaled_matches_unscaled() {
    let p = vec![grey(0), grey(10), grey(20)];
    let t = Target { l: 60000, a: 0, b: 0 };
    assert_eq!(nearest_scaled(&p, t, 10000), 1);
    let t = Target { l: 50000, a: 0, b: 0 };
    assert_eq!(nearest_scaled(&p, t, 10000), 0);
}

#[test]
fn color_candidates_feed_back_error() {
    let p = vec![grey(0), grey(100)];
    assert_eq!(color_candidates(&p, grey(30), DITHER_ONE, 4), vec![0, 1, 0, 0]);
    assert_eq!(color_candidates(&p, grey(30), DITHER_ONE / 2, 4), vec![0, 0, 1, 0]);
    assert_eq!(color_candidates(&p, grey(30), 0, 4), vec![0, 0, 0, 0]);
    assert_eq!(color_candidates(&p, grey(30), DITHER_ONE, 0), Vec::<usize>::new());
}

#[test]
fn alpha_candidates_feed_back_error() {
    assert_eq!(alpha_candidates(128, 1200, 4), vec![1, 0, 1, 0]);
    assert_eq!(alpha_candidates(64, DITHER_ONE, 4), vec![0, 1, 0, 0]);
    assert_eq!(alpha_candidates(0, 1200, 4), vec![0, 0, 0, 0]);
    assert_eq!(alpha_candidates(255, 1200, 4), vec![1, 1, 1, 1]);
    assert_eq!(alpha_candidates(127, 0, 3), vec![0, 0, 0]);
    assert_eq!(alpha_candidates(128, 0, 3), vec![1, 1, 1]);
}

#[test]
fn sort_by_key_is_stable() {
    let v = vec![(2, 0), (1, 1), (2, 2), (1, 3), (-5, 4)];
    assert_eq!(sort_by_key(&v), vec![(-5, 4), (1, 1), (1, 3), (2, 0), (2, 2)]);
    assert_eq!(sort_by_key(&Vec::new()), Vec::new());
}

#[test]
fn dither_pixel_takes_rank() {
    let p = black_white();
    let at = |rank| dither_pixel(&p, grey(30), 128, DITHER_ONE, 1200, 4, rank);
    assert_eq!(at(0), Rgba8 { r: 0, g: 0, b: 0, a: 0 });
    assert_eq!(at(1), Rgba8 { r: 0, g: 0, b: 0, a: 0 });
    assert_eq!(at(2), Rgba8 { r: 0, g: 0, b: 0, a: 255 });
    assert_eq!(at(3), Rgba8 { r: 255, g: 255, b: 255, a: 255 });
}

#[test]
fn image_uses_tile_positions() {
    let p = black_white();
    let px = SourcePixel { lab: grey(30), alpha: 128 };
    let map = ThresholdMap::default_map();
    let out = run_with_parameters(&vec![px; 4], 2, 2, &map, DITHER_ONE, 1200, &p);
    assert_eq!(
        out,
        vec![
            Rgba8 { r: 0, g: 0, b: 0, a: 0 },
            Rgba8 { r: 255, g: 255, b: 255, a: 255 },
            Rgba8 { r: 0, g: 0, b: 0, a: 255 },
            Rgba8 { r: 0, g: 0, b: 0, a: 0 },
        ]
    );
    let row = run_with_parameters(&vec![px; 3], 3, 1, &map, DITHER_ONE, 1200, &p);
    assert_eq!(row, vec![out[0], out[1], out[0]]);
    assert_eq!(run_with_parameters(&Vec::new(), 0, 5, &map, DITHER_ONE, 1200, &p), vec![]);
}

#[test]
fn white_image_maps_to_lightest_entry() {
    let palette = default_palette();
    let white = SourcePixel { lab: to_lab(Rgb8 { r: 255, g: 255, b: 255 }), alpha: 255 };
    let out = run(&vec![white; 4], 2, 2, &palette);
    assert_eq!(out, vec![Rgba8 { r: 0xff, g: 0xf7, b: 0xff, a: 255 }; 4]);
    let map = ThresholdMap::default_map();
    let same = run_with_parameters(&vec![white; 4], 2, 2, &map, COLOR_DITHER, ALPHA_DITHER, &palette);
    assert_eq!(same, out);
}

fn sample_image() -> Vec<SourcePixel> {
    let mut img = Vec::new();
    for i in 0..36u32 {
        let c = Rgb8 { r: (i * 7) as u8, g: (255 - i * 5) as u8, b: (i * i % 256) as u8 };
        img.push(SourcePixel { lab: to_lab(c), alpha: (i * 7 % 256) as u8 });
    }
    img
}

#[test]
fn undithered_output_ignores_map() {
    let palette = default_palette();
    let img = sample_image();
    let a = ThresholdMap::default_map();
    let b = ThresholdMap::new(&vec![
        vec![0, 8, 2, 10],
        vec![12, 4, 14, 6],
        vec![3, 11, 1, 9],
        vec![15, 7, 13, 5],
    ])
    .unwrap();
    let out_a = run_with_parameters(&img, 6, 6, &a, 0, 0, &palette);
    let out_b = run_with_parameters(&img, 6, 6, &b, 0, 0, &palette);
    assert_eq!(out_a, out_b);
    let colors = parse_palette(&default_palette_hex()).unwrap();
    let labs: Vec<Lab> = colors.iter().map(|c| to_lab(*c)).collect();
    for (px, o) in img.iter().zip(out_a.iter()) {
        let c = colors[nearest(&labs, px.lab)];
        let a = if px.alpha >= 128 { 255 } else { 0 };
        assert_eq!(*o, Rgba8 { r: c.r, g: c.g, b: c.b, a });
    }
}

#[test]
fn palette_image_is_fixed_point() {
    let palette = default_palette();
    let colors = parse_palette(&default_palette_hex()).unwrap();
    let img: Vec<Rgba8> = (0..48)
        .map(|i| {
            let c = colors[(i * 5) % 48];
            Rgba8 { r: c.r, g: c.g, b: c.b, a: if i % 3 == 0 { 0 } else { 255 } }
        })
        .collect();
    let source = |img: &Vec<Rgba8>| -> Vec<SourcePixel> {
        img.iter()
            .map(|p| SourcePixel { lab: to_lab(Rgb8 { r: p.r, g: p.g, b: p.b }), alpha: p.a })
            .collect()
    };
    let once = run(&source(&img), 8, 6, &palette);
    assert_eq!(once, img);
    let twice = run(&source(&once), 8, 6, &palette);
    assert_eq!(twice, once);
}

#[test]
fn palette_rejects_bad_parts() {
    let one = vec![Rgb8 { r: 1, g: 2, b: 3 }];
    assert!(matches!(Palette::new(one.clone(), vec![]), Err(PaletteError::Empty)));
    assert!(matches!(
        Palette::new(one.clone(), vec![grey(0), grey(1)]),
        Err(PaletteError::LengthMismatch)
    ));
    assert!(matches!(
        Palette::new(one.clone(), vec![Lab { l: 0, a: LAB_LIMIT + 1, b: 0 }]),
        Err(PaletteError::OutOfRange)
    ));
    let p = Palette::new(one, vec![Lab { l: LAB_LIMIT, a: -LAB_LIMIT, b: 0 }]).unwrap();
    assert_eq!(p.len(), 1);
}

#[test]
fn perceptual_round_trip_is_close() {
    let steps = 10;
    for r in 0..=steps {
        for g in 0..=steps {
            for b in 0..=steps {
                let x: Srgb<f64> = Srgb::new(r as f64 / 10.0, g as f64 / 10.0, b as f64 / 10.0);
                let lab: Oklab<f64> = x.into_color();
                let back: Srgb<f64> = lab.into_color();
                assert!((back.red - x.red).abs() < 1e-5);
                assert!((back.green - x.green).abs() < 1e-5);
                assert!((back.blue - x.blue).abs() < 1e-5);
            }
        }
    }
}
