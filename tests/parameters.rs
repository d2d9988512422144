use pixel_dither::color::{default_palette_hex, Rgb8, Rgba8};
use pixel_dither::dither::DITHER_ONE;
use pixel_dither::parameters::{App, Msg};
use pixel_dither::perceptual::Lab;
use pixel_dither::quantize::{run, Palette, SourcePixel, ALPHA_DITHER, COLOR_DITHER};

#[test]
fn app_starts_from_defaults() {
    let app = App::create();
    assert_eq!(app.color_dither(), COLOR_DITHER);
    assert_eq!(app.alpha_dither(), ALPHA_DITHER);
    assert_eq!(app.palette_hex(), &default_palette_hex());
    let m = app.threshold_map();
    assert_eq!((m.index(0, 0), m.index(0, 1), m.index(1, 0), m.index(1, 1)), (0, 2, 3, 1));
}

#[test]
fn app_accepts_dither_in_range() {
    let mut app = App::create();
    assert!(app.update(Msg::ColorDither(DITHER_ONE)));
    assert_eq!(app.color_dither(), DITHER_ONE);
    assert!(app.update(Msg::AlphaDither(0)));
    assert_eq!(app.alpha_dither(), 0);
    assert_eq!(app.color_dither(), DITHER_ONE);
}

#[test]
fn app_refuses_dither_out_of_range() {
    let mut app = App::create();
    assert!(!app.update(Msg::ColorDither(DITHER_ONE + 1)));
    assert!(!app.update(Msg::AlphaDither(20000)));
    assert_eq!(app.color_dither(), COLOR_DITHER);
    assert_eq!(app.alpha_dither(), ALPHA_DITHER);
}

#[test]
fn app_replaces_map_only_when_valid() {
    let mut app = App::create();
    assert!(!app.update(Msg::ThresholdMap(vec![vec![0, 1], vec![1, 0]])));
    assert_eq!(app.threshold_map().size(), 2);
    assert!(app.update(Msg::ThresholdMap(vec![vec![0]])));
    assert_eq!(app.threshold_map().size(), 1);
    assert_eq!(app.threshold_map().index(7, 9), 0);
}

#[test]
fn app_replaces_palette_only_when_valid() {
    let mut app = App::create();
    assert!(!app.update(Msg::PaletteHex(vec![])));
    assert!(!app.update(Msg::PaletteHex(vec!["000000".to_string(), "fff".to_string()])));
    assert_eq!(app.palette_hex().len(), 48);
    let entries = vec!["000000".to_string(), "ffffff".to_string()];
    assert!(app.update(Msg::PaletteHex(entries.clone())));
    assert_eq!(app.palette_hex(), &entries);
}

#[test]
fn app_filter_uses_current_parameters() {
    let app = App::create();
    let palette = Palette::new(
        vec![Rgb8 { r: 0, g: 0, b: 0 }, Rgb8 { r: 255, g: 255, b: 255 }],
        vec![Lab { l: 0, a: 0, b: 0 }, Lab { l: 100, a: 0, b: 0 }],
    )
    .unwrap();
    let img = vec![SourcePixel { lab: Lab { l: 48, a: 0, b: 0 }, alpha: 200 }; 6];
    let out = app.filter(&img, 3, 2, &palette);
    assert_eq!(out, run(&img, 3, 2, &palette));
    assert!(out.iter().all(|p| p.a == 255));
    assert!(out.iter().any(|p| *p == Rgba8 { r: 0, g: 0, b: 0, a: 255 }));
}
