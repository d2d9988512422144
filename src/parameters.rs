use vstd::prelude::*;
use crate::color::{default_palette_hex, default_palette_spec, entry_bytes, parse_hex_spec, parse_palette};
use crate::dither::DITHER_ONE;
use crate::color::Rgba8;
use crate::quantize::{
    pixels_in_range, quantized, run_with_parameters, Palette, SourcePixel, ALPHA_DITHER, COLOR_DITHER,
};
use crate::threshold::{map_from_rows, ThresholdMap};

verus! {

/// An edit of one parameter, its value already read from text.
pub enum Msg {
    ColorDither(u32),
    AlphaDither(u32),
    ThresholdMap(Vec<Vec<usize>>),
    PaletteHex(Vec<String>),
}

/// The parameters an interactive front end lets its user edit.
pub struct App {
    threshold_map: ThresholdMap,
    color_dither: u32,
    alpha_dither: u32,
    palette_hex: Vec<String>,
}

/// Every entry reads as a color, and there is at least one.
pub open spec fn palette_acceptable(entries: Seq<String>) -> bool {
    entries.len() > 0 && forall|i: int|
        0 <= i < entries.len() ==> (#[trigger] parse_hex_spec(entry_bytes(entries[i]))).is_ok()
}

impl App {
    pub closed spec fn map(&self) -> ThresholdMap {
        self.threshold_map
    }

    pub closed spec fn color_dither_value(&self) -> u32 {
        self.color_dither
    }

    pub closed spec fn alpha_dither_value(&self) -> u32 {
        self.alpha_dither
    }

    pub closed spec fn palette_entries(&self) -> Seq<String> {
        self.palette_hex@
    }

    pub open spec fn wf(&self) -> bool {
        &&& self.map().wf()
        &&& self.color_dither_value() <= DITHER_ONE
        &&& self.alpha_dither_value() <= DITHER_ONE
    }

    /// Starts from the default map, dither coefficients and palette.
    pub fn create() -> (r: App)
        ensures
            r.wf(),
            r.map().side() == 2,
            r.map().cells() == seq![0usize, 2, 3, 1],
            r.color_dither_value() == COLOR_DITHER,
            r.alpha_dither_value() == ALPHA_DITHER,
            r.palette_entries().len() == default_palette_spec().len(),
            forall|i: int|
                0 <= i < r.palette_entries().len() ==> (#[trigger] r.palette_entries()[i])@
                    == default_palette_spec()[i],
    {
        let palette_hex = default_palette_hex();
        App {
            threshold_map: ThresholdMap::default_map(),
            color_dither: COLOR_DITHER,
            alpha_dither: ALPHA_DITHER,
            palette_hex,
        }
    }

    /// Applies an edit if its value is acceptable and tells whether it was:
    /// a dither coefficient must lie in `0..=DITHER_ONE`, a map must be a
    /// well-formed threshold map, and a palette must be non-empty with every
    /// entry six hexadecimal digits. A refused edit changes nothing.
    pub fn update(&mut self, msg: Msg) -> (r: bool)
        requires
            old(self).wf(),
        ensures
            final(self).wf(),
            !r ==> *final(self) == *old(self),
            match msg {
                Msg::ColorDither(d) => {
                    &&& r == (d <= DITHER_ONE)
                    &&& r ==> final(self).color_dither_value() == d
                    &&& r ==> final(self).alpha_dither_value() == old(self).alpha_dither_value()
                    &&& r ==> final(self).map() == old(self).map()
                    &&& r ==> final(self).palette_entries() == old(self).palette_entries()
                },
                Msg::AlphaDither(d) => {
                    &&& r == (d <= DITHER_ONE)
                    &&& r ==> final(self).alpha_dither_value() == d
                    &&& r ==> final(self).color_dither_value() == old(self).color_dither_value()
                    &&& r ==> final(self).map() == old(self).map()
                    &&& r ==> final(self).palette_entries() == old(self).palette_entries()
                },
                Msg::ThresholdMap(rows) => {
                    &&& r == map_from_rows(rows@).is_ok()
                    &&& r ==> final(self).map().side() == rows@.len()
                    &&& r ==> final(self).map().cells() == map_from_rows(rows@)->Ok_0
                    &&& r ==> final(self).color_dither_value() == old(self).color_dither_value()
                    &&& r ==> final(self).alpha_dither_value() == old(self).alpha_dither_value()
                    &&& r ==> final(self).palette_entries() == old(self).palette_entries()
                },
                Msg::PaletteHex(entries) => {
                    &&& r == palette_acceptable(entries@)
                    &&& r ==> final(self).palette_entries() == entries@
                    &&& r ==> final(self).map() == old(self).map()
                    &&& r ==> final(self).color_dither_value() == old(self).color_dither_value()
                    &&& r ==> final(self).alpha_dither_value() == old(self).alpha_dither_value()
                },
            },
    {
        match msg {
            Msg::ColorDither(d) => {
                if d > DITHER_ONE {
                    return false;
                }
                self.color_dither = d;
                true
            },
            Msg::AlphaDither(d) => {
                if d > DITHER_ONE {
                    return false;
                }
                self.alpha_dither = d;
                true
            },
            Msg::ThresholdMap(rows) => {
                match ThresholdMap::new(&rows) {
                    Ok(m) => {
                        self.threshold_map = m;
                        true
                    },
                    Err(_) => false,
                }
            },
            Msg::PaletteHex(entries) => {
                if entries.len() == 0 {
                    return false;
                }
                let parsed = parse_palette(&entries);
                match parsed {
                    Ok(_) => {
                        self.palette_hex = entries;
                        true
                    },
                    Err(e) => {
                        proof {
                            let k = choose|k: int|
                                0 <= k < entries@.len() && parse_hex_spec(
                                    #[trigger] entry_bytes(entries@[k]),
                                ) == Err::<crate::color::Rgb8, crate::color::PaletteParseError>(e);
                            assert(!parse_hex_spec(entry_bytes(entries@[k])).is_ok());
                        }
                        false
                    },
                }
            },
        }
    }

    /// Quantizes an image with the current map and dither coefficients; the
    /// palette is the current entries paired with their perceptual values.
    pub fn filter(&self, img: &Vec<SourcePixel>, width: usize, height: usize, palette: &Palette) -> (r:
        Vec<Rgba8>)
        requires
            self.wf(),
            img@.len() == width * height,
            pixels_in_range(img@),
            palette.wf(),
        ensures
            r@ == quantized(
                img@,
                width as int,
                self.map(),
                self.color_dither_value() as int,
                self.alpha_dither_value() as int,
                *palette,
            ),
    {
        run_with_parameters(
            img,
            width,
            height,
            &self.threshold_map,
            self.color_dither,
            self.alpha_dither,
            palette,
        )
    }

    pub fn threshold_map(&self) -> (r: &ThresholdMap)
        ensures
            *r == self.map(),
    {
        &self.threshold_map
    }

    pub fn color_dither(&self) -> (r: u32)
        ensures
            r == self.color_dither_value(),
    {
        self.color_dither
    }

    pub fn alpha_dither(&self) -> (r: u32)
        ensures
            r == self.alpha_dither_value(),
    {
        self.alpha_dither
    }

    pub fn palette_hex(&self) -> (r: &Vec<String>)
        ensures
            r@ == self.palette_entries(),
    {
        &self.palette_hex
    }
}

} // verus!
