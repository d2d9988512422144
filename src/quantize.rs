use vstd::prelude::*;
use crate::color::{Rgb8, Rgba8};
use crate::dither::{
    alpha_candidates, alpha_steps, color_candidates, color_steps, DITHER_ONE, MAX_CANDIDATES,
};
use crate::perceptual::{all_in_range, at, lab_in_range, lemma_nearest_exact, lemma_nearest_scaled, nearest_spec, scaled, Lab};
use crate::ranking::{lemma_sort_keyed_constant, lemma_sort_keyed_items, sort_by_key, sort_keyed, Keyed};
use crate::threshold::{lemma_rank_in_range, ThresholdMap, MAX_MAP_SIZE};
use vstd::arithmetic::div_mod::{lemma_fundamental_div_mod, lemma_mod_pos_bound};

verus! {

/// The default color dither coefficient, 0.04.
pub const COLOR_DITHER: u32 = 400;

/// The default alpha dither coefficient, 0.12.
pub const ALPHA_DITHER: u32 = 1200;

/// Why a palette could not be assembled.
#[derive(Clone, Copy, Debug, PartialEq, Eq, Structural)]
pub enum PaletteError {
    /// The palette has no entries.
    Empty,
    /// The display and perceptual lists differ in length.
    LengthMismatch,
    /// Some perceptual channel lies outside `-LAB_LIMIT..=LAB_LIMIT`.
    OutOfRange,
}

/// The output colors, each with its perceptual value, in palette order.
pub struct Palette {
    colors: Vec<Rgb8>,
    labs: Vec<Lab>,
}

impl Palette {
    pub closed spec fn colors(&self) -> Seq<Rgb8> {
        self.colors@
    }

    pub closed spec fn labs(&self) -> Seq<Lab> {
        self.labs@
    }

    pub open spec fn wf(&self) -> bool {
        &&& 0 < self.labs().len() <= usize::MAX
        &&& self.colors().len() == self.labs().len()
        &&& all_in_range(self.labs())
    }

    /// Pairs each display color with its perceptual value.
    pub fn new(colors: Vec<Rgb8>, labs: Vec<Lab>) -> (r: Result<Palette, PaletteError>)
        ensures
            labs@.len() == 0 ==> r == Err::<Palette, PaletteError>(PaletteError::Empty),
            labs@.len() > 0 && colors@.len() != labs@.len() ==> r == Err::<Palette, PaletteError>(
                PaletteError::LengthMismatch,
            ),
            labs@.len() > 0 && colors@.len() == labs@.len() && !all_in_range(labs@) ==> r == Err::<
                Palette,
                PaletteError,
            >(PaletteError::OutOfRange),
            labs@.len() <= usize::MAX,
            r.is_ok() <==> (labs@.len() > 0 && colors@.len() == labs@.len() && all_in_range(labs@)),
            r.is_ok() ==> r.unwrap().wf() && r.unwrap().colors() == colors@ && r.unwrap().labs()
                == labs@,
    {
        if labs.len() == 0 {
            return Err(PaletteError::Empty);
        }
        if colors.len() != labs.len() {
            return Err(PaletteError::LengthMismatch);
        }
        let mut i: usize = 0;
        while i < labs.len()
            invariant
                labs@.len() > 0,
                colors@.len() == labs@.len(),
                i <= labs@.len(),
                forall|j: int| 0 <= j < i ==> lab_in_range(#[trigger] labs@[j]),
            decreases labs@.len() - i,
        {
            let c = labs[i];
            let limit = crate::perceptual::LAB_LIMIT;
            if c.l < -limit || c.l > limit || c.a < -limit || c.a > limit || c.b < -limit || c.b
                > limit {
                assert(!lab_in_range(labs@[i as int]));
                return Err(PaletteError::OutOfRange);
            }
            i = i + 1;
        }
        Ok(Palette { colors, labs })
    }

    pub fn len(&self) -> (r: usize)
        ensures
            r == self.labs().len(),
    {
        self.labs.len()
    }
}

/// An input pixel: its color's perceptual value and its alpha byte.
#[derive(Clone, Copy, Debug, PartialEq, Eq, Structural)]
pub struct SourcePixel {
    pub lab: Lab,
    pub alpha: u8,
}

pub open spec fn pixels_in_range(img: Seq<SourcePixel>) -> bool {
    forall|p: int| 0 <= p < img.len() ==> lab_in_range(#[trigger] img[p].lab)
}

/// Color candidates keyed by the lightness of the entry they name.
pub open spec fn color_keys(labs: Seq<Lab>, picks: Seq<int>) -> Seq<Keyed> {
    Seq::new(picks.len(), |i: int| (labs[picks[i]].l as i64, picks[i] as usize))
}

/// Alpha candidates keyed by their value.
pub open spec fn alpha_keys(picks: Seq<int>) -> Seq<Keyed> {
    Seq::new(picks.len(), |i: int| (picks[i] as i64, i as usize))
}

/// An alpha candidate as a byte: 1 or more is opaque, 0 or less transparent.
pub open spec fn alpha_byte(q: int) -> u8 {
    if q >= 1 {
        255
    } else {
        0
    }
}

/// The output of one pixel: `n` candidates of each kind are made, each list is
/// sorted ascending (colors by lightness, stable), and the one of rank `rank`
/// is taken. The chosen entry's own display color is written, so every output
/// color is exactly a palette color.
pub open spec fn pixel_spec(
    colors: Seq<Rgb8>,
    labs: Seq<Lab>,
    lab: Lab,
    alpha: u8,
    cd: int,
    ad: int,
    n: nat,
    rank: int,
) -> Rgba8 {
    let by_color = sort_keyed(color_keys(labs, color_steps(labs, lab, cd, n).0));
    let by_alpha = sort_keyed(alpha_keys(alpha_steps(alpha as int, ad, n).0));
    let chosen = colors[by_color[rank].1 as int];
    Rgba8 { r: chosen.r, g: chosen.g, b: chosen.b, a: alpha_byte(by_alpha[rank].0 as int) }
}

/// The whole output image: pixel `p` stands at column `p % width`, row `p / width`.
pub open spec fn quantized(
    img: Seq<SourcePixel>,
    width: int,
    map: ThresholdMap,
    cd: int,
    ad: int,
    palette: Palette,
) -> Seq<Rgba8> {
    Seq::new(
        img.len(),
        |p: int|
            pixel_spec(
                palette.colors(),
                palette.labs(),
                img[p].lab,
                img[p].alpha,
                cd,
                ad,
                map.side() * map.side(),
                map.rank_at(p % width, p / width),
            ),
    )
}

/// Quantizes one pixel to the palette, picking the candidate of rank `rank`.
pub fn dither_pixel(
    palette: &Palette,
    lab: Lab,
    alpha: u8,
    color_dither: u32,
    alpha_dither: u32,
    n: usize,
    rank: usize,
) -> (r: Rgba8)
    requires
        palette.wf(),
        lab_in_range(lab),
        color_dither <= DITHER_ONE,
        alpha_dither <= DITHER_ONE,
        n <= MAX_CANDIDATES,
        rank < n,
    ensures
        r == pixel_spec(
            palette.colors(),
            palette.labs(),
            lab,
            alpha,
            color_dither as int,
            alpha_dither as int,
            n as nat,
            rank as int,
        ),
{
    let picks = color_candidates(&palette.labs, lab, color_dither, n);
    let ghost steps = color_steps(palette.labs@, lab, color_dither as int, n as nat).0;
    let mut keyed: Vec<Keyed> = Vec::new();
    let mut i: usize = 0;
    while i < n
        invariant
            palette.wf(),
            picks@.len() == n,
            forall|j: int| 0 <= j < n ==> picks@[j] as int == #[trigger] steps[j],
            forall|j: int| 0 <= j < n ==> picks@[j] < palette.labs@.len(),
            i <= n,
            keyed@.len() == i,
            forall|j: int|
                0 <= j < i ==> #[trigger] keyed@[j] == (palette.labs@[picks@[j] as int].l as i64,
                picks@[j]),
        decreases n - i,
    {
        let c = picks[i];
        keyed.push((palette.labs[c].l as i64, c));
        i = i + 1;
    }
    proof {
        assert(keyed@ == color_keys(palette.labs@, steps));
    }
    let sorted = sort_by_key(&keyed);
    proof {
        lemma_sort_keyed_items(keyed@);
        let s = sorted@[rank as int];
        assert(keyed@.contains(s));
    }
    let chosen = palette.colors[sorted[rank].1];
    let alphas = alpha_candidates(alpha, alpha_dither, n);
    let ghost a_steps = alpha_steps(alpha as int, alpha_dither as int, n as nat).0;
    let mut a_keyed: Vec<Keyed> = Vec::new();
    let mut i: usize = 0;
    while i < n
        invariant
            alphas@.len() == n,
            forall|j: int| 0 <= j < n ==> alphas@[j] as int == #[trigger] a_steps[j],
            i <= n,
            a_keyed@.len() == i,
            forall|j: int| 0 <= j < i ==> #[trigger] a_keyed@[j] == (alphas@[j], j as usize),
        decreases n - i,
    {
        a_keyed.push((alphas[i], i));
        i = i + 1;
    }
    proof {
        assert(a_keyed@ == alpha_keys(a_steps));
        lemma_sort_keyed_items(a_keyed@);
    }
    let a_sorted = sort_by_key(&a_keyed);
    let a = if a_sorted[rank].0 >= 1 {
        255u8
    } else {
        0u8
    };
    Rgba8 { r: chosen.r, g: chosen.g, b: chosen.b, a }
}

/// Quantizes an image of `width × height` pixels (row by row) to the palette,
/// with ordered dithering by the threshold map. Returns a new buffer of the
/// same size.
pub fn run_with_parameters(
    img: &Vec<SourcePixel>,
    width: usize,
    height: usize,
    threshold_map: &ThresholdMap,
    color_dither: u32,
    alpha_dither: u32,
    palette: &Palette,
) -> (r: Vec<Rgba8>)
    requires
        img@.len() == width * height,
        pixels_in_range(img@),
        threshold_map.wf(),
        color_dither <= DITHER_ONE,
        alpha_dither <= DITHER_ONE,
        palette.wf(),
    ensures
        r@ == quantized(
            img@,
            width as int,
            *threshold_map,
            color_dither as int,
            alpha_dither as int,
            *palette,
        ),
{
    let mut out: Vec<Rgba8> = Vec::new();
    if width == 0 {
        assert(out@ =~= quantized(
            img@,
            width as int,
            *threshold_map,
            color_dither as int,
            alpha_dither as int,
            *palette,
        ));
        return out;
    }
    let side = threshold_map.size();
    proof {
        assert(side * side <= MAX_MAP_SIZE * MAX_MAP_SIZE) by (nonlinear_arith)
            requires
                side <= MAX_MAP_SIZE,
        ;
    }
    let n = side * side;
    let mut p: usize = 0;
    while p < img.len()
        invariant
            width > 0,
            img@.len() == width * height,
            pixels_in_range(img@),
            threshold_map.wf(),
            color_dither <= DITHER_ONE,
            alpha_dither <= DITHER_ONE,
            palette.wf(),
            n == threshold_map.side() * threshold_map.side(),
            n <= MAX_CANDIDATES,
            p <= img@.len(),
            out@.len() == p,
            forall|q: int|
                0 <= q < p ==> #[trigger] out@[q] == quantized(
                    img@,
                    width as int,
                    *threshold_map,
                    color_dither as int,
                    alpha_dither as int,
                    *palette,
                )[q],
        decreases img@.len() - p,
    {
        let x = p % width;
        let y = p / width;
        let rank = threshold_map.index(x, y);
        let px = img[p];
        let o = dither_pixel(palette, px.lab, px.alpha, color_dither, alpha_dither, n, rank);
        out.push(o);
        p = p + 1;
    }
    assert(out@ =~= quantized(
        img@,
        width as int,
        *threshold_map,
        color_dither as int,
        alpha_dither as int,
        *palette,
    ));
    out
}

/// Quantizes with the default 2×2 threshold map and dither coefficients. The
/// palette is the caller's; the default one is `default_palette_hex` paired
/// with its perceptual values.
pub fn run(img: &Vec<SourcePixel>, width: usize, height: usize, palette: &Palette) -> (r: Vec<
    Rgba8,
>)
    requires
        img@.len() == width * height,
        pixels_in_range(img@),
        palette.wf(),
    ensures
        exists|m: ThresholdMap|
            m.wf() && m.side() == 2 && m.cells() == seq![0usize, 2, 3, 1] && r@ == quantized(
                img@,
                width as int,
                m,
                COLOR_DITHER as int,
                ALPHA_DITHER as int,
                *palette,
            ),
{
    let map = ThresholdMap::default_map();
    run_with_parameters(img, width, height, &map, COLOR_DITHER, ALPHA_DITHER, palette)
}

/// A pixel quantized straight to its nearest palette entry, with its alpha
/// rounded to fully opaque or fully transparent.
pub open spec fn plain_pixel(colors: Seq<Rgb8>, labs: Seq<Lab>, lab: Lab, alpha: u8) -> Rgba8 {
    let c = colors[nearest_spec(labs, at(lab), 1)];
    Rgba8 {
        r: c.r,
        g: c.g,
        b: c.b,
        a: if alpha >= 128 {
            255
        } else {
            0
        },
    }
}

proof fn lemma_undithered_colors(labs: Seq<Lab>, c: Lab, k: nat)
    requires
        lab_in_range(c),
    ensures
        color_steps(labs, c, 0, k).0.len() == k,
        forall|i: int|
            0 <= i < k ==> #[trigger] color_steps(labs, c, 0, k).0[i] == nearest_spec(
                labs,
                at(c),
                1,
            ),
    decreases k,
{
    if k > 0 {
        lemma_undithered_colors(labs, c, (k - 1) as nat);
        let prev = color_steps(labs, c, 0, (k - 1) as nat);
        assert(crate::dither::aim(c, prev.1, prev.2, prev.3, 0) == scaled(c, DITHER_ONE as int));
        lemma_nearest_scaled(labs, c, DITHER_ONE as int);
        assert forall|i: int| 0 <= i < k implies #[trigger] color_steps(labs, c, 0, k).0[i]
            == nearest_spec(labs, at(c), 1) by {
            if i < k - 1 {
                assert(color_steps(labs, c, 0, k).0[i] == prev.0[i]);
            }
        }
    }
}

proof fn lemma_undithered_alphas(a: u8, k: nat)
    ensures
        alpha_steps(a as int, 0, k).0.len() == k,
        forall|i: int|
            0 <= i < k ==> #[trigger] alpha_steps(a as int, 0, k).0[i] == if a >= 128 {
                1int
            } else {
                0int
            },
    decreases k,
{
    if k > 0 {
        lemma_undithered_alphas(a, (k - 1) as nat);
        let prev = alpha_steps(a as int, 0, (k - 1) as nat);
        let x = 2 * (a * DITHER_ONE + prev.1 * 0) + 255 * DITHER_ONE;
        let d = 2 * (255 * DITHER_ONE);
        lemma_fundamental_div_mod(x, d);
        lemma_mod_pos_bound(x, d);
        let q = x / d;
        assert(q == if a >= 128 {
            1int
        } else {
            0int
        }) by (nonlinear_arith)
            requires
                x == d * q + x % d,
                0 <= x % d < d,
                x == 2 * a * DITHER_ONE + 255 * DITHER_ONE,
                d == 510 * DITHER_ONE,
                0 <= a <= 255,
        ;
        assert forall|i: int| 0 <= i < k implies #[trigger] alpha_steps(a as int, 0, k).0[i] == if a
            >= 128 {
            1int
        } else {
            0int
        } by {
            if i < k - 1 {
                assert(alpha_steps(a as int, 0, k).0[i] == prev.0[i]);
            }
        }
    }
}

/// With both dither coefficients zero, every rank of the candidate lists holds
/// the same color and alpha: the pixel is quantized straight to its nearest
/// palette entry and its alpha rounded to 0 or 255, whatever the rank.
pub proof fn lemma_undithered_pixel(
    colors: Seq<Rgb8>,
    labs: Seq<Lab>,
    lab: Lab,
    alpha: u8,
    n: nat,
    rank: int,
)
    requires
        0 < labs.len() <= usize::MAX,
        colors.len() == labs.len(),
        lab_in_range(lab),
        0 <= rank < n,
    ensures
        pixel_spec(colors, labs, lab, alpha, 0, 0, n, rank) == plain_pixel(colors, labs, lab, alpha),
{
    let j = nearest_spec(labs, at(lab), 1);
    crate::perceptual::lemma_nearest_is_closest(labs, at(lab), 1);
    lemma_undithered_colors(labs, lab, n);
    let ck = color_keys(labs, color_steps(labs, lab, 0, n).0);
    let v: Keyed = (labs[j].l as i64, j as usize);
    assert(forall|i: int| 0 <= i < ck.len() ==> ck[i] == v);
    lemma_sort_keyed_constant(ck, v);
    lemma_undithered_alphas(alpha, n);
    let b = if alpha >= 128 {
        1int
    } else {
        0int
    };
    let ak = alpha_keys(alpha_steps(alpha as int, 0, n).0);
    let ks = sort_keyed(ak);
    lemma_sort_keyed_items(ak);
    assert(ak.contains(ks[rank]));
    assert(ks[rank].0 == b as i64);
}

/// With both dither coefficients zero the threshold map makes no difference:
/// the output of any two well-formed maps is the same, and each pixel is
/// quantized straight to its nearest palette entry with its alpha rounded to
/// 0 or 255.
pub proof fn lemma_undithered_image(
    img: Seq<SourcePixel>,
    width: int,
    m1: ThresholdMap,
    m2: ThresholdMap,
    palette: Palette,
)
    requires
        width > 0,
        pixels_in_range(img),
        m1.wf(),
        m2.wf(),
        palette.wf(),
    ensures
        quantized(img, width, m1, 0, 0, palette) == quantized(img, width, m2, 0, 0, palette),
        quantized(img, width, m1, 0, 0, palette) == Seq::new(
            img.len(),
            |p: int| plain_pixel(palette.colors(), palette.labs(), img[p].lab, img[p].alpha),
        ),
{
    let plain = Seq::new(
        img.len(),
        |p: int| plain_pixel(palette.colors(), palette.labs(), img[p].lab, img[p].alpha),
    );
    assert forall|m: ThresholdMap| #![auto] m.wf() implies quantized(img, width, m, 0, 0, palette)
        == plain by {
        assert forall|p: int| 0 <= p < img.len() implies quantized(img, width, m, 0, 0, palette)[p]
            == plain[p] by {
            lemma_rank_in_range(m, p % width, p / width);
            lemma_undithered_pixel(
                palette.colors(),
                palette.labs(),
                img[p].lab,
                img[p].alpha,
                m.side() * m.side(),
                m.rank_at(p % width, p / width),
            );
        }
        assert(quantized(img, width, m, 0, 0, palette) =~= plain);
    }
}

/// No two palette entries share a perceptual value.
pub open spec fn distinct_labs(labs: Seq<Lab>) -> bool {
    forall|i: int, j: int| 0 <= i < labs.len() && 0 <= j < labs.len() && i != j ==> labs[i] != labs[j]
}

proof fn lemma_exact_colors(labs: Seq<Lab>, i: int, cd: int, k: nat)
    requires
        0 <= i < labs.len(),
        all_in_range(labs),
        distinct_labs(labs),
    ensures
        color_steps(labs, labs[i], cd, k).0.len() == k,
        color_steps(labs, labs[i], cd, k).1 == 0,
        color_steps(labs, labs[i], cd, k).2 == 0,
        color_steps(labs, labs[i], cd, k).3 == 0,
        forall|j: int| 0 <= j < k ==> #[trigger] color_steps(labs, labs[i], cd, k).0[j] == i,
    decreases k,
{
    if k > 0 {
        let c = labs[i];
        lemma_exact_colors(labs, i, cd, (k - 1) as nat);
        let prev = color_steps(labs, c, cd, (k - 1) as nat);
        assert(crate::dither::aim(c, prev.1, prev.2, prev.3, cd) == scaled(c, DITHER_ONE as int));
        lemma_nearest_scaled(labs, c, DITHER_ONE as int);
        lemma_nearest_exact(labs, c, i);
        assert forall|j: int| 0 <= j < k implies #[trigger] color_steps(labs, c, cd, k).0[j] == i by {
            if j < k - 1 {
                assert(color_steps(labs, c, cd, k).0[j] == prev.0[j]);
            }
        }
    }
}

proof fn lemma_exact_alphas(a: u8, ad: int, k: nat)
    requires
        a == 0 || a == 255,
    ensures
        alpha_steps(a as int, ad, k).0.len() == k,
        alpha_steps(a as int, ad, k).1 == 0,
        forall|j: int|
            0 <= j < k ==> #[trigger] alpha_steps(a as int, ad, k).0[j] == if a == 255 {
                1int
            } else {
                0int
            },
    decreases k,
{
    if k > 0 {
        lemma_exact_alphas(a, ad, (k - 1) as nat);
        let prev = alpha_steps(a as int, ad, (k - 1) as nat);
        let x = 2 * (a * DITHER_ONE + prev.1 * ad) + 255 * DITHER_ONE;
        let d = 2 * (255 * DITHER_ONE);
        lemma_fundamental_div_mod(x, d);
        lemma_mod_pos_bound(x, d);
        let q = x / d;
        assert(q == if a == 255 {
            1int
        } else {
            0int
        }) by (nonlinear_arith)
            requires
                x == d * q + x % d,
                0 <= x % d < d,
                x == 2 * a * DITHER_ONE + 255 * DITHER_ONE,
                d == 510 * DITHER_ONE,
                a == 0 || a == 255,
        ;
        assert forall|j: int| 0 <= j < k implies #[trigger] alpha_steps(a as int, ad, k).0[j] == if a
            == 255 {
            1int
        } else {
            0int
        } by {
            if j < k - 1 {
                assert(alpha_steps(a as int, ad, k).0[j] == prev.0[j]);
            }
        }
    }
}

/// A pixel that already holds a palette entry and a fully opaque or fully
/// transparent alpha comes out as that entry and that alpha, whatever the
/// dither coefficients and the rank.
pub proof fn lemma_palette_pixel_fixed(
    colors: Seq<Rgb8>,
    labs: Seq<Lab>,
    i: int,
    alpha: u8,
    cd: int,
    ad: int,
    n: nat,
    rank: int,
)
    requires
        0 < labs.len() <= usize::MAX,
        colors.len() == labs.len(),
        all_in_range(labs),
        distinct_labs(labs),
        0 <= i < labs.len(),
        alpha == 0 || alpha == 255,
        0 <= rank < n,
    ensures
        pixel_spec(colors, labs, labs[i], alpha, cd, ad, n, rank) == (Rgba8 {
            r: colors[i].r,
            g: colors[i].g,
            b: colors[i].b,
            a: alpha,
        }),
{
    lemma_exact_colors(labs, i, cd, n);
    let ck = color_keys(labs, color_steps(labs, labs[i], cd, n).0);
    let v: Keyed = (labs[i].l as i64, i as usize);
    assert(forall|j: int| 0 <= j < ck.len() ==> ck[j] == v);
    lemma_sort_keyed_constant(ck, v);
    lemma_exact_alphas(alpha, ad, n);
    let ak = alpha_keys(alpha_steps(alpha as int, ad, n).0);
    let ks = sort_keyed(ak);
    lemma_sort_keyed_items(ak);
    assert(ak.contains(ks[rank]));
}

/// Quantizing an image whose pixels already hold palette entries, with alphas
/// of 0 or 255, gives back those same entries and alphas: such an image is a
/// fixed point.
pub proof fn lemma_palette_image_fixed(
    img: Seq<SourcePixel>,
    width: int,
    map: ThresholdMap,
    cd: int,
    ad: int,
    palette: Palette,
)
    requires
        width > 0,
        map.wf(),
        palette.wf(),
        distinct_labs(palette.labs()),
        forall|p: int| 0 <= p < img.len() ==> #[trigger] img[p].alpha == 0 || img[p].alpha == 255,
    ensures
        forall|p: int, i: int|
            0 <= p < img.len() && 0 <= i < palette.labs().len() && #[trigger] palette.labs()[i]
                == #[trigger] img[p].lab ==> quantized(img, width, map, cd, ad, palette)[p] == (Rgba8 {
                r: palette.colors()[i].r,
                g: palette.colors()[i].g,
                b: palette.colors()[i].b,
                a: img[p].alpha,
            }),
{
    assert forall|p: int, i: int|
        0 <= p < img.len() && 0 <= i < palette.labs().len() && #[trigger] palette.labs()[i]
            == #[trigger] img[p].lab implies quantized(img, width, map, cd, ad, palette)[p] == (Rgba8 {
        r: palette.colors()[i].r,
        g: palette.colors()[i].g,
        b: palette.colors()[i].b,
        a: img[p].alpha,
    }) by {
        lemma_rank_in_range(map, p % width, p / width);
        lemma_palette_pixel_fixed(
            palette.colors(),
            palette.labs(),
            i,
            img[p].alpha,
            cd,
            ad,
            map.side() * map.side(),
            map.rank_at(p % width, p / width),
        );
    }
}

} // verus!
