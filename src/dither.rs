use vstd::prelude::*;
use vstd::arithmetic::div_mod::{lemma_fundamental_div_mod, lemma_mod_pos_bound};
use crate::perceptual::{
    all_in_range, lab_in_range, nearest_scaled, nearest_spec, Lab, Target, LAB_LIMIT,
};

verus! {

/// A dither coefficient is a count of ten-thousandths: this stands for 1.
pub const DITHER_ONE: u32 = 10000;

/// Largest number of candidates made for one pixel.
pub const MAX_CANDIDATES: usize = 65536;

/// `num / den` rounded to the nearest integer, halves away from zero.
pub open spec fn round_half_away(num: int, den: int) -> int {
    if num >= 0 {
        (2 * num + den) / (2 * den)
    } else {
        -((-2 * num + den) / (2 * den))
    }
}

/// The point a pixel of color `c` aims at once the accumulated error
/// `(el, ea, eb)` is fed back at `cd / DITHER_ONE`, in units of `1 / DITHER_ONE`.
pub open spec fn aim(c: Lab, el: int, ea: int, eb: int, cd: int) -> Target {
    Target {
        l: (c.l * DITHER_ONE + el * cd) as i64,
        a: (c.a * DITHER_ONE + ea * cd) as i64,
        b: (c.b * DITHER_ONE + eb * cd) as i64,
    }
}

/// The first `k` color candidates of a pixel of color `c` (palette indices,
/// in the order made) and the error accumulated after them.
pub open spec fn color_steps(p: Seq<Lab>, c: Lab, cd: int, k: nat) -> (Seq<int>, int, int, int)
    decreases k,
{
    if k == 0 {
        (Seq::empty(), 0, 0, 0)
    } else {
        let prev = color_steps(p, c, cd, (k - 1) as nat);
        let i = nearest_spec(p, aim(c, prev.1, prev.2, prev.3, cd), DITHER_ONE as int);
        (prev.0.push(i), prev.1 + c.l - p[i].l, prev.2 + c.a - p[i].a, prev.3 + c.b - p[i].b)
    }
}

/// The first `k` alpha candidates of a pixel of alpha `a` (0 to 255) and the
/// error accumulated after them, in units of `1 / 255`.
pub open spec fn alpha_steps(a: int, ad: int, k: nat) -> (Seq<int>, int)
    decreases k,
{
    if k == 0 {
        (Seq::empty(), 0)
    } else {
        let prev = alpha_steps(a, ad, (k - 1) as nat);
        let q = round_half_away(a * DITHER_ONE + prev.1 * ad, 255 * DITHER_ONE);
        (prev.0.push(q), prev.1 + a - 255 * q)
    }
}

pub proof fn lemma_color_steps_len(p: Seq<Lab>, c: Lab, cd: int, k: nat)
    ensures
        color_steps(p, c, cd, k).0.len() == k,
    decreases k,
{
    if k > 0 {
        lemma_color_steps_len(p, c, cd, (k - 1) as nat);
    }
}

pub proof fn lemma_alpha_steps_len(a: int, ad: int, k: nat)
    ensures
        alpha_steps(a, ad, k).0.len() == k,
    decreases k,
{
    if k > 0 {
        lemma_alpha_steps_len(a, ad, (k - 1) as nat);
    }
}

proof fn lemma_round_close(num: int, den: int)
    requires
        den > 0,
    ensures
        -den <= 2 * (num - den * round_half_away(num, den)) <= den,
{
    let m = if num >= 0 { num } else { -num };
    let d2 = 2 * den;
    let x = 2 * m + den;
    lemma_fundamental_div_mod(x, d2);
    lemma_mod_pos_bound(x, d2);
    let q = x / d2;
    assert(-den <= 2 * (m - den * q) <= den) by (nonlinear_arith)
        requires
            x == d2 * q + x % d2,
            0 <= x % d2 < d2,
            x == 2 * m + den,
            d2 == 2 * den,
    ;
    if num < 0 {
        assert(num - den * round_half_away(num, den) == -(m - den * q)) by (nonlinear_arith)
            requires
                num == -m,
                round_half_away(num, den) == -q,
        ;
    }
}

proof fn lemma_product_bound(e: int, d: int, m: int)
    requires
        -m <= e <= m,
        0 <= d <= DITHER_ONE,
        0 <= m,
    ensures
        -m * DITHER_ONE <= e * d <= m * DITHER_ONE,
{
    assert(-m * DITHER_ONE <= e * d <= m * DITHER_ONE) by (nonlinear_arith)
        requires
            -m <= e <= m,
            0 <= d <= DITHER_ONE,
            0 <= m,
    ;
}

fn round_div(num: i64, den: i64) -> (r: i64)
    requires
        0 < den <= 1000000000,
        -1000000000000000 <= num <= 1000000000000000,
    ensures
        r == round_half_away(num as int, den as int),
{
    let m: i64 = if num >= 0 { num } else { -num };
    let x: u64 = (2 * m + den) as u64;
    let d: u64 = (2 * den) as u64;
    let q: i64 = (x / d) as i64;
    if num >= 0 {
        q
    } else {
        -q
    }
}

/// Makes `n` color candidates for a pixel of color `c`: each is the palette
/// entry nearest to `c` shifted by the error accumulated so far, scaled by
/// `color_dither / DITHER_ONE`.
pub fn color_candidates(palette: &Vec<Lab>, c: Lab, color_dither: u32, n: usize) -> (r: Vec<usize>)
    requires
        palette@.len() > 0,
        all_in_range(palette@),
        lab_in_range(c),
        color_dither <= DITHER_ONE,
        n <= MAX_CANDIDATES,
    ensures
        r@.len() == n,
        color_steps(palette@, c, color_dither as int, n as nat).0.len() == n,
        forall|i: int| 0 <= i < n ==> r@[i] < palette@.len(),
        forall|i: int|
            0 <= i < n ==> r@[i] as int == #[trigger] color_steps(
                palette@,
                c,
                color_dither as int,
                n as nat,
            ).0[i],
{
    let mut picks: Vec<usize> = Vec::new();
    let mut el: i64 = 0;
    let mut ea: i64 = 0;
    let mut eb: i64 = 0;
    let mut k: usize = 0;
    let cd = color_dither as i64;
    let unit = DITHER_ONE as i64;
    while k < n
        invariant
            palette@.len() > 0,
            all_in_range(palette@),
            lab_in_range(c),
            color_dither <= DITHER_ONE,
            cd == color_dither,
            unit == DITHER_ONE,
            n <= MAX_CANDIDATES,
            k <= n,
            picks@.len() == k,
            forall|i: int| 0 <= i < k ==> picks@[i] < palette@.len(),
            forall|i: int|
                0 <= i < k ==> picks@[i] as int == #[trigger] color_steps(
                    palette@,
                    c,
                    color_dither as int,
                    k as nat,
                ).0[i],
            el == color_steps(palette@, c, color_dither as int, k as nat).1,
            ea == color_steps(palette@, c, color_dither as int, k as nat).2,
            eb == color_steps(palette@, c, color_dither as int, k as nat).3,
            -k * 2 * LAB_LIMIT <= el <= k * 2 * LAB_LIMIT,
            -k * 2 * LAB_LIMIT <= ea <= k * 2 * LAB_LIMIT,
            -k * 2 * LAB_LIMIT <= eb <= k * 2 * LAB_LIMIT,
        decreases n - k,
    {
        proof {
            lemma_product_bound(el as int, cd as int, k * 2 * LAB_LIMIT);
            lemma_product_bound(ea as int, cd as int, k * 2 * LAB_LIMIT);
            lemma_product_bound(eb as int, cd as int, k * 2 * LAB_LIMIT);
        }
        let t = Target {
            l: (c.l as i64) * unit + el * cd,
            a: (c.a as i64) * unit + ea * cd,
            b: (c.b as i64) * unit + eb * cd,
        };
        let i = nearest_scaled(palette, t, unit);
        let chosen = palette[i];
        picks.push(i);
        el = el + (c.l as i64) - (chosen.l as i64);
        ea = ea + (c.a as i64) - (chosen.a as i64);
        eb = eb + (c.b as i64) - (chosen.b as i64);
        k = k + 1;
        proof {
            assert(lab_in_range(palette@[i as int]));
            let prev = color_steps(palette@, c, color_dither as int, (k - 1) as nat);
            lemma_color_steps_len(palette@, c, color_dither as int, (k - 1) as nat);
            assert(t == aim(c, prev.1, prev.2, prev.3, color_dither as int));
            assert forall|j: int| 0 <= j < k implies picks@[j] as int == #[trigger] color_steps(
                palette@,
                c,
                color_dither as int,
                k as nat,
            ).0[j] by {
                if j < k - 1 {
                    assert(color_steps(palette@, c, color_dither as int, k as nat).0[j] == prev.0[j]);
                }
            }
        }
    }
    proof {
        lemma_color_steps_len(palette@, c, color_dither as int, n as nat);
    }
    picks
}

/// Makes `n` alpha candidates for a pixel of alpha `alpha` (0 to 255 standing
/// for 0 to 1): each is that alpha shifted by the error accumulated so far,
/// scaled by `alpha_dither / DITHER_ONE`, then rounded.
pub fn alpha_candidates(alpha: u8, alpha_dither: u32, n: usize) -> (r: Vec<i64>)
    requires
        alpha_dither <= DITHER_ONE,
        n <= MAX_CANDIDATES,
    ensures
        r@.len() == n,
        alpha_steps(alpha as int, alpha_dither as int, n as nat).0.len() == n,
        forall|i: int|
            0 <= i < n ==> r@[i] as int == #[trigger] alpha_steps(
                alpha as int,
                alpha_dither as int,
                n as nat,
            ).0[i],
{
    let mut picks: Vec<i64> = Vec::new();
    let mut e: i64 = 0;
    let mut k: usize = 0;
    let ad = alpha_dither as i64;
    let unit = DITHER_ONE as i64;
    let a = alpha as i64;
    while k < n
        invariant
            alpha_dither <= DITHER_ONE,
            ad == alpha_dither,
            unit == DITHER_ONE,
            a == alpha,
            n <= MAX_CANDIDATES,
            k <= n,
            picks@.len() == k,
            forall|i: int|
                0 <= i < k ==> picks@[i] as int == #[trigger] alpha_steps(
                    alpha as int,
                    alpha_dither as int,
                    k as nat,
                ).0[i],
            e == alpha_steps(alpha as int, alpha_dither as int, k as nat).1,
            -255 * k <= 2 * e <= 255 * k,
        decreases n - k,
    {
        proof {
            lemma_product_bound(e as int, ad as int, 255 * MAX_CANDIDATES);
        }
        let s = a * unit + e * ad;
        let q = round_div(s, 255 * unit);
        proof {
            lemma_round_close(s as int, 255 * DITHER_ONE);
            let den = 255 * DITHER_ONE;
            let e2 = e + a - 255 * q;
            assert(DITHER_ONE * e2 == e * (DITHER_ONE - ad) + (s - den * q)) by (nonlinear_arith)
                requires
                    e2 == e + a - 255 * q,
                    s == a * DITHER_ONE + e * ad,
                    den == 255 * DITHER_ONE,
            ;
            assert(-255 * (k + 1) <= 2 * e2 <= 255 * (k + 1)) by (nonlinear_arith)
                requires
                    DITHER_ONE * e2 == e * (DITHER_ONE - ad) + (s - den * q),
                    -den <= 2 * (s - den * q) <= den,
                    den == 255 * DITHER_ONE,
                    -255 * k <= 2 * e <= 255 * k,
                    0 <= ad <= DITHER_ONE,
                    k >= 0,
            ;
        }
        picks.push(q);
        e = e + a - 255 * q;
        k = k + 1;
        proof {
            let prev = alpha_steps(alpha as int, alpha_dither as int, (k - 1) as nat);
            lemma_alpha_steps_len(alpha as int, alpha_dither as int, (k - 1) as nat);
            assert forall|j: int| 0 <= j < k implies picks@[j] as int == #[trigger] alpha_steps(
                alpha as int,
                alpha_dither as int,
                k as nat,
            ).0[j] by {
                if j < k - 1 {
                    assert(alpha_steps(alpha as int, alpha_dither as int, k as nat).0[j] == prev.0[j]);
                }
            }
        }
    }
    proof {
        lemma_alpha_steps_len(alpha as int, alpha_dither as int, n as nat);
    }
    picks
}

} // verus!
