use vstd::prelude::*;

verus! {

/// Largest magnitude a perceptual channel may have.
pub const LAB_LIMIT: i32 = 4194304;

/// Largest magnitude a scaled search target may have.
pub const TARGET_LIMIT: i64 = 1152921504606846976;

/// Largest scale a search target may be given in.
pub const SCALE_LIMIT: i64 = 1048576;

/// A color in a perceptually uniform space (lightness and two chroma axes),
/// each channel a fixed-point integer.
#[derive(Clone, Copy, Debug, PartialEq, Eq, Structural)]
pub struct Lab {
    pub l: i32,
    pub a: i32,
    pub b: i32,
}

pub open spec fn lab_in_range(c: Lab) -> bool {
    -LAB_LIMIT <= c.l <= LAB_LIMIT && -LAB_LIMIT <= c.a <= LAB_LIMIT && -LAB_LIMIT <= c.b
        <= LAB_LIMIT
}

pub open spec fn all_in_range(p: Seq<Lab>) -> bool {
    forall|i: int| 0 <= i < p.len() ==> lab_in_range(#[trigger] p[i])
}

/// A point of the perceptual space given in units of `1 / k` of a channel step.
#[derive(Clone, Copy, Debug, PartialEq, Eq, Structural)]
pub struct Target {
    pub l: i64,
    pub a: i64,
    pub b: i64,
}

pub open spec fn target_in_range(t: Target) -> bool {
    -TARGET_LIMIT <= t.l <= TARGET_LIMIT && -TARGET_LIMIT <= t.a <= TARGET_LIMIT && -TARGET_LIMIT
        <= t.b <= TARGET_LIMIT
}

pub open spec fn sq(v: int) -> int {
    v * v
}

/// Squared distance from the target `t` (scaled by `k`) to `c`, in units of `1 / k²`.
pub open spec fn dist2(t: Target, k: int, c: Lab) -> int {
    sq(t.l - k * c.l) + sq(t.a - k * c.a) + sq(t.b - k * c.b)
}

/// The entry closest to `t` among the first `n` of `p`; on a tie the earlier one.
pub open spec fn nearest_among(p: Seq<Lab>, t: Target, k: int, n: int) -> int
    decreases n,
{
    if n <= 1 {
        0
    } else {
        let best = nearest_among(p, t, k, n - 1);
        if dist2(t, k, p[n - 1]) < dist2(t, k, p[best]) {
            n - 1
        } else {
            best
        }
    }
}

/// The index of the palette entry closest to `t`, the first one on a tie.
pub open spec fn nearest_spec(p: Seq<Lab>, t: Target, k: int) -> int {
    nearest_among(p, t, k, p.len() as int)
}

/// The unscaled target at `c` itself.
pub open spec fn at(c: Lab) -> Target {
    Target { l: c.l as i64, a: c.a as i64, b: c.b as i64 }
}

proof fn lemma_square_bound(v: int, m: int)
    requires
        0 <= m,
        -m <= v <= m,
    ensures
        0 <= sq(v) <= m * m,
{
    assert(0 <= v * v <= m * m) by (nonlinear_arith)
        requires
            -m <= v <= m,
            0 <= m,
    ;
}

proof fn lemma_scaled_bound(k: int, c: int)
    requires
        1 <= k <= SCALE_LIMIT,
        -LAB_LIMIT <= c <= LAB_LIMIT,
    ensures
        -SCALE_LIMIT * LAB_LIMIT <= k * c <= SCALE_LIMIT * LAB_LIMIT,
{
    assert(-SCALE_LIMIT * LAB_LIMIT <= k * c <= SCALE_LIMIT * LAB_LIMIT) by (nonlinear_arith)
        requires
            1 <= k <= SCALE_LIMIT,
            -LAB_LIMIT <= c <= LAB_LIMIT,
    ;
}

fn channel_gap(t: i64, k: i64, c: i32) -> (r: i128)
    requires
        -TARGET_LIMIT <= t <= TARGET_LIMIT,
        1 <= k <= SCALE_LIMIT,
        -LAB_LIMIT <= c <= LAB_LIMIT,
    ensures
        r == sq(t - k * c),
        0 <= r <= 4 * TARGET_LIMIT * TARGET_LIMIT,
{
    proof {
        lemma_scaled_bound(k as int, c as int);
        lemma_square_bound(t - k * c, 2 * TARGET_LIMIT);
    }
    let d = (t as i128) - (k as i128) * (c as i128);
    d * d
}

/// Squared distance from a scaled target to a palette entry.
fn distance_squared(t: Target, k: i64, c: Lab) -> (r: i128)
    requires
        target_in_range(t),
        1 <= k <= SCALE_LIMIT,
        lab_in_range(c),
    ensures
        r == dist2(t, k as int, c),
{
    channel_gap(t.l, k, c.l) + channel_gap(t.a, k, c.a) + channel_gap(t.b, k, c.b)
}

/// Linear search for the palette entry closest to `t` (given in units of `1 / k`);
/// a later entry replaces the best so far only when strictly closer.
pub fn nearest_scaled(palette: &Vec<Lab>, t: Target, k: i64) -> (r: usize)
    requires
        palette@.len() > 0,
        all_in_range(palette@),
        target_in_range(t),
        1 <= k <= SCALE_LIMIT,
    ensures
        r as int == nearest_spec(palette@, t, k as int),
        r < palette@.len(),
{
    let mut best: usize = 0;
    let mut best_dist = distance_squared(t, k, palette[0]);
    let mut i: usize = 1;
    while i < palette.len()
        invariant
            1 <= i <= palette@.len(),
            all_in_range(palette@),
            target_in_range(t),
            1 <= k <= SCALE_LIMIT,
            best < i,
            best as int == nearest_among(palette@, t, k as int, i as int),
            best_dist == dist2(t, k as int, palette@[best as int]),
        decreases palette@.len() - i,
    {
        let d = distance_squared(t, k, palette[i]);
        if d < best_dist {
            best = i;
            best_dist = d;
        }
        i = i + 1;
    }
    best
}

/// The palette entry closest to `color`, the first one listed on a tie.
pub fn nearest(palette: &Vec<Lab>, color: Lab) -> (r: usize)
    requires
        palette@.len() > 0,
        all_in_range(palette@),
        lab_in_range(color),
    ensures
        r as int == nearest_spec(palette@, at(color), 1),
        r < palette@.len(),
{
    let t = Target { l: color.l as i64, a: color.a as i64, b: color.b as i64 };
    nearest_scaled(palette, t, 1)
}

/// The target at `c` given in units of `1 / k`.
pub open spec fn scaled(c: Lab, k: int) -> Target {
    Target { l: (c.l * k) as i64, a: (c.a * k) as i64, b: (c.b * k) as i64 }
}

proof fn lemma_scaled_dist(c: Lab, k: int, q: Lab)
    requires
        1 <= k <= SCALE_LIMIT,
        lab_in_range(c),
    ensures
        dist2(scaled(c, k), k, q) == k * k * dist2(at(c), 1, q),
{
    lemma_scaled_bound(k, c.l as int);
    lemma_scaled_bound(k, c.a as int);
    lemma_scaled_bound(k, c.b as int);
    assert forall|u: int, v: int| #[trigger] sq(u * k - k * v) == k * k * sq(u - 1 * v) by {
        assert(sq(u * k - k * v) == k * k * sq(u - 1 * v)) by (nonlinear_arith);
    }
    assert(sq(c.l * k - k * q.l) == k * k * sq(c.l - 1 * q.l));
    assert(sq(c.a * k - k * q.a) == k * k * sq(c.a - 1 * q.a));
    assert(sq(c.b * k - k * q.b) == k * k * sq(c.b - 1 * q.b));
    assert(k * k * sq(c.l - 1 * q.l) + k * k * sq(c.a - 1 * q.a) + k * k * sq(c.b - 1 * q.b) == k
        * k * (sq(c.l - 1 * q.l) + sq(c.a - 1 * q.a) + sq(c.b - 1 * q.b))) by (nonlinear_arith);
}

proof fn lemma_nearest_among_scaled(p: Seq<Lab>, c: Lab, k: int, n: int)
    requires
        1 <= k <= SCALE_LIMIT,
        lab_in_range(c),
        n <= p.len(),
    ensures
        nearest_among(p, scaled(c, k), k, n) == nearest_among(p, at(c), 1, n),
        0 <= nearest_among(p, at(c), 1, n) < if n < 1 { 1 } else { n },
    decreases n,
{
    if n > 1 {
        lemma_nearest_among_scaled(p, c, k, n - 1);
        let best = nearest_among(p, at(c), 1, n - 1);
        lemma_scaled_dist(c, k, p[n - 1]);
        lemma_scaled_dist(c, k, p[best]);
        let x = dist2(at(c), 1, p[n - 1]);
        let y = dist2(at(c), 1, p[best]);
        assert((k * k * x < k * k * y) == (x < y)) by (nonlinear_arith)
            requires
                k >= 1,
        ;
    }
}

/// Searching at a point given in units of `1 / k` finds what searching at the
/// point itself finds.
pub proof fn lemma_nearest_scaled(p: Seq<Lab>, c: Lab, k: int)
    requires
        1 <= k <= SCALE_LIMIT,
        lab_in_range(c),
    ensures
        nearest_spec(p, scaled(c, k), k) == nearest_spec(p, at(c), 1),
{
    lemma_nearest_among_scaled(p, c, k, p.len() as int);
}

/// Where an entry sits at `c` itself and no other entry does, the search at
/// `c` finds that entry.
pub proof fn lemma_nearest_exact(p: Seq<Lab>, c: Lab, i: int)
    requires
        0 <= i < p.len(),
        p[i] == c,
        forall|j: int| 0 <= j < p.len() && j != i ==> p[j] != c,
    ensures
        nearest_spec(p, at(c), 1) == i,
{
    lemma_nearest_is_closest(p, at(c), 1);
    let r = nearest_spec(p, at(c), 1);
    assert(at(c).l == c.l && at(c).a == c.a && at(c).b == c.b);
    assert(sq(0) == 0);
    assert(dist2(at(c), 1, p[i]) == 0);
    let q = p[r];
    assert(sq(c.l - 1 * q.l) >= 0 && sq(c.a - 1 * q.a) >= 0 && sq(c.b - 1 * q.b) >= 0) by (nonlinear_arith);
    assert(sq(c.l - 1 * q.l) == 0 ==> c.l == q.l) by (nonlinear_arith);
    assert(sq(c.a - 1 * q.a) == 0 ==> c.a == q.a) by (nonlinear_arith);
    assert(sq(c.b - 1 * q.b) == 0 ==> c.b == q.b) by (nonlinear_arith);
}

proof fn lemma_nearest_among(p: Seq<Lab>, t: Target, k: int, n: int)
    requires
        1 <= n <= p.len(),
    ensures
        0 <= nearest_among(p, t, k, n) < n,
        forall|j: int|
            0 <= j < n ==> dist2(t, k, p[nearest_among(p, t, k, n)]) <= #[trigger] dist2(t, k, p[j]),
        forall|j: int|
            0 <= j < nearest_among(p, t, k, n) ==> dist2(t, k, p[nearest_among(p, t, k, n)])
                < #[trigger] dist2(t, k, p[j]),
    decreases n,
{
    if n > 1 {
        lemma_nearest_among(p, t, k, n - 1);
    }
}

/// The search result is an entry of the palette, no entry is closer to the
/// target, and every entry listed before it is strictly farther.
pub proof fn lemma_nearest_is_closest(p: Seq<Lab>, t: Target, k: int)
    requires
        p.len() > 0,
    ensures
        0 <= nearest_spec(p, t, k) < p.len(),
        forall|j: int|
            0 <= j < p.len() ==> dist2(t, k, p[nearest_spec(p, t, k)]) <= #[trigger] dist2(t, k, p[j]),
        forall|j: int|
            0 <= j < nearest_spec(p, t, k) ==> dist2(t, k, p[nearest_spec(p, t, k)])
                < #[trigger] dist2(t, k, p[j]),
{
    lemma_nearest_among(p, t, k, p.len() as int);
}

} // verus!
