//! Lakes: square water regions carved around a river's terminus.
use vstd::prelude::*;
use crate::grid::{has_shape, in_bounds, rectangular, set_flag, width_of, Point, WaterMap};

verus! {

/// `r` is the square root of `v` rounded to the nearest integer
/// (`(r - 1/2)^2 <= v < (r + 1/2)^2`).
pub open spec fn is_rounded_sqrt(v: int, r: int) -> bool {
    &&& r >= 0
    &&& v <= r * r + r
    &&& (r == 0 || r * r - r < v)
}

/// The half-extent of the lake that a river of volume `v` carves.
pub open spec fn lake_radius(v: int) -> int {
    choose|r: int| is_rounded_sqrt(v, r)
}

/// `(x, y)` lies in the square of half-extent `rad` centred on `(cx, cy)`;
/// a half-extent of zero holds no cell.
pub open spec fn in_lake(cx: int, cy: int, rad: int, x: int, y: int) -> bool {
    &&& rad > 0
    &&& cx - rad <= x <= cx + rad
    &&& cy - rad <= y <= cy + rad
}

/// A volume has exactly one rounded square root.
pub proof fn lemma_rounded_sqrt_unique(v: int, a: int, b: int)
    requires
        is_rounded_sqrt(v, a),
        is_rounded_sqrt(v, b),
    ensures
        a == b,
{
    if a < b {
        assert(b * b - b >= a * a + a) by (nonlinear_arith)
            requires a + 1 <= b, a >= 0;
    } else if b < a {
        assert(a * a - a >= b * b + b) by (nonlinear_arith)
            requires b + 1 <= a, b >= 0;
    }
}

/// The square root of `v`, rounded to the nearest integer.
pub fn rounded_sqrt(v: usize) -> (r: usize)
    ensures
        is_rounded_sqrt(v as int, r as int),
        r as int == lake_radius(v as int),
{
    let vv = v as u128;
    // Binary search for the integer square root `s`: `s * s <= vv < (s + 1) * (s + 1)`.
    let mut lo: u128 = 0;
    let mut hi: u128 = 0x1_0000_0000;
    assert(vv < hi * hi) by (nonlinear_arith)
        requires vv <= 0xFFFF_FFFF_FFFF_FFFFu128, hi == 0x1_0000_0000u128;
    while hi - lo > 1
        invariant
            lo < hi <= 0x1_0000_0000,
            lo * lo <= vv,
            vv < hi * hi,
            vv == v as u128,
            vv <= usize::MAX,
        decreases hi - lo,
    {
        let mid: u128 = lo + (hi - lo) / 2;
        assert(mid * mid <= 0x1_0000_0000u128 * 0x1_0000_0000u128) by (nonlinear_arith)
            requires mid <= 0x1_0000_0000u128;
        if mid * mid <= vv {
            lo = mid;
        } else {
            hi = mid;
        }
    }
    let s: u128 = lo;
    assert(vv < (s + 1) * (s + 1));
    let r: u128 = if vv > s * s + s {
        s + 1
    } else {
        s
    };
    proof {
        let (vi, si, ri) = (vv as int, s as int, r as int);
        assert(si * si <= vi && vi < (si + 1) * (si + 1));
        assert((si + 1) * (si + 1) == si * si + 2 * si + 1) by (nonlinear_arith);
        assert((si + 1) * (si + 1) - (si + 1) == si * si + si) by (nonlinear_arith);
        assert((si + 1) * (si + 1) + (si + 1) == si * si + 3 * si + 2) by (nonlinear_arith);
        if si >= 1 {
            assert(si * si - si < si * si);
        }
        assert(is_rounded_sqrt(vi, ri));
        lemma_rounded_sqrt_unique(vi, ri, lake_radius(vi));
    }
    r as usize
}

/// Marks as water every in-bounds cell of the square of half-extent
/// `lake_radius(volume)` centred on `center`; cells outside the grid are skipped.
pub fn form_lake(water_map: &mut WaterMap, center: &Point, volume: usize)
    requires
        rectangular(old(water_map)@),
    ensures
        has_shape(final(water_map)@, width_of(old(water_map)@), old(water_map)@.len() as int),
        forall|x: int, y: int| in_bounds(width_of(old(water_map)@), old(water_map)@.len() as int, x, y) ==>
            (#[trigger] final(water_map)@[y]@[x]) == (old(water_map)@[y]@[x] || in_lake(
                center.0 as int,
                center.1 as int,
                lake_radius(volume as int),
                x,
                y,
            )),
{
    let ghost orig = water_map@;
    let ghost w = width_of(orig);
    let ghost h = orig.len() as int;
    let rad = rounded_sqrt(volume);
    let height = water_map.len();
    if rad == 0 || height == 0 {
        return;
    }
    let width = water_map[0].len();
    if width == 0 {
        return;
    }
    let (cx, cy) = *center;
    let ghost lr = rad as int;
    let y0 = cy.saturating_sub(rad);
    let y1 = if cy.saturating_add(rad) < height { cy + rad } else { height - 1 };
    let x0 = cx.saturating_sub(rad);
    let x1 = if cx.saturating_add(rad) < width { cx + rad } else { width - 1 };
    if y0 > y1 || x0 > x1 {
        return;
    }
    let mut y: usize = y0;
    while y <= y1
        invariant
            w == width as int,
            h == height as int,
            height > 0,
            width > 0,
            lr == rad as int,
            lr == lake_radius(volume as int),
            lr > 0,
            y0 as int == if cy >= rad { cy - rad } else { 0 },
            y1 as int == if cy + rad < height { cy + rad } else { height - 1 },
            x0 as int == if cx >= rad { cx - rad } else { 0 },
            x1 as int == if cx + rad < width { cx + rad } else { width - 1 },
            y0 <= y,
            x0 <= x1,
            y1 < height,
            x1 < width,
            y <= y1 + 1,
            has_shape(water_map@, w, h),
            forall|xx: int, yy: int| in_bounds(w, h, xx, yy) ==>
                (#[trigger] water_map@[yy]@[xx]) == (orig[yy]@[xx] || (in_lake(cx as int, cy as int, lr, xx, yy) && yy < y)),
        decreases y1 + 1 - y,
    {
        let mut x: usize = x0;
        while x <= x1
            invariant
                w == width as int,
                h == height as int,
                lr == rad as int,
                lr > 0,
                y0 as int == if cy >= rad { cy - rad } else { 0 },
                y1 as int == if cy + rad < height { cy + rad } else { height - 1 },
                x0 as int == if cx >= rad { cx - rad } else { 0 },
                x1 as int == if cx + rad < width { cx + rad } else { width - 1 },
                y0 <= y <= y1,
                y1 < height,
                x0 <= x,
                x1 < width,
                x <= x1 + 1,
                has_shape(water_map@, w, h),
                forall|xx: int, yy: int| in_bounds(w, h, xx, yy) ==>
                    (#[trigger] water_map@[yy]@[xx]) == (orig[yy]@[xx] || (in_lake(cx as int, cy as int, lr, xx, yy) && (yy < y || (yy == y && xx < x)))),
            decreases x1 + 1 - x,
        {
            set_flag(water_map, x, y, true);
            x = x + 1;
        }
        y = y + 1;
    }
}

} // verus!
