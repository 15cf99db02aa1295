//! Spatial filters and proximity scoring.
//!
//! Everything is exact integer arithmetic. The proximity radius at `zoom`
//! with a configured `radius` is `1.8 * radius * 2^(zoom - 14)` tiles, and a
//! proximity-weighted score is
//!
//! ```text
//! scoredist = w(min(score, 7)) * 1.8 * radius * 2^(zoom - 14) / max(d, 0.8)
//! ```
//!
//! where `d` is the Chebyshev tile distance and `w(s) = s + (7 - s) * e^(s-7)`
//! blends the score toward its cap. The score weights are tabulated to
//! twelve decimal digits and every value is carried as a numerator over
//! [`crate::SCOREDIST_SCALE`], rounded down.

use vstd::prelude::*;

use crate::MatchEntry;

verus! {

/// Score weights `w(s) = s + (7 - s) * e^(s - 7)` for `s = 0 ..= 7`, scaled
/// by `10^12`; scores above 7 use `w(7)`.
pub open spec fn score_weight(s: u8) -> u64 {
    if s == 0 {
        6383173759
    } else if s == 1 {
        1014872513060
    } else if s == 2 {
        2033689734995
    } else if s == 3 {
        3073262555555
    } else if s == 4 {
        4149361205104
    } else if s == 5 {
        5270670566473
    } else if s == 6 {
        6367879441171
    } else {
        7000000000000
    }
}

/// The tabulated score weight.
pub fn score_weight_exec(s: u8) -> (r: u64)
    ensures
        r == score_weight(s),
{
    if s == 0 {
        6383173759
    } else if s == 1 {
        1014872513060
    } else if s == 2 {
        2033689734995
    } else if s == 3 {
        3073262555555
    } else if s == 4 {
        4149361205104
    } else if s == 5 {
        5270670566473
    } else if s == 6 {
        6367879441171
    } else {
        7000000000000
    }
}

pub open spec fn pow2(k: nat) -> int
    decreases k,
{
    if k == 0 {
        1
    } else {
        2 * pow2((k - 1) as nat)
    }
}

/// Chebyshev (max-axis) distance on the tile grid.
pub open spec fn spec_tile_dist(px: u16, py: u16, x: u16, y: u16) -> u16 {
    let dx = if px >= x {
        (px - x) as u16
    } else {
        (x - px) as u16
    };
    let dy = if py >= y {
        (py - y) as u16
    } else {
        (y - py) as u16
    };
    if dx >= dy {
        dx
    } else {
        dy
    }
}

/// Chebyshev (max-axis) distance on the tile grid.
pub fn tile_dist(px: u16, py: u16, x: u16, y: u16) -> (r: u16)
    ensures
        r == spec_tile_dist(px, py, x, y),
{
    let dx = if px >= x {
        px - x
    } else {
        x - px
    };
    let dy = if py >= y {
        py - y
    } else {
        y - py
    };
    if dx >= dy {
        dx
    } else {
        dy
    }
}

/// Whether distance `d` lies within the proximity radius
/// `1.8 * radius * 2^(zoom - 14)`: compared as
/// `5 * d * 2^(14 - zoom) <= 9 * radius * 2^(zoom - 14)` with the power kept
/// on whichever side makes it an integer.
pub open spec fn spec_within_radius(zoom: u16, d: u16, radius: u32) -> bool {
    if zoom >= 14 {
        5 * d <= 9 * radius * pow2((zoom - 14) as nat)
    } else {
        5 * d * pow2((14 - zoom) as nat) <= 9 * radius
    }
}

/// Whether distance `d` lies within the proximity radius.
pub fn within_radius(zoom: u16, d: u16, radius: u32) -> (r: bool)
    requires
        zoom <= 16,
        radius <= 4000000,
    ensures
        r == spec_within_radius(zoom, d, radius),
{
    if zoom >= 14 {
        let up = pow2_exec(zoom - 14);
        proof {
            assert((9 * (radius as u128)) * up <= 36000000 * 16384) by (nonlinear_arith)
                requires
                    radius <= 4000000,
                    up <= 16384,
            ;
        }
        5 * (d as u128) <= 9 * (radius as u128) * up
    } else {
        let down = pow2_exec(14 - zoom);
        proof {
            assert((5 * (d as u128)) * down <= 327675 * 16384) by (nonlinear_arith)
                requires
                    d <= 65535,
                    down <= 16384,
            ;
        }
        5 * (d as u128) * down <= 9 * (radius as u128)
    }
}

/// `2^k` for `k <= 16`, by table.
fn pow2_exec(k: u16) -> (r: u128)
    requires
        k <= 16,
    ensures
        r == pow2(k as nat),
        1 <= r <= 65536,
        k <= 2 ==> r <= 4,
        k <= 14 ==> r <= 16384,
{
    proof {
        reveal_with_fuel(pow2, 18);
    }
    if k == 0 {
        1
    } else if k == 1 {
        2
    } else if k == 2 {
        4
    } else if k == 3 {
        8
    } else if k == 4 {
        16
    } else if k == 5 {
        32
    } else if k == 6 {
        64
    } else if k == 7 {
        128
    } else if k == 8 {
        256
    } else if k == 9 {
        512
    } else if k == 10 {
        1024
    } else if k == 11 {
        2048
    } else if k == 12 {
        4096
    } else if k == 13 {
        8192
    } else if k == 14 {
        16384
    } else if k == 15 {
        32768
    } else {
        65536
    }
}

/// The scoredist numerator over [`crate::SCOREDIST_SCALE`]: the weighted,
/// radius-scaled harmonic decay, rounded down. Distances are taken in tenths
/// of a tile with zero distance as eight tenths, so
/// `q = floor(w * 9 * radius * 10 * 2^(zoom - 14) * 2^20 / (10^12 * 5 * e))`
/// with `e = max(10 * d, 8)`.
pub open spec fn spec_scoredist(zoom: u16, d: u16, score: u8, radius: u32) -> int {
    let e: int = if d == 0 {
        8
    } else {
        10 * d
    };
    let w = score_weight(score) as int;
    if zoom >= 14 {
        (w * 9 * radius * 10 * 1048576 * pow2((zoom - 14) as nat)) / (5000000000000 * e)
    } else {
        (w * 9 * radius * 10 * 1048576) / (5000000000000 * e * pow2((14 - zoom) as nat))
    }
}

/// Computes the scoredist numerator; it stays under `2^48`.
pub fn scoredist(zoom: u16, d: u16, score: u8, radius: u32) -> (r: u64)
    requires
        zoom <= 16,
        radius <= 4000000,
    ensures
        r == spec_scoredist(zoom, d, score, radius),
        r < 0x1000000000000,
{
    let w = score_weight_exec(score) as u128;
    let e: u128 = if d == 0 {
        8
    } else {
        10 * (d as u128)
    };
    assert(w <= 7000000000000);
    assert(8 <= e <= 655350);
    let a1 = w * 9;
    proof {
        assert(a1 * (radius as u128) <= 63000000000000 * 4000000) by (nonlinear_arith)
            requires
                a1 <= 63000000000000,
                (radius as u128) <= 4000000,
        ;
    }
    let a2 = a1 * (radius as u128);
    let a3 = a2 * 10 * 1048576;
    let num: u128;
    let den: u128;
    if zoom >= 14 {
        let up = pow2_exec(zoom - 14);
        proof {
            assert(a3 * up <= 2642411520000000000000000000 * 4) by (nonlinear_arith)
                requires
                    a3 <= 2642411520000000000000000000,
                    up <= 4,
            ;
        }
        num = a3 * up;
        den = 5000000000000u128 * e;
    } else {
        let down = pow2_exec(14 - zoom);
        let d1 = 5000000000000u128 * e;
        proof {
            assert(d1 * down <= 3276750000000000000 * 16384 && d1 * down >= 40000000000000)
                by (nonlinear_arith)
                requires
                    40000000000000 <= d1 <= 3276750000000000000,
                    1 <= down <= 16384,
            ;
        }
        num = a3;
        den = d1 * down;
    }
    let q = num / den;
    proof {
        vstd::arithmetic::div_mod::lemma_fundamental_div_mod(num as int, den as int);
        assert(q < 0x1000000000000) by (nonlinear_arith)
            requires
                num as int == (den as int) * (q as int) + (num as int) % (den as int),
                0 <= (num as int) % (den as int),
                num <= 10569646080000000000000000000,
                den >= 40000000000000,
                q == num / den,
        ;
    }
    q as u64
}

/// Whether `(x, y)` lies inside the inclusive bounding box
/// `[min_x, min_y, max_x, max_y]`.
pub open spec fn spec_in_bbox(x: u16, y: u16, bbox: [u16; 4]) -> bool {
    bbox[0] <= x <= bbox[2] && bbox[1] <= y <= bbox[3]
}

/// Whether `(x, y)` lies inside the inclusive bounding box.
pub fn in_bbox(x: u16, y: u16, bbox: &[u16; 4]) -> (r: bool)
    ensures
        r == spec_in_bbox(x, y, *bbox),
{
    bbox[0] <= x && x <= bbox[2] && bbox[1] <= y && y <= bbox[3]
}

/// The single bounding box covering the whole tile grid at `zoom`.
pub fn global_bbox_for_zoom(zoom: u16) -> (r: Vec<[u16; 4]>)
    requires
        zoom <= 16,
    ensures
        r@.len() == 1,
        r@[0][0] == 0 && r@[0][1] == 0,
        r@[0][2] == (pow2(zoom as nat) - 1) as u16 && r@[0][3] == (pow2(zoom as nat) - 1) as u16,
{
    let side = pow2_exec(zoom);
    let m = (side - 1) as u16;
    proof {
        reveal_with_fuel(pow2, 18);
    }
    let v = vec![[0u16, 0u16, m, m]];
    assert(v@[0][0] == 0 && v@[0][1] == 0 && v@[0][2] == m && v@[0][3] == m);
    v
}

// ---------------------------------------------------------------------------
// The composite rank
// ---------------------------------------------------------------------------
/// The composite rank of a match entry, packed so that the numeric order of
/// the ranks is the lexicographic order of
/// `(relev, scoredist, matches_language, x, y, id)`: the fields occupy
/// disjoint spans of a `u128` (id 24 bits, y 16, x 16, matches_language 1,
/// scoredist 48, relev 7).
pub open spec fn spec_rank(relev: u8, sd: u64, ml: bool, x: u16, y: u16, id: u32) -> u128 {
    ((relev as u128) * 0x2000000000000000000000000000 + (sd as u128) * 0x200000000000000 + (
    if ml {
        1u128
    } else {
        0u128
    }) * 0x100000000000000 + (x as u128) * 0x10000000000 + (y as u128) * 0x1000000
        + id as u128) as u128
}

/// The composite rank of a match entry.
pub open spec fn rank_of(e: MatchEntry) -> u128 {
    spec_rank(e.relev, e.scoredist, e.matches_language, e.x, e.y, e.id)
}

/// Packs the composite rank.
pub fn rank_of_entry(e: &MatchEntry) -> (r: u128)
    requires
        e.relev <= 125,
        e.scoredist < 0x1000000000000,
        e.id < 0x1000000,
    ensures
        r == rank_of(*e),
{
    (e.relev as u128) * 0x2000000000000000000000000000 + (e.scoredist as u128) * 0x200000000000000
        + (if e.matches_language {
        1u128
    } else {
        0u128
    }) * 0x100000000000000 + (e.x as u128) * 0x10000000000 + (e.y as u128) * 0x1000000 + (
    e.id as u128)
}

} // verus!
