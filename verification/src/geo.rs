//! Geographic primitives on integer units.
//!
//! A coordinate stores latitude and longitude in microdegrees.  Distances are
//! millimeters, bearings are millidegrees clockwise from north.  Working on
//! integers keeps every function here a total, exactly specified one: the
//! distance is a planar approximation of the great-circle arc (one degree is
//! taken as 111.319 km), the bearing and the destination point use low-degree
//! polynomial approximations of the trigonometric functions.

use vstd::prelude::*;

use crate::MapsError;

verus! {

/// Largest valid latitude, in microdegrees.
pub const LAT_LIMIT_MICRO: i64 = 90_000_000;

/// Largest valid longitude magnitude, in microdegrees.
pub const LON_LIMIT_MICRO: i64 = 180_000_000;

/// Millimeters per thousandth of a microdegree of arc (111.319 km per degree).
pub const MICROMETERS_PER_MICRODEGREE: u64 = 111_319;

/// A geographic point, validated at construction.
#[derive(Clone, Copy, Debug, PartialEq, Eq, Structural)]
pub struct Coordinate {
    /// Latitude in microdegrees, in `[-90_000_000, 90_000_000]`.
    pub lat_micro: i64,
    /// Longitude in microdegrees, in `[-180_000_000, 180_000_000]`.
    pub lon_micro: i64,
}

impl Coordinate {
    /// Both components are inside their valid range.
    pub open spec fn valid(self) -> bool {
        -LAT_LIMIT_MICRO <= self.lat_micro <= LAT_LIMIT_MICRO
            && -LON_LIMIT_MICRO <= self.lon_micro <= LON_LIMIT_MICRO
    }

    /// Builds a coordinate, rejecting out-of-range components.
    pub fn new(lat_micro: i64, lon_micro: i64) -> (r: Result<Coordinate, MapsError>)
        ensures
            r is Ok <==> (-LAT_LIMIT_MICRO <= lat_micro <= LAT_LIMIT_MICRO
                && -LON_LIMIT_MICRO <= lon_micro <= LON_LIMIT_MICRO),
            r matches Ok(c) ==> c == (Coordinate { lat_micro, lon_micro }) && c.valid(),
            r is Err ==> r == Err::<Coordinate, MapsError>(MapsError::OutOfRange),
    {
        if lat_micro < -LAT_LIMIT_MICRO || lat_micro > LAT_LIMIT_MICRO {
            Err(MapsError::OutOfRange)
        } else if lon_micro < -LON_LIMIT_MICRO || lon_micro > LON_LIMIT_MICRO {
            Err(MapsError::OutOfRange)
        } else {
            Ok(Coordinate { lat_micro, lon_micro })
        }
    }
}

/// Absolute value of a mathematical integer.
pub open spec fn abs_int(x: int) -> int {
    if x < 0 {
        -x
    } else {
        x
    }
}

/// Floor of the square root, defined by recursion over the radicand.
pub open spec fn isqrt_spec(x: nat) -> nat
    decreases x,
{
    if x == 0 {
        0
    } else {
        let r = isqrt_spec((x - 1) as nat);
        if (r + 1) * (r + 1) <= x {
            r + 1
        } else {
            r
        }
    }
}

/// `isqrt_spec` is the floor of the square root: it is the unique `r` with
/// `r * r <= x < (r + 1) * (r + 1)`.
pub proof fn lemma_isqrt_spec_bounds(x: nat)
    ensures
        isqrt_spec(x) * isqrt_spec(x) <= x,
        x < (isqrt_spec(x) + 1) * (isqrt_spec(x) + 1),
    decreases x,
{
    if x == 0 {
        assert(isqrt_spec(0) == 0);
        assert(isqrt_spec(x) * isqrt_spec(x) <= x);
        assert((isqrt_spec(x) + 1) * (isqrt_spec(x) + 1) == 1) by (nonlinear_arith)
            requires isqrt_spec(x) == 0
        ;
        assert(x < (isqrt_spec(x) + 1) * (isqrt_spec(x) + 1));
    } else {
        lemma_isqrt_spec_bounds((x - 1) as nat);
        let r = isqrt_spec((x - 1) as nat);
        if (r + 1) * (r + 1) <= x {
            assert(isqrt_spec(x) == r + 1);
            assert((r + 2) * (r + 2) == (r + 1) * (r + 1) + 2 * r + 3) by (nonlinear_arith);
            assert(x < (r + 2) * (r + 2));
            assert(isqrt_spec(x) * isqrt_spec(x) <= x);
            assert(x < (isqrt_spec(x) + 1) * (isqrt_spec(x) + 1));
        } else {
            assert(isqrt_spec(x) == r);
            assert(isqrt_spec(x) * isqrt_spec(x) <= x);
            assert(x < (isqrt_spec(x) + 1) * (isqrt_spec(x) + 1));
        }
    }
}

/// Any `r` within the square-root bounds of `x` equals `isqrt_spec(x)`.
pub proof fn lemma_isqrt_unique(x: nat, r: nat)
    requires
        r * r <= x,
        x < (r + 1) * (r + 1),
    ensures
        r == isqrt_spec(x),
{
    lemma_isqrt_spec_bounds(x);
    let s = isqrt_spec(x);
    if r < s {
        assert((r + 1) * (r + 1) <= s * s) by (nonlinear_arith)
            requires r + 1 <= s
        ;
    }
    if s < r {
        assert((s + 1) * (s + 1) <= r * r) by (nonlinear_arith)
            requires s + 1 <= r
        ;
    }
}

/// Floor of the square root of a 128-bit value below `2^92`.
pub fn isqrt128(x: u128) -> (r: u128)
    requires
        x < 70368744177664 * 70368744177664,
    ensures
        r == isqrt_spec(x as nat),
        r * r <= x,
        x < (r + 1) * (r + 1),
        r < 70368744177664,
{
    let mut lo: u128 = 0;
    let mut hi: u128 = 70368744177664;
    while lo + 1 < hi
        invariant
            lo < hi,
            hi <= 70368744177664,
            lo * lo <= x,
            x < hi * hi,
        decreases hi - lo,
    {
        let mid = lo + (hi - lo) / 2;
        assert(mid * mid <= 70368744177664 * 70368744177664) by (nonlinear_arith)
            requires mid <= 70368744177664
        ;
        if mid * mid <= x {
            lo = mid;
        } else {
            hi = mid;
        }
    }
    proof {
        lemma_isqrt_unique(x as nat, lo as nat);
    }
    lo
}

/// Half the Earth's circumference in millimeters: no two points on the
/// sphere are farther apart than this antipodal maximum.
pub const HALF_CIRCUMFERENCE_MM: u64 = 20_015_086_796;

/// Separation of two longitudes in microdegrees, the shorter way around the
/// sphere: a raw difference beyond 180 degrees is folded at the antimeridian.
pub open spec fn lon_delta_micro(a: int, b: int) -> int {
    let raw = abs_int(a - b);
    if raw > 180000000 {
        360000000 - raw
    } else {
        raw
    }
}

/// Squared separation of two coordinates, in micrometers of arc, with the
/// longitude difference folded at the antimeridian.
pub open spec fn dist_sq_micrometers(a: Coordinate, b: Coordinate) -> int {
    let dlat = abs_int(a.lat_micro - b.lat_micro) * MICROMETERS_PER_MICRODEGREE;
    let dlon = lon_delta_micro(a.lon_micro as int, b.lon_micro as int)
        * MICROMETERS_PER_MICRODEGREE;
    dlat * dlat + dlon * dlon
}

/// Separation of two coordinates in millimeters: the planar approximation of
/// the great-circle distance, rounded down and capped at the antipodal
/// maximum, so it never exceeds the range of a great-circle arc.
pub open spec fn spec_distance_mm(a: Coordinate, b: Coordinate) -> int {
    let d = isqrt_spec(dist_sq_micrometers(a, b) as nat) as int / 1000;
    if d > HALF_CIRCUMFERENCE_MM {
        HALF_CIRCUMFERENCE_MM as int
    } else {
        d
    }
}

/// The distance is symmetric in its arguments.
pub proof fn lemma_distance_symmetric(a: Coordinate, b: Coordinate)
    ensures
        spec_distance_mm(a, b) == spec_distance_mm(b, a),
{
    assert(abs_int(a.lat_micro - b.lat_micro) == abs_int(b.lat_micro - a.lat_micro));
    assert(lon_delta_micro(a.lon_micro as int, b.lon_micro as int) == lon_delta_micro(
        b.lon_micro as int,
        a.lon_micro as int,
    ));
}

/// The distance from a coordinate to itself is zero.
pub proof fn lemma_distance_self_zero(a: Coordinate)
    ensures
        spec_distance_mm(a, a) == 0,
{
    assert(dist_sq_micrometers(a, a) == 0);
    assert(isqrt_spec(0nat) == 0);
}

/// The distance is zero only between equal coordinates — or between the two
/// encodings of one antimeridian point, whose longitudes differ by exactly a
/// full turn.  Any other pair differs by at least one microdegree of arc,
/// which is more than a millimeter.
pub proof fn lemma_distance_zero_only_self(a: Coordinate, b: Coordinate)
    requires
        a.valid(),
        b.valid(),
        spec_distance_mm(a, b) == 0,
    ensures
        a.lat_micro == b.lat_micro,
        a.lon_micro == b.lon_micro || abs_int(a.lon_micro - b.lon_micro) == 360000000,
{
    let s = dist_sq_micrometers(a, b) as nat;
    lemma_isqrt_spec_bounds(s);
    assert(isqrt_spec(s) < 1000);
    assert(s < (isqrt_spec(s) + 1) * (isqrt_spec(s) + 1));
    assert(s < 1000 * 1000) by (nonlinear_arith)
        requires
            s < (isqrt_spec(s) + 1) * (isqrt_spec(s) + 1),
            isqrt_spec(s) + 1 <= 1000,
    ;
    let dlat = abs_int(a.lat_micro - b.lat_micro) * MICROMETERS_PER_MICRODEGREE;
    let dlon = lon_delta_micro(a.lon_micro as int, b.lon_micro as int)
        * MICROMETERS_PER_MICRODEGREE;
    assert(dlat * dlat >= 0 && dlon * dlon >= 0) by (nonlinear_arith);
    if a.lat_micro != b.lat_micro {
        assert(dlat >= 111319);
        assert(dlat * dlat >= 111319 * 111319) by (nonlinear_arith)
            requires dlat >= 111319
        ;
    }
    if a.lon_micro != b.lon_micro && abs_int(a.lon_micro - b.lon_micro) != 360000000 {
        assert(lon_delta_micro(a.lon_micro as int, b.lon_micro as int) >= 1);
        assert(dlon >= 111319);
        assert(dlon * dlon >= 111319 * 111319) by (nonlinear_arith)
            requires dlon >= 111319
        ;
    }
}

/// Planar approximation of the great-circle distance between two coordinates,
/// in millimeters: the longitude difference is folded at the antimeridian and
/// the result is capped at the antipodal maximum.
pub fn distance(a: &Coordinate, b: &Coordinate) -> (d: u64)
    requires
        a.valid(),
        b.valid(),
    ensures
        d == spec_distance_mm(*a, *b),
        d <= HALF_CIRCUMFERENCE_MM,
{
    let dlat: i64 = if a.lat_micro >= b.lat_micro {
        a.lat_micro - b.lat_micro
    } else {
        b.lat_micro - a.lat_micro
    };
    let raw: i64 = if a.lon_micro >= b.lon_micro {
        a.lon_micro - b.lon_micro
    } else {
        b.lon_micro - a.lon_micro
    };
    let dlon: i64 = if raw > 180000000 {
        360000000 - raw
    } else {
        raw
    };
    let x: u128 = (dlat as u128) * 111319;
    let y: u128 = (dlon as u128) * 111319;
    assert(x <= 20037420000000 && y <= 20037420000000);
    assert(x * x <= 20037420000000 * 20037420000000) by (nonlinear_arith)
        requires x <= 20037420000000
    ;
    assert(y * y <= 20037420000000 * 20037420000000) by (nonlinear_arith)
        requires y <= 20037420000000
    ;
    let s: u128 = x * x + y * y;
    let r = isqrt128(s);
    let d0 = (r / 1000) as u64;
    proof {
        assert(s == dist_sq_micrometers(*a, *b));
        assert(r * r <= s);
        assert(r <= 28400000000000) by (nonlinear_arith)
            requires
                r * r <= s,
                s <= 20037420000000 * 20037420000000 + 20037420000000 * 20037420000000,
                r >= 0,
        ;
    }
    if d0 > HALF_CIRCUMFERENCE_MM {
        HALF_CIRCUMFERENCE_MM
    } else {
        d0
    }
}

/// Polynomial approximation of the arc tangent: `t` is a tangent scaled by
/// 1000 (in `[0, 1000]`), the result is in millidegrees.
pub open spec fn spec_atan_mdeg(t: int) -> int {
    45 * t + (157 * t * (1000 - t)) / 10000
}

/// `spec_atan_mdeg` stays within `[0, 61000]` on its domain.
pub proof fn lemma_atan_range(t: int)
    requires
        0 <= t <= 1000,
    ensures
        0 <= spec_atan_mdeg(t) <= 61000,
{
    assert(0 <= 157 * t * (1000 - t) <= 157000000) by (nonlinear_arith)
        requires 0 <= t <= 1000
    ;
}

/// A signed longitude difference folded into `[-180, 180]` degrees: the
/// shorter way around the sphere.
pub open spec fn wrap_lon_delta(d: int) -> int {
    if d > 180000000 {
        d - 360000000
    } else if d < -180000000 {
        d + 360000000
    } else {
        d
    }
}

/// Initial bearing from `a` to `b`, in millidegrees clockwise from north,
/// in `[0, 360000)`, with the eastward component taken the shorter way around
/// the sphere; two equal coordinates give bearing 0.
pub open spec fn spec_bearing_mdeg(a: Coordinate, b: Coordinate) -> int {
    let dy = b.lat_micro - a.lat_micro;
    let dx = wrap_lon_delta(b.lon_micro - a.lon_micro);
    let ady = abs_int(dy);
    let adx = abs_int(dx);
    if adx == 0 && ady == 0 {
        0
    } else {
        let theta = if adx <= ady {
            spec_atan_mdeg(1000 * adx / ady)
        } else {
            90000 - spec_atan_mdeg(1000 * ady / adx)
        };
        let q = if dy >= 0 && dx >= 0 {
            theta
        } else if dy < 0 && dx >= 0 {
            180000 - theta
        } else if dy < 0 {
            180000 + theta
        } else {
            360000 - theta
        };
        if q == 360000 {
            0
        } else {
            q
        }
    }
}

/// Bearing from `a` to `b` in millidegrees clockwise from north.
pub fn bearing(a: &Coordinate, b: &Coordinate) -> (r: u64)
    requires
        a.valid(),
        b.valid(),
    ensures
        r == spec_bearing_mdeg(*a, *b),
        r < 360000,
{
    let dy_neg: bool = b.lat_micro < a.lat_micro;
    let mut dxw: i64 = b.lon_micro - a.lon_micro;
    if dxw > 180000000 {
        dxw = dxw - 360000000;
    } else if dxw < -180000000 {
        dxw = dxw + 360000000;
    }
    let dx_neg: bool = dxw < 0;
    let ady: u64 = if dy_neg {
        (a.lat_micro - b.lat_micro) as u64
    } else {
        (b.lat_micro - a.lat_micro) as u64
    };
    let adx: u64 = if dx_neg {
        (-dxw) as u64
    } else {
        dxw as u64
    };
    if adx == 0 && ady == 0 {
        return 0;
    }
    let theta: u64 = if adx <= ady {
        let t = 1000 * adx / ady;
        proof {
            assert(1000 * (adx as int) / (ady as int) <= 1000) by (nonlinear_arith)
                requires adx as int <= ady as int, 0 < ady as int
            ;
            lemma_atan_range(t as int);
        }
        45 * t + (157 * t * (1000 - t)) / 10000
    } else {
        let t = 1000 * ady / adx;
        proof {
            assert(1000 * (ady as int) / (adx as int) <= 1000) by (nonlinear_arith)
                requires ady as int <= adx as int, 0 < adx as int
            ;
            lemma_atan_range(t as int);
        }
        90000 - (45 * t + (157 * t * (1000 - t)) / 10000)
    };
    let q: u64 = if !dy_neg && !dx_neg {
        theta
    } else if dy_neg && !dx_neg {
        180000 - theta
    } else if dy_neg {
        180000 + theta
    } else {
        360000 - theta
    };
    if q == 360000 {
        0
    } else {
        q
    }
}

/// Bhaskara's rational approximation of the sine on `[0, 180000]`
/// millidegrees, scaled by 1000.
pub open spec fn spec_sin_half_milli(x: int) -> int {
    4000 * (x * (180000 - x)) / (40500000000 - x * (180000 - x))
}

/// The sine approximation stays within `[0, 1000]` on its domain.
pub proof fn lemma_sin_half_range(x: int)
    requires
        0 <= x <= 180000,
    ensures
        0 <= spec_sin_half_milli(x) <= 1000,
{
    let p = x * (180000 - x);
    assert(0 <= p <= 8100000000) by (nonlinear_arith)
        requires 0 <= x <= 180000, p == x * (180000 - x)
    ;
    assert(4000 * p / (40500000000 - p) <= 1000) by (nonlinear_arith)
        requires 0 <= p <= 8100000000
    ;
    assert(4000 * p / (40500000000 - p) >= 0) by (nonlinear_arith)
        requires 0 <= p <= 8100000000
    ;
}

/// Sine of a bearing in `[0, 360000]` millidegrees, scaled by 1000, signed.
pub open spec fn spec_sin_milli(x: int) -> int {
    if x <= 180000 {
        spec_sin_half_milli(x)
    } else {
        -spec_sin_half_milli(x - 180000)
    }
}

/// Cosine of a bearing in `[0, 360000]` millidegrees, scaled by 1000, signed.
pub open spec fn spec_cos_milli(x: int) -> int {
    if x <= 90000 {
        spec_sin_half_milli(90000 - x)
    } else if x <= 270000 {
        -spec_sin_half_milli(x - 90000)
    } else {
        spec_sin_half_milli(x - 270000)
    }
}

/// Bhaskara's sine approximation on `[0, 180000]` millidegrees, scaled by 1000.
pub fn sin_half_milli(x: u64) -> (r: u64)
    requires
        x <= 180000,
    ensures
        r == spec_sin_half_milli(x as int),
        r <= 1000,
{
    proof {
        lemma_sin_half_range(x as int);
        assert(x * (180000 - x) <= 8100000000) by (nonlinear_arith)
            requires 0 <= x <= 180000
        ;
    }
    let p: u64 = x * (180000 - x);
    4000 * p / (40500000000 - p)
}

/// Signed sine of a bearing, scaled by 1000.
pub fn sin_milli(x: u64) -> (r: i64)
    requires
        x <= 360000,
    ensures
        r == spec_sin_milli(x as int),
        -1000 <= r <= 1000,
{
    if x <= 180000 {
        sin_half_milli(x) as i64
    } else {
        -(sin_half_milli(x - 180000) as i64)
    }
}

/// Signed cosine of a bearing, scaled by 1000.
pub fn cos_milli(x: u64) -> (r: i64)
    requires
        x <= 360000,
    ensures
        r == spec_cos_milli(x as int),
        -1000 <= r <= 1000,
{
    if x <= 90000 {
        sin_half_milli(90000 - x) as i64
    } else if x <= 270000 {
        -(sin_half_milli(x - 90000) as i64)
    } else {
        sin_half_milli(x - 270000) as i64
    }
}

/// Longitude wrapped into `[-180_000_000, 180_000_000]` microdegrees.
pub open spec fn spec_normalize_lon(l: int) -> int {
    if l >= 0 {
        let m = l % 360000000;
        if m > 180000000 {
            m - 360000000
        } else {
            m
        }
    } else {
        let m = (-l) % 360000000;
        if m > 180000000 {
            360000000 - m
        } else {
            -m
        }
    }
}

/// Wraps a longitude in microdegrees into `[-180_000_000, 180_000_000]`.
/// Every value but the smallest machine integer (whose magnitude has no
/// `i64` representation) is accepted.
pub fn normalize_longitude(l: i64) -> (r: i64)
    requires
        l > i64::MIN,
    ensures
        r == spec_normalize_lon(l as int),
        -LON_LIMIT_MICRO <= r <= LON_LIMIT_MICRO,
{
    if l >= 0 {
        let m = ((l as u64) % 360000000) as i64;
        if m > 180000000 {
            m - 360000000
        } else {
            m
        }
    } else {
        let m = (((-l) as u64) % 360000000) as i64;
        if m > 180000000 {
            360000000 - m
        } else {
            -m
        }
    }
}

/// Latitude clamped into `[-90_000_000, 90_000_000]` microdegrees.
pub open spec fn spec_clamp_lat(l: int) -> int {
    if l < -90000000 {
        -90000000
    } else if l > 90000000 {
        90000000
    } else {
        l
    }
}

/// Clamps a latitude in microdegrees into `[-90_000_000, 90_000_000]`.
pub fn normalize_latitude(l: i64) -> (r: i64)
    ensures
        r == spec_clamp_lat(l as int),
        -LAT_LIMIT_MICRO <= r <= LAT_LIMIT_MICRO,
{
    if l < -90000000 {
        -90000000
    } else if l > 90000000 {
        90000000
    } else {
        l
    }
}

/// The point reached from `origin` by travelling `dist_mm` millimeters on the
/// initial bearing `bearing_mdeg`, on the planar approximation: latitude is
/// clamped at the poles, longitude wraps at the antimeridian.
pub open spec fn spec_destination(origin: Coordinate, bearing_mdeg: int, dist_mm: int) -> Coordinate {
    let bn = bearing_mdeg % 360000;
    let c = spec_cos_milli(bn);
    let s = spec_sin_milli(bn);
    let dlat = if c >= 0 {
        dist_mm * c / 111319
    } else {
        -(dist_mm * (-c) / 111319)
    };
    let lat_mdeg = abs_int(origin.lat_micro as int) / 1000;
    let coslat = spec_sin_half_milli(90000 - lat_mdeg);
    let scale = if coslat == 0 { 1 } else { coslat };
    let dlon = if s >= 0 {
        dist_mm * s / 111319 * 1000 / scale
    } else {
        -(dist_mm * (-s) / 111319 * 1000 / scale)
    };
    Coordinate {
        lat_micro: spec_clamp_lat(origin.lat_micro + dlat) as i64,
        lon_micro: spec_normalize_lon(origin.lon_micro + dlon) as i64,
    }
}

/// Destination point from an origin, an initial bearing in millidegrees and a
/// travel distance in millimeters.
pub fn destination(origin: &Coordinate, bearing_mdeg: u64, dist_mm: u64) -> (r: Coordinate)
    requires
        origin.valid(),
        dist_mm <= 100_000_000_000_000,
    ensures
        r == spec_destination(*origin, bearing_mdeg as int, dist_mm as int),
        r.valid(),
{
    let bn: u64 = bearing_mdeg % 360000;
    let c: i64 = cos_milli(bn);
    let s: i64 = sin_milli(bn);
    proof {
        assert(dist_mm * 1000 <= 100000000000000 * 1000) by (nonlinear_arith)
            requires dist_mm <= 100000000000000
        ;
    }
    let cm: u64 = if c >= 0 { c as u64 } else { (-c) as u64 };
    proof {
        assert(dist_mm * cm <= dist_mm * 1000) by (nonlinear_arith)
            requires cm <= 1000
        ;
    }
    let dlat_mag: u64 = dist_mm * cm / 111319;
    let dlat: i64 = if c >= 0 { dlat_mag as i64 } else { -(dlat_mag as i64) };
    let lat_mag: u64 = if origin.lat_micro >= 0 {
        origin.lat_micro as u64
    } else {
        (-origin.lat_micro) as u64
    };
    let lat_mdeg: u64 = lat_mag / 1000;
    assert(lat_mdeg <= 90000);
    let coslat: u64 = sin_half_milli(90000 - lat_mdeg);
    let scale: u64 = if coslat == 0 { 1 } else { coslat };
    let sm: u64 = if s >= 0 { s as u64 } else { (-s) as u64 };
    proof {
        assert(dist_mm * sm <= dist_mm * 1000) by (nonlinear_arith)
            requires sm <= 1000
        ;
        assert(dist_mm * sm / 111319 * 1000 <= dist_mm * sm) by (nonlinear_arith)
            requires dist_mm * sm >= 0
        ;
    }
    let dlon_mag: u64 = dist_mm * sm / 111319 * 1000 / scale;
    let dlon: i64 = if s >= 0 { dlon_mag as i64 } else { -(dlon_mag as i64) };
    let lat = normalize_latitude(origin.lat_micro + dlat);
    let lon = normalize_longitude(origin.lon_micro + dlon);
    Coordinate { lat_micro: lat, lon_micro: lon }
}

/// A rectangular area given by its northeast and southwest corners.
#[derive(Clone, Copy, Debug, PartialEq, Eq, Structural)]
pub struct Bounds {
    pub northeast: Coordinate,
    pub southwest: Coordinate,
}

impl Bounds {
    /// Builds a bounds value from its two corners.
    pub fn new(northeast: Coordinate, southwest: Coordinate) -> (r: Bounds)
        ensures
            r.northeast == northeast,
            r.southwest == southwest,
    {
        Bounds { northeast, southwest }
    }

    /// Whether a coordinate lies inside the rectangle, borders included.
    pub fn contains(&self, coordinate: &Coordinate) -> (r: bool)
        ensures
            r == (coordinate.lat_micro <= self.northeast.lat_micro
                && coordinate.lat_micro >= self.southwest.lat_micro
                && coordinate.lon_micro <= self.northeast.lon_micro
                && coordinate.lon_micro >= self.southwest.lon_micro),
    {
        coordinate.lat_micro <= self.northeast.lat_micro
            && coordinate.lat_micro >= self.southwest.lat_micro
            && coordinate.lon_micro <= self.northeast.lon_micro
            && coordinate.lon_micro >= self.southwest.lon_micro
    }

    /// Midpoint of two microdegree components, rounded down.
    pub open spec fn spec_mid(a: int, b: int, shift: int) -> int {
        ((a + shift) + (b + shift)) / 2 - shift
    }

    /// Center of the rectangle, components rounded down.
    pub fn center(&self) -> (r: Coordinate)
        requires
            self.northeast.valid(),
            self.southwest.valid(),
        ensures
            r.lat_micro == Self::spec_mid(
                self.northeast.lat_micro as int,
                self.southwest.lat_micro as int,
                LAT_LIMIT_MICRO as int,
            ),
            r.lon_micro == Self::spec_mid(
                self.northeast.lon_micro as int,
                self.southwest.lon_micro as int,
                LON_LIMIT_MICRO as int,
            ),
            r.valid(),
    {
        let lat_a = (self.northeast.lat_micro + LAT_LIMIT_MICRO) as u64;
        let lat_b = (self.southwest.lat_micro + LAT_LIMIT_MICRO) as u64;
        let lon_a = (self.northeast.lon_micro + LON_LIMIT_MICRO) as u64;
        let lon_b = (self.southwest.lon_micro + LON_LIMIT_MICRO) as u64;
        let lat = ((lat_a + lat_b) / 2) as i64 - LAT_LIMIT_MICRO;
        let lon = ((lon_a + lon_b) / 2) as i64 - LON_LIMIT_MICRO;
        Coordinate { lat_micro: lat, lon_micro: lon }
    }
}

/// A rectangular area given by its four edges, in microdegrees.
#[derive(Clone, Copy, Debug, PartialEq, Eq, Structural)]
pub struct BoundingBox {
    pub north: i64,
    pub south: i64,
    pub east: i64,
    pub west: i64,
}

impl BoundingBox {
    /// The box is non-degenerate: north above south, east beyond west.
    pub open spec fn well_formed(self) -> bool {
        self.north > self.south && self.east > self.west
    }

    /// Builds a box, rejecting inverted or empty extents.
    pub fn new(north: i64, south: i64, east: i64, west: i64) -> (r: Result<BoundingBox, MapsError>)
        ensures
            r is Ok <==> (north > south && east > west),
            r matches Ok(b) ==> b == (BoundingBox { north, south, east, west })
                && b.well_formed(),
            r is Err ==> r == Err::<BoundingBox, MapsError>(MapsError::OutOfRange),
    {
        if north <= south {
            Err(MapsError::OutOfRange)
        } else if east <= west {
            Err(MapsError::OutOfRange)
        } else {
            Ok(BoundingBox { north, south, east, west })
        }
    }

    /// Whether a coordinate lies inside the box, borders included.
    pub fn contains(&self, coord: &Coordinate) -> (r: bool)
        ensures
            r == (coord.lat_micro <= self.north && coord.lat_micro >= self.south
                && coord.lon_micro <= self.east && coord.lon_micro >= self.west),
    {
        coord.lat_micro <= self.north && coord.lat_micro >= self.south
            && coord.lon_micro <= self.east && coord.lon_micro >= self.west
    }

    /// Center of the box, components rounded down.
    pub fn center(&self) -> (r: Coordinate)
        requires
            -LAT_LIMIT_MICRO <= self.south <= self.north <= LAT_LIMIT_MICRO,
            -LON_LIMIT_MICRO <= self.west <= self.east <= LON_LIMIT_MICRO,
        ensures
            r.lat_micro == Bounds::spec_mid(self.north as int, self.south as int, LAT_LIMIT_MICRO as int),
            r.lon_micro == Bounds::spec_mid(self.east as int, self.west as int, LON_LIMIT_MICRO as int),
            r.valid(),
    {
        let lat_a = (self.north + LAT_LIMIT_MICRO) as u64;
        let lat_b = (self.south + LAT_LIMIT_MICRO) as u64;
        let lon_a = (self.east + LON_LIMIT_MICRO) as u64;
        let lon_b = (self.west + LON_LIMIT_MICRO) as u64;
        let lat = ((lat_a + lat_b) / 2) as i64 - LAT_LIMIT_MICRO;
        let lon = ((lon_a + lon_b) / 2) as i64 - LON_LIMIT_MICRO;
        Coordinate { lat_micro: lat, lon_micro: lon }
    }

    /// Grows the box so that it contains the given coordinate.
    pub fn expand(&mut self, coord: &Coordinate)
        ensures
            final(self).north == if coord.lat_micro > old(self).north { coord.lat_micro as int } else { old(self).north as int },
            final(self).south == if coord.lat_micro < old(self).south { coord.lat_micro as int } else { old(self).south as int },
            final(self).east == if coord.lon_micro > old(self).east { coord.lon_micro as int } else { old(self).east as int },
            final(self).west == if coord.lon_micro < old(self).west { coord.lon_micro as int } else { old(self).west as int },
    {
        if coord.lat_micro > self.north {
            self.north = coord.lat_micro;
        }
        if coord.lat_micro < self.south {
            self.south = coord.lat_micro;
        }
        if coord.lon_micro > self.east {
            self.east = coord.lon_micro;
        }
        if coord.lon_micro < self.west {
            self.west = coord.lon_micro;
        }
    }
}

} // verus!
