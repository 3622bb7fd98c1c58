//! Geodesic primitives over integer microdegree coordinates.
//!
//! A coordinate is stored as a signed count of microdegrees (millionths of a
//! degree), so equality of two points is exactly equality of the coordinates
//! rounded to six decimal places.  Distances are measured with a small-angle
//! spherical approximation: one microdegree of latitude is [`UM_PER_UDEG`]
//! micrometers of arc, and a microdegree of longitude is scaled by a
//! fixed-point cosine of the midpoint latitude.  All arithmetic is exact
//! integer arithmetic, so every distance claim in a contract is a statement
//! about the formula itself.

use vstd::prelude::*;

verus! {

/// Largest legal latitude, in microdegrees (the poles).
pub const LAT_LIMIT: i64 = 90_000_000;

/// Largest legal longitude, in microdegrees (the antimeridian).
pub const LON_LIMIT: i64 = 180_000_000;

/// Micrometers of arc per microdegree of latitude on the spherical Earth.
pub const UM_PER_UDEG: i64 = 111_195;

/// Fixed-point scale of the cosine approximation: `COS_SCALE` stands for 1.0.
pub const COS_SCALE: i64 = 1_000_000;

/// Largest radius, in meters, that the distance arithmetic accepts.
pub const MAX_RADIUS_M: u64 = 1_000_000_000;

/// One input location or candidate center, in microdegrees.
#[derive(Clone, Copy, PartialEq, Eq, Structural, Hash, Debug)]
pub struct Point {
    pub lat: i64,
    pub lon: i64,
}

/// Absolute value over mathematical integers.
pub open spec fn iabs(x: int) -> int {
    if x < 0 {
        -x
    } else {
        x
    }
}

impl Point {
    /// A point is valid when it lies in the WGS84 coordinate ranges.
    pub open spec fn is_valid(self) -> bool {
        -LAT_LIMIT <= self.lat <= LAT_LIMIT && -LON_LIMIT <= self.lon <= LON_LIMIT
    }
}

/// Every coordinate pair of a valid point packs into one distinct `u64` key.
pub open spec fn pack_spec(p: Point) -> int {
    (p.lat + LAT_LIMIT) * 400_000_000 + (p.lon + LON_LIMIT)
}

/// Packs a valid point into a single hash key.
pub fn pack(p: Point) -> (k: u64)
    requires
        p.is_valid(),
    ensures
        k == pack_spec(p),
{
    let lat_off: u64 = (p.lat + LAT_LIMIT) as u64;
    let lon_off: u64 = (p.lon + LON_LIMIT) as u64;
    lat_off * 400_000_000 + lon_off
}

/// Packing is injective on valid points: equal keys mean equal points.
pub proof fn lemma_pack_injective(a: Point, b: Point)
    requires
        a.is_valid(),
        b.is_valid(),
        pack_spec(a) == pack_spec(b),
    ensures
        a == b,
{
    let la = a.lat + LAT_LIMIT;
    let lb = b.lat + LAT_LIMIT;
    let oa = a.lon + LON_LIMIT;
    let ob = b.lon + LON_LIMIT;
    assert(la == lb && oa == ob) by (nonlinear_arith)
        requires
            0 <= la <= 180_000_000,
            0 <= lb <= 180_000_000,
            0 <= oa < 400_000_000,
            0 <= ob < 400_000_000,
            la * 400_000_000 + oa == lb * 400_000_000 + ob,
    ;
}

/// Fixed-point cosine of a latitude given in microdegrees, scaled by
/// [`COS_SCALE`].  The angle is converted to nanoradians and a truncated
/// sixth-order polynomial is evaluated; the result is clamped to
/// `[0, COS_SCALE]`.
pub open spec fn cos_scaled_spec(lat_udeg: int) -> int {
    let x = iabs(lat_udeg) * 17_453_293 / 1_000_000;
    let q = x * x / 1_000_000_000;
    let q2 = q * q / 1_000_000_000;
    let q3 = q2 * q / 1_000_000_000;
    let c = 1_000_000_000 + q2 / 24 - q / 2 - q3 / 720;
    if c <= 0 {
        0
    } else if c / 1000 > 1_000_000 {
        1_000_000
    } else {
        c / 1000
    }
}

/// Evaluates the fixed-point cosine of a latitude.
pub fn cos_scaled(lat_udeg: i64) -> (c: i64)
    requires
        -LAT_LIMIT <= lat_udeg <= LAT_LIMIT,
    ensures
        c == cos_scaled_spec(lat_udeg as int),
        0 <= c <= COS_SCALE,
{
    let a: u128 = if lat_udeg < 0 {
        (-lat_udeg) as u128
    } else {
        lat_udeg as u128
    };
    let x: u128 = a * 17_453_293 / 1_000_000;
    assert(x <= 1_570_796_400) by (nonlinear_arith)
        requires
            a <= 90_000_000,
            x == a * 17_453_293 / 1_000_000,
    ;
    assert(x * x <= 1_570_796_400 * 1_570_796_400) by (nonlinear_arith)
        requires
            x <= 1_570_796_400,
    ;
    let q: u128 = x * x / 1_000_000_000;
    assert(q <= 2_467_401_530) by (nonlinear_arith)
        requires
            x <= 1_570_796_400,
            q == x * x / 1_000_000_000,
    ;
    assert(q * q <= 2_467_401_530 * 2_467_401_530) by (nonlinear_arith)
        requires
            q <= 2_467_401_530,
    ;
    let q2: u128 = q * q / 1_000_000_000;
    assert(q2 <= 6_088_070_316) by (nonlinear_arith)
        requires
            q <= 2_467_401_530,
            q2 == q * q / 1_000_000_000,
    ;
    assert(q2 * q <= 6_088_070_316 * 2_467_401_530) by (nonlinear_arith)
        requires
            q <= 2_467_401_530,
            q2 <= 6_088_070_316,
    ;
    let q3: u128 = q2 * q / 1_000_000_000;
    let pos: u128 = 1_000_000_000 + q2 / 24;
    let neg: u128 = q / 2 + q3 / 720;
    if neg >= pos {
        0
    } else {
        let c: u128 = pos - neg;
        let s: u128 = c / 1000;
        if s > 1_000_000 {
            1_000_000
        } else {
            s as i64
        }
    }
}

/// Squared distance between two valid points, in square micrometers.
///
/// The latitude difference is converted directly to micrometers of arc; the
/// longitude difference is additionally scaled by the fixed-point cosine of
/// the midpoint latitude.  The formula is symmetric in its arguments.
pub open spec fn dist_sq_spec(a: Point, b: Point) -> int {
    let dlat_um = iabs(a.lat - b.lat) * UM_PER_UDEG;
    let cf = cos_scaled_spec(iabs(a.lat + b.lat) / 2);
    let dlon_um = iabs(a.lon - b.lon) * UM_PER_UDEG * cf / 1_000_000;
    dlat_um * dlat_um + dlon_um * dlon_um
}

/// Computes the squared distance between two valid points, in square
/// micrometers.
pub fn dist_sq(a: Point, b: Point) -> (d: u128)
    requires
        a.is_valid(),
        b.is_valid(),
    ensures
        d == dist_sq_spec(a, b),
{
    let dlat: u128 = if a.lat >= b.lat {
        (a.lat - b.lat) as u128
    } else {
        (b.lat - a.lat) as u128
    };
    let dlon: u128 = if a.lon >= b.lon {
        (a.lon - b.lon) as u128
    } else {
        (b.lon - a.lon) as u128
    };
    let lat_sum: i64 = a.lat + b.lat;
    let mid: i64 = if lat_sum < 0 {
        ((-lat_sum) as u64 / 2) as i64
    } else {
        (lat_sum as u64 / 2) as i64
    };
    let cf: i64 = cos_scaled(mid);
    let dlat_um: u128 = dlat * 111_195;
    let t: u128 = dlon * 111_195;
    assert(t * (cf as u128) <= 40_030_200_000_000 * 1_000_000) by (nonlinear_arith)
        requires
            t <= 40_030_200_000_000,
            0 <= cf <= 1_000_000,
    ;
    let dlon_um: u128 = t * (cf as u128) / 1_000_000;
    assert(dlon_um <= 40_030_200_000_000) by (nonlinear_arith)
        requires
            t * (cf as u128) <= 40_030_200_000_000 * 1_000_000,
            dlon_um == t * (cf as u128) / 1_000_000,
    ;
    assert(dlat_um * dlat_um <= 40_030_200_000_000 * 40_030_200_000_000) by (nonlinear_arith)
        requires
            dlat_um <= 40_030_200_000_000,
    ;
    assert(dlon_um * dlon_um <= 40_030_200_000_000 * 40_030_200_000_000) by (nonlinear_arith)
        requires
            dlon_um <= 40_030_200_000_000,
    ;
    dlat_um * dlat_um + dlon_um * dlon_um
}

/// A point is at distance zero from itself.
pub proof fn lemma_dist_self(p: Point)
    requires
        p.is_valid(),
    ensures
        dist_sq_spec(p, p) == 0,
{
    let cf = cos_scaled_spec(iabs(p.lat + p.lat) / 2);
    assert(iabs(p.lat - p.lat) * UM_PER_UDEG == 0);
    assert(iabs(p.lon - p.lon) * UM_PER_UDEG * cf == 0) by (nonlinear_arith)
        requires
            iabs(p.lon - p.lon) == 0,
    ;
}

/// Whether two valid points lie within `r_um` micrometers of each other.
pub open spec fn within_spec(a: Point, b: Point, r_um: int) -> bool {
    dist_sq_spec(a, b) <= r_um * r_um
}

/// Tests whether two valid points lie within `r_um` micrometers.
pub fn within(a: Point, b: Point, r_um: u64) -> (w: bool)
    requires
        a.is_valid(),
        b.is_valid(),
    ensures
        w == within_spec(a, b, r_um as int),
{
    let d: u128 = dist_sq(a, b);
    let rr: u128 = r_um as u128;
    assert(rr * rr <= 0xffff_ffff_ffff_ffff * 0xffff_ffff_ffff_ffff) by (nonlinear_arith)
        requires
            rr <= 0xffff_ffff_ffff_ffff,
    ;
    d <= rr * rr
}

/// Clamps `x` into `[lo, hi]`.
pub open spec fn clamp_spec(x: int, lo: int, hi: int) -> int {
    if x < lo {
        lo
    } else if x > hi {
        hi
    } else {
        x
    }
}

/// The point at parameter `num / 8` on the straight coordinate segment from
/// `a` to `b`, offset by a wiggle and clamped into the valid ranges.  The
/// magnitude along each axis is `|difference| * num / 8`, rounded toward
/// zero.
pub open spec fn interpolate_spec(a: Point, b: Point, num: int, wl: int, wo: int) -> Point {
    let mlat = iabs(b.lat - a.lat) * num / 8;
    let lat0 = if b.lat >= a.lat {
        a.lat + mlat
    } else {
        a.lat - mlat
    };
    let mlon = iabs(b.lon - a.lon) * num / 8;
    let lon0 = if b.lon >= a.lon {
        a.lon + mlon
    } else {
        a.lon - mlon
    };
    Point {
        lat: clamp_spec(lat0 + wl, -LAT_LIMIT as int, LAT_LIMIT as int) as i64,
        lon: clamp_spec(lon0 + wo, -LON_LIMIT as int, LON_LIMIT as int) as i64,
    }
}

/// Interpolating from a point to itself with no wiggle returns the point.
pub proof fn lemma_interpolate_self(p: Point, num: int)
    requires
        p.is_valid(),
        0 <= num <= 7,
    ensures
        interpolate_spec(p, p, num, 0, 0) == p,
{
    assert(iabs(p.lat - p.lat) * num == 0) by (nonlinear_arith);
    assert(iabs(p.lon - p.lon) * num == 0) by (nonlinear_arith);
}

/// Computes the interpolated candidate between two valid points.
pub fn interpolate(a: Point, b: Point, num: u8, wl: i64, wo: i64) -> (r: Point)
    requires
        a.is_valid(),
        b.is_valid(),
        num <= 7,
        -1000 <= wl <= 1000,
        -1000 <= wo <= 1000,
    ensures
        r == interpolate_spec(a, b, num as int, wl as int, wo as int),
        r.is_valid(),
{
    let dlat: u64 = if b.lat >= a.lat {
        (b.lat - a.lat) as u64
    } else {
        (a.lat - b.lat) as u64
    };
    assert(dlat * (num as u64) <= 360_000_000 * 7) by (nonlinear_arith)
        requires
            dlat <= 360_000_000,
            num <= 7,
    ;
    let mlat: i64 = (dlat * (num as u64) / 8) as i64;
    let lat0: i64 = if b.lat >= a.lat {
        a.lat + mlat
    } else {
        a.lat - mlat
    };
    let dlon: u64 = if b.lon >= a.lon {
        (b.lon - a.lon) as u64
    } else {
        (a.lon - b.lon) as u64
    };
    assert(dlon * (num as u64) <= 360_000_000 * 7) by (nonlinear_arith)
        requires
            dlon <= 360_000_000,
            num <= 7,
    ;
    let mlon: i64 = (dlon * (num as u64) / 8) as i64;
    let lon0: i64 = if b.lon >= a.lon {
        a.lon + mlon
    } else {
        a.lon - mlon
    };
    let lat1: i64 = lat0 + wl;
    let lon1: i64 = lon0 + wo;
    let lat: i64 = if lat1 < -LAT_LIMIT {
        -LAT_LIMIT
    } else if lat1 > LAT_LIMIT {
        LAT_LIMIT
    } else {
        lat1
    };
    let lon: i64 = if lon1 < -LON_LIMIT {
        -LON_LIMIT
    } else if lon1 > LON_LIMIT {
        LON_LIMIT
    } else {
        lon1
    };
    Point { lat, lon }
}

/// The bounding box of a point list as `(min_lon, min_lat, max_lon,
/// max_lat)`, or `None` when the list is empty.  Every listed point lies
/// inside the box and each bound is attained.
pub fn bbox(points: &Vec<Point>) -> (r: Option<(i64, i64, i64, i64)>)
    ensures
        match r {
            Option::None => points@.len() == 0,
            Option::Some(b) => {
                &&& points@.len() > 0
                &&& forall|i: int|
                    0 <= i < points@.len() ==> b.0 <= (#[trigger] points@[i]).lon <= b.2
                        && b.1 <= points@[i].lat <= b.3
                &&& exists|i: int| 0 <= i < points@.len() && (#[trigger] points@[i]).lon == b.0
                &&& exists|i: int| 0 <= i < points@.len() && (#[trigger] points@[i]).lon == b.2
                &&& exists|i: int| 0 <= i < points@.len() && (#[trigger] points@[i]).lat == b.1
                &&& exists|i: int| 0 <= i < points@.len() && (#[trigger] points@[i]).lat == b.3
            },
        },
{
    if points.len() == 0 {
        return Option::None;
    }
    let first = points[0];
    let mut min_lon: i64 = first.lon;
    let mut max_lon: i64 = first.lon;
    let mut min_lat: i64 = first.lat;
    let mut max_lat: i64 = first.lat;
    let n: usize = points.len();
    for k in 1..n
        invariant
            n == points@.len(),
            n > 0,
            forall|i: int|
                0 <= i < k ==> min_lon <= (#[trigger] points@[i]).lon <= max_lon && min_lat
                    <= points@[i].lat <= max_lat,
            exists|i: int| 0 <= i < k && (#[trigger] points@[i]).lon == min_lon,
            exists|i: int| 0 <= i < k && (#[trigger] points@[i]).lon == max_lon,
            exists|i: int| 0 <= i < k && (#[trigger] points@[i]).lat == min_lat,
            exists|i: int| 0 <= i < k && (#[trigger] points@[i]).lat == max_lat,
    {
        let p = points[k];
        if p.lon < min_lon {
            min_lon = p.lon;
        }
        if p.lon > max_lon {
            max_lon = p.lon;
        }
        if p.lat < min_lat {
            min_lat = p.lat;
        }
        if p.lat > max_lat {
            max_lat = p.lat;
        }
    }
    Option::Some((min_lon, min_lat, max_lon, max_lat))
}

/// A point within `r_um` of a center differs from it in latitude by at most
/// `r_um / UM_PER_UDEG` microdegrees: the latitude term alone already
/// accounts for `iabs(lat difference) * UM_PER_UDEG` micrometers.
pub proof fn lemma_lat_band(a: Point, b: Point, r_um: int)
    requires
        a.is_valid(),
        b.is_valid(),
        0 <= r_um,
        within_spec(a, b, r_um),
    ensures
        iabs(a.lat - b.lat) <= r_um / (UM_PER_UDEG as int),
{
    let dl = iabs(a.lat - b.lat);
    let dlat_um = dl * UM_PER_UDEG;
    let cf = cos_scaled_spec(iabs(a.lat + b.lat) / 2);
    let dlon_um = iabs(a.lon - b.lon) * UM_PER_UDEG * cf / 1_000_000;
    assert(dlon_um * dlon_um >= 0) by (nonlinear_arith);
    assert(dlat_um * dlat_um <= r_um * r_um);
    assert(dlat_um <= r_um) by (nonlinear_arith)
        requires
            dlat_um >= 0,
            r_um >= 0,
            dlat_um * dlat_um <= r_um * r_um,
    ;
    assert(dl <= r_um / 111_195) by (nonlinear_arith)
        requires
            dl >= 0,
            dl * 111_195 <= r_um,
    ;
}

} // verus!
