//! The geospatial origin resolver.
//!
//! A scene declares its spatial reference as `<SCHEME>:<params>`. An
//! `ENU` declaration carries the origin directly (stored as
//! latitude,longitude — callers must not transpose); an `EPSG`
//! declaration and any other text (a bare WKT description) need the
//! external coordinate-reference-system engine, which rewrites a point
//! in place to longitude/latitude. The library decides which call to
//! make and folds the call's outcome back into a resolved origin; the
//! engine itself runs outside the library. Failures never abort a run:
//! they resolve to the zero origin.
//!
//! Angles are fixed-point micro-degrees, local offsets micro-meters.

use crate::text::decimal_micro_value;
use crate::text::digits_value;
use crate::text::find_first;
use crate::text::int_part;
use crate::text::int_value;
use crate::text::is_plain_decimal;
use crate::text::is_plain_int;
use crate::text::parse_decimal_micro;
use crate::text::parse_plain_i32;
use crate::text::sign_stripped;
use crate::text::split_fields;
use crate::text::split_on_commas;
use crate::text::B_COLON;
use crate::text::MAX_INT_PART;
use crate::volume::Point3;
use vstd::prelude::*;

verus! {

/// A resolved geographic origin: longitude and latitude in
/// micro-degrees, an optional explicit height in micro-meters, and the
/// local east-north-up offset when one was declared.
#[derive(Clone, Copy, PartialEq, Eq, Structural, Debug)]
pub struct GeoOrigin {
    pub longitude: i64,
    pub latitude: i64,
    pub height: Option<i64>,
    pub enu_offset: Option<Point3>,
}

impl GeoOrigin {
    pub open spec fn spec_zero() -> GeoOrigin {
        GeoOrigin { longitude: 0, latitude: 0, height: None, enu_offset: None }
    }

    /// The fallback origin of a failed resolution.
    pub fn zero() -> (r: GeoOrigin)
        ensures
            r == GeoOrigin::spec_zero(),
    {
        GeoOrigin { longitude: 0, latitude: 0, height: None, enu_offset: None }
    }
}

/// What the declared spatial reference asks for: an origin read
/// directly from an `ENU` declaration, a conversion through the
/// external engine, or nothing usable.
#[derive(Debug)]
pub enum OriginRequest {
    Direct { longitude: i64, latitude: i64, offset: Option<Point3> },
    ConvertEpsg { code: i32, point: Vec<i64> },
    ConvertWkt { point: Vec<i64> },
    Invalid,
}

/// A well-formed decimal field whose value the library can hold.
pub open spec fn field_ok(f: Seq<u8>) -> bool {
    is_plain_decimal(f) && digits_value(int_part(f)) < MAX_INT_PART as int
}

pub open spec fn field_val(f: Seq<u8>) -> int {
    decimal_micro_value(f)
}

/// The bytes of the scheme name `ENU`.
pub open spec fn enu_name() -> Seq<u8> {
    seq![69u8, 78u8, 85u8]
}

/// The bytes of the scheme name `EPSG`.
pub open spec fn epsg_name() -> Seq<u8> {
    seq![69u8, 80u8, 83u8, 71u8]
}

pub open spec fn colon_at(s: Seq<u8>) -> int {
    find_first(s, B_COLON)
}

pub open spec fn scheme_is(s: Seq<u8>, name: Seq<u8>) -> bool {
    colon_at(s) >= 0 && s.subrange(0, colon_at(s)) == name
}

pub open spec fn params_of(s: Seq<u8>) -> Seq<u8> {
    s.subrange(colon_at(s) + 1, s.len() as int)
}

/// An `ENU` parameter list is usable when its first two fields (the
/// declared latitude, then longitude) are well-formed decimals.
pub open spec fn enu_params_ok(s: Seq<u8>) -> bool {
    let fs = split_fields(params_of(s));
    fs.len() >= 2 && field_ok(fs[0]) && field_ok(fs[1])
}

pub open spec fn enu_latitude(s: Seq<u8>) -> int {
    field_val(split_fields(params_of(s))[0])
}

pub open spec fn enu_longitude(s: Seq<u8>) -> int {
    field_val(split_fields(params_of(s))[1])
}

/// The declared origin-offset triple: present when the first two
/// fields parse; a third field gives the height and defaults to zero.
pub open spec fn spec_enu_offset(origin: Seq<u8>) -> Option<Point3> {
    let fs = split_fields(origin);
    if fs.len() >= 2 && field_ok(fs[0]) && field_ok(fs[1]) {
        Some(
            Point3 {
                x: field_val(fs[0]) as i64,
                y: field_val(fs[1]) as i64,
                z: if fs.len() >= 3 && field_ok(fs[2]) {
                    field_val(fs[2]) as i64
                } else {
                    0
                },
            },
        )
    } else {
        None
    }
}

/// A declared origin point for a conversion call: at least two
/// well-formed decimal fields.
pub open spec fn point_list_ok(origin: Seq<u8>) -> bool {
    let fs = split_fields(origin);
    fs.len() >= 2 && (forall|i: int| 0 <= i < fs.len() ==> field_ok(#[trigger] fs[i]))
}

pub open spec fn spec_point_list(origin: Seq<u8>) -> Seq<i64> {
    let fs = split_fields(origin);
    Seq::new(fs.len(), |i: int| field_val(fs[i]) as i64)
}

/// An `EPSG` parameter that names a code.
pub open spec fn epsg_code_ok(s: Seq<u8>) -> bool {
    is_plain_int(params_of(s)) && digits_value(sign_stripped(params_of(s))) <= i32::MAX as int
}

pub open spec fn epsg_code_val(s: Seq<u8>) -> int {
    int_value(params_of(s))
}

/// Parses the first two comma-separated fields of an `ENU` origin
/// offset; the third field, when present and well-formed, is the
/// offset height.
fn parse_enu_offset(origin: &[u8]) -> (r: Option<Point3>)
    ensures
        r == spec_enu_offset(origin@),
{
    let fields = split_on_commas(origin);
    proof {
        assert(fields.deep_view()[0] == fields@[0]@);
        assert(fields.deep_view().len() >= 2 ==> fields.deep_view()[1] == fields@[1]@);
    }
    if fields.len() < 2 {
        return None;
    }
    let x = parse_decimal_micro(fields[0].as_slice());
    let y = parse_decimal_micro(fields[1].as_slice());
    match (x, y) {
        (Some(xv), Some(yv)) => {
            let z: i64 = if fields.len() >= 3 {
                proof {
                    assert(fields.deep_view()[2] == fields@[2]@);
                }
                match parse_decimal_micro(fields[2].as_slice()) {
                    Some(zv) => zv,
                    None => 0,
                }
            } else {
                0
            };
            Some(Point3 { x: xv, y: yv, z })
        },
        _ => None,
    }
}

/// Parses a declared origin point: every field must be a well-formed
/// decimal and at least two must be present.
fn parse_point_list(origin: &[u8]) -> (r: Option<Vec<i64>>)
    ensures
        r is Some <==> point_list_ok(origin@),
        match r {
            Some(v) => v@ == spec_point_list(origin@),
            None => true,
        },
{
    let fields = split_on_commas(origin);
    if fields.len() < 2 {
        return None;
    }
    let mut out: Vec<i64> = Vec::new();
    let mut i: usize = 0;
    while i < fields.len()
        invariant
            i <= fields@.len(),
            fields.deep_view() == split_fields(origin@),
            fields@.len() == split_fields(origin@).len(),
            forall|j: int|
                0 <= j < i ==> field_ok(#[trigger] split_fields(origin@)[j]),
            out@.len() == i,
            forall|j: int|
                0 <= j < i ==> out@[j] == field_val(#[trigger] split_fields(origin@)[j]) as i64,
        decreases fields@.len() - i,
    {
        proof {
            assert(fields.deep_view()[i as int] == fields@[i as int]@);
        }
        match parse_decimal_micro(fields[i].as_slice()) {
            Some(v) => {
                out.push(v);
            },
            None => {
                assert(!field_ok(split_fields(origin@)[i as int]));
                return None;
            },
        }
        i = i + 1;
    }
    proof {
        assert(out@ =~= spec_point_list(origin@));
    }
    Some(out)
}

/// Decides what the declared spatial reference and origin ask of the
/// resolver.
///
/// `ENU:<lat>,<lon>` yields the origin directly together with any
/// declared local offset; `EPSG:<code>` yields a conversion request
/// through the external engine; any other declaration is forwarded as
/// WKT. A declaration whose numbers cannot be read is invalid, which
/// later resolves to the zero origin.
pub fn plan_origin(srs: &[u8], srs_origin: &[u8]) -> (r: OriginRequest)
    ensures
        scheme_is(srs@, enu_name()) && enu_params_ok(srs@) ==> (r matches
            OriginRequest::Direct { longitude, latitude, offset } && longitude == enu_longitude(
            srs@,
        ) as i64 && latitude == enu_latitude(srs@) as i64 && offset == spec_enu_offset(
            srs_origin@,
        )),
        scheme_is(srs@, enu_name()) && !enu_params_ok(srs@) ==> r is Invalid,
        scheme_is(srs@, epsg_name()) && epsg_code_ok(srs@) && point_list_ok(srs_origin@)
            ==> (r matches OriginRequest::ConvertEpsg { code, point } && code == epsg_code_val(
            srs@,
        ) as i32 && point@ == spec_point_list(srs_origin@)),
        scheme_is(srs@, epsg_name()) && !(epsg_code_ok(srs@) && point_list_ok(
            srs_origin@,
        )) ==> r is Invalid,
        !scheme_is(srs@, enu_name()) && !scheme_is(srs@, epsg_name())
            && point_list_ok(srs_origin@) ==> (r matches OriginRequest::ConvertWkt { point }
            && point@ == spec_point_list(srs_origin@)),
        !scheme_is(srs@, enu_name()) && !scheme_is(srs@, epsg_name())
            && !point_list_ok(srs_origin@) ==> r is Invalid,
{
    let colon = crate::text::find_byte_from(srs, 0, B_COLON);
    proof {
        match colon {
            Some(c) => {
                crate::text::lemma_find_first_here(srs@, B_COLON, c as int);
            },
            None => {
                crate::text::lemma_find_first_absent(srs@, B_COLON);
            },
        }
    }
    match colon {
        Some(c) => {
            let n = srs.len();
            let mut scheme: Vec<u8> = Vec::new();
            let mut params: Vec<u8> = Vec::new();
            let mut i: usize = 0;
            while i < c
                invariant
                    i <= c < srs@.len(),
                    scheme@ =~= srs@.subrange(0, i as int),
                decreases c - i,
            {
                scheme.push(srs[i]);
                proof {
                    assert(scheme@ =~= srs@.subrange(0, (i + 1) as int));
                }
                i = i + 1;
            }
            let mut j: usize = c + 1;
            while j < n
                invariant
                    c + 1 <= j <= n == srs@.len(),
                    params@ =~= srs@.subrange(c + 1 as int, j as int),
                decreases n - j,
            {
                params.push(srs[j]);
                proof {
                    assert(params@ =~= srs@.subrange(c + 1 as int, (j + 1) as int));
                }
                j = j + 1;
            }
            proof {
                assert(params@ =~= params_of(srs@));
            }
            // the scheme names, byte for byte
            let mut enu_bytes: Vec<u8> = Vec::new();
            enu_bytes.push(69);
            enu_bytes.push(78);
            enu_bytes.push(85);
            let mut epsg_bytes: Vec<u8> = Vec::new();
            epsg_bytes.push(69);
            epsg_bytes.push(80);
            epsg_bytes.push(83);
            epsg_bytes.push(71);
            proof {
                assert(enu_bytes@ =~= enu_name());
                assert(epsg_bytes@ =~= epsg_name());
            }
            if crate::text::bytes_eq(scheme.as_slice(), enu_bytes.as_slice()) {
                let fields = split_on_commas(params.as_slice());
                if fields.len() < 2 {
                    return OriginRequest::Invalid;
                }
                proof {
                    assert(fields.deep_view()[0] == fields@[0]@);
                    assert(fields.deep_view()[1] == fields@[1]@);
                }
                let lat = parse_decimal_micro(fields[0].as_slice());
                let lon = parse_decimal_micro(fields[1].as_slice());
                match (lat, lon) {
                    (Some(latv), Some(lonv)) => OriginRequest::Direct {
                        longitude: lonv,
                        latitude: latv,
                        offset: parse_enu_offset(srs_origin),
                    },
                    _ => OriginRequest::Invalid,
                }
            } else if crate::text::bytes_eq(scheme.as_slice(), epsg_bytes.as_slice()) {
                match parse_plain_i32(params.as_slice()) {
                    Some(code) => match parse_point_list(srs_origin) {
                        Some(point) => OriginRequest::ConvertEpsg { code, point },
                        None => OriginRequest::Invalid,
                    },
                    None => OriginRequest::Invalid,
                }
            } else {
                match parse_point_list(srs_origin) {
                    Some(point) => OriginRequest::ConvertWkt { point },
                    None => OriginRequest::Invalid,
                }
            }
        },
        None => {
            proof {
                assert(!scheme_is(srs@, enu_name()));
                assert(!scheme_is(srs@, epsg_name()));
            }
            match parse_point_list(srs_origin) {
                Some(point) => OriginRequest::ConvertWkt { point },
                None => OriginRequest::Invalid,
            }
        },
    }
}

/// Folds the external engine's answer back into a resolved origin.
///
/// A direct declaration ignores the answer: its height is the declared
/// offset's height when an offset is present. A conversion request
/// reads longitude and latitude from the rewritten point; an `EPSG`
/// point keeps its third slot as the height. A failed or invalid
/// resolution degrades to the zero origin.
pub fn finish_origin(req: OriginRequest, converted: Option<Vec<i64>>) -> (r: GeoOrigin)
    ensures
        req matches OriginRequest::Direct { longitude, latitude, offset } ==> r == (GeoOrigin {
            longitude,
            latitude,
            height: match offset {
                Some(o) => Some(o.z),
                None => None,
            },
            enu_offset: offset,
        }),
        req matches OriginRequest::ConvertEpsg { code, point } ==> match converted {
            Some(pt) => if pt@.len() >= 2 {
                r == (GeoOrigin {
                    longitude: pt@[0],
                    latitude: pt@[1],
                    height: if pt@.len() >= 3 {
                        Some(pt@[2])
                    } else {
                        None
                    },
                    enu_offset: None,
                })
            } else {
                r == GeoOrigin::spec_zero()
            },
            None => r == GeoOrigin::spec_zero(),
        },
        req matches OriginRequest::ConvertWkt { point } ==> match converted {
            Some(pt) => if pt@.len() >= 2 {
                r == (GeoOrigin {
                    longitude: pt@[0],
                    latitude: pt@[1],
                    height: None,
                    enu_offset: None,
                })
            } else {
                r == GeoOrigin::spec_zero()
            },
            None => r == GeoOrigin::spec_zero(),
        },
        req is Invalid ==> r == GeoOrigin::spec_zero(),
{
    match req {
        OriginRequest::Direct { longitude, latitude, offset } => GeoOrigin {
            longitude,
            latitude,
            height: match offset {
                Some(o) => Some(o.z),
                None => None,
            },
            enu_offset: offset,
        },
        OriginRequest::ConvertEpsg { code: _, point: _ } => match converted {
            Some(pt) => {
                if pt.len() >= 2 {
                    let h: Option<i64> = if pt.len() >= 3 {
                        Some(pt[2])
                    } else {
                        None
                    };
                    GeoOrigin { longitude: pt[0], latitude: pt[1], height: h, enu_offset: None }
                } else {
                    GeoOrigin::zero()
                }
            },
            None => GeoOrigin::zero(),
        },
        OriginRequest::ConvertWkt { point: _ } => match converted {
            Some(pt) => {
                if pt.len() >= 2 {
                    GeoOrigin { longitude: pt[0], latitude: pt[1], height: None, enu_offset: None }
                } else {
                    GeoOrigin::zero()
                }
            },
            None => GeoOrigin::zero(),
        },
        OriginRequest::Invalid => GeoOrigin::zero(),
    }
}

/// Configuration fields that override an origin after resolution.
#[derive(Clone, Copy, PartialEq, Eq, Structural, Debug)]
pub struct ConfigOverrides {
    pub x: Option<i64>,
    pub y: Option<i64>,
    pub offset: Option<i64>,
    pub max_level: Option<i32>,
}

/// Applies the configuration's `x`/`y` overrides: an explicitly
/// configured longitude or latitude always wins over the metadata.
pub fn apply_overrides(origin: GeoOrigin, cfg: &ConfigOverrides) -> (r: GeoOrigin)
    ensures
        r.longitude == match cfg.x {
            Some(x) => x,
            None => origin.longitude,
        },
        r.latitude == match cfg.y {
            Some(y) => y,
            None => origin.latitude,
        },
        r.height == origin.height,
        r.enu_offset == origin.enu_offset,
{
    let longitude = match cfg.x {
        Some(x) => x,
        None => origin.longitude,
    };
    let latitude = match cfg.y {
        Some(y) => y,
        None => origin.latitude,
    };
    GeoOrigin { longitude, latitude, height: origin.height, enu_offset: origin.enu_offset }
}

} // verus!
