//! The origin resolver's scheme decisions and fallbacks.

use tile3d::assembler::{select_transform, translation_height, TransformRequest};
use tile3d::origin::{
    apply_overrides, finish_origin, plan_origin, ConfigOverrides, GeoOrigin, OriginRequest,
};
use tile3d::volume::Point3;

#[test]
fn enu_origin_without_offset() {
    // the declared order is latitude,longitude; no offset is declared
    let req = plan_origin(b"ENU:30.0,120.0", b"");
    match &req {
        OriginRequest::Direct { longitude, latitude, offset } => {
            assert_eq!(*longitude, 120_000_000);
            assert_eq!(*latitude, 30_000_000);
            assert!(offset.is_none());
        },
        other => panic!("expected a direct origin, got {:?}", other),
    }
    let origin = finish_origin(req, None);
    assert_eq!(origin.longitude, 120_000_000);
    assert_eq!(origin.latitude, 30_000_000);
    assert_eq!(origin.height, None);
    assert_eq!(origin.enu_offset, None);
    // with nothing else declared the effective height degrades to zero
    assert_eq!(translation_height(origin.height, origin.enu_offset, None, 0), 0);
    // and the plain transform builder is selected
    let t = select_transform(&origin, 0);
    assert_eq!(
        t,
        TransformRequest::Plain { longitude: 120_000_000, latitude: 30_000_000, height: 0 }
    );
}

#[test]
fn enu_origin_with_offset_takes_offset_height() {
    let req = plan_origin(b"ENU:30.0,120.0", b"1.0,2.0,3.5");
    let origin = finish_origin(req, None);
    assert_eq!(origin.enu_offset, Some(Point3 { x: 1_000_000, y: 2_000_000, z: 3_500_000 }));
    assert_eq!(origin.height, Some(3_500_000));
    let t = select_transform(&origin, 3_500_000);
    assert_eq!(
        t,
        TransformRequest::WithEnuOffset {
            longitude: 120_000_000,
            latitude: 30_000_000,
            height: 3_500_000,
            offset: Point3 { x: 1_000_000, y: 2_000_000, z: 3_500_000 },
        }
    );
}

#[test]
fn epsg_origin_requests_a_conversion() {
    let req = plan_origin(b"EPSG:4326", b"500000,4100000,25.5");
    match &req {
        OriginRequest::ConvertEpsg { code, point } => {
            assert_eq!(*code, 4326);
            assert_eq!(
                point.as_slice(),
                &[500_000_000_000, 4_100_000_000_000, 25_500_000][..]
            );
        },
        other => panic!("expected an EPSG conversion, got {:?}", other),
    }
    // the engine rewrites the point in place to longitude/latitude and
    // leaves the third slot as the height
    let converted = vec![120_500_000_i64, 30_250_000, 25_500_000];
    let origin = finish_origin(req, Some(converted));
    assert_eq!(origin.longitude, 120_500_000);
    assert_eq!(origin.latitude, 30_250_000);
    assert_eq!(origin.height, Some(25_500_000));
}

#[test]
fn unknown_scheme_goes_to_wkt() {
    let req = plan_origin(b"LOCAL_CS[\"none\"]", b"1.0,2.0");
    match &req {
        OriginRequest::ConvertWkt { point } => {
            assert_eq!(point.as_slice(), &[1_000_000_i64, 2_000_000][..]);
        },
        other => panic!("expected a WKT conversion, got {:?}", other),
    }
    let origin = finish_origin(req, Some(vec![13_000_000, 52_000_000]));
    assert_eq!(origin.longitude, 13_000_000);
    assert_eq!(origin.latitude, 52_000_000);
    assert_eq!(origin.height, None);
}

#[test]
fn malformed_declarations_degrade_to_zero() {
    // too few ENU parameters
    let origin = finish_origin(plan_origin(b"ENU:30.0", b""), None);
    assert_eq!(origin, GeoOrigin { longitude: 0, latitude: 0, height: None, enu_offset: None });
    // unreadable EPSG code
    let origin = finish_origin(plan_origin(b"EPSG:abc", b"1,2"), None);
    assert_eq!(origin.longitude, 0);
    // a failed native conversion
    let origin = finish_origin(plan_origin(b"EPSG:4326", b"1,2"), None);
    assert_eq!(origin, GeoOrigin { longitude: 0, latitude: 0, height: None, enu_offset: None });
}

#[test]
fn config_overrides_win() {
    let base = GeoOrigin { longitude: 10, latitude: 20, height: Some(5), enu_offset: None };
    let cfg = ConfigOverrides {
        x: Some(120_000_000),
        y: None,
        offset: Some(7),
        max_level: Some(17),
    };
    let r = apply_overrides(base, &cfg);
    assert_eq!(r.longitude, 120_000_000);
    assert_eq!(r.latitude, 20);
    assert_eq!(r.height, Some(5));
}

#[test]
fn height_fallback_order() {
    let off = Some(Point3 { x: 0, y: 0, z: 9 });
    assert_eq!(translation_height(Some(4), off, Some(100), 30), 4);
    assert_eq!(translation_height(None, off, Some(100), 30), 9);
    assert_eq!(translation_height(None, None, Some(100), 30), 70);
    assert_eq!(translation_height(None, None, None, 30), 0);
}
