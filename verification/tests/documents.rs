//! Document emission and the naming codec / container parsing.

use tile3d::b3dm::{b3dm_payload, is_b3dm_input, is_gltf_input, is_gltf_output, B3dmError};
use tile3d::document::{
    cell_document_bytes, check_number_token, child_node_bytes, push_escaped,
    root_document_bytes, TransformTokens,
};
use tile3d::naming::{extract_coordinate, extract_level};
use tile3d::volume::{OrientedBox, Point3};

fn pt(x: i64, y: i64, z: i64) -> Point3 {
    Point3 { x, y, z }
}

fn unit_box() -> OrientedBox {
    OrientedBox {
        center: pt(1_000_000, 1_000_000, 500_000),
        axis_x: pt(1_000_000, 0, 0),
        axis_y: pt(0, 1_000_000, 0),
        axis_z: pt(0, 0, 500_000),
    }
}

#[test]
fn cell_document_wraps_the_fragment() {
    let doc = cell_document_bytes(b"{\"k\":7}");
    assert_eq!(
        String::from_utf8(doc).unwrap(),
        "{\"asset\":{\"version\":\"1.0\",\"gltfUpAxis\":\"Z\"},\"geometricError\":1000,\"root\":{\"k\":7}}"
    );
}

#[test]
fn child_node_escapes_its_uri() {
    let doc = child_node_bytes(&unit_box(), b"./Data/a\"b/tileset.json");
    let text = String::from_utf8(doc).unwrap();
    assert!(text.contains("\"uri\":\"./Data/a\\\"b/tileset.json\""));
    assert!(text.starts_with(
        "{\"boundingVolume\":{\"box\":[1.000000,1.000000,0.500000,1.000000,"
    ));
    assert!(text.contains("\"geometricError\":1000"));
}

#[test]
fn root_document_has_the_fixed_shape() {
    let tokens: Vec<Vec<u8>> = (0..16).map(|i: u32| {
        if i % 5 == 0 { b"1".to_vec() } else { b"0".to_vec() }
    }).collect();
    let t = TransformTokens::new(tokens).unwrap();
    let children = vec![child_node_bytes(&unit_box(), b"./Data/Tile_1/tileset.json")];
    let doc = root_document_bytes(&t, &unit_box(), &children);
    let parsed: serde_json::Value = serde_json::from_slice(&doc).unwrap();
    assert_eq!(parsed["asset"]["version"], serde_json::Value::from("1.0"));
    assert_eq!(parsed["asset"]["gltfUpAxis"], serde_json::Value::from("Z"));
    assert_eq!(parsed["geometricError"].as_f64().unwrap(), 2000.0);
    assert_eq!(parsed["root"]["geometricError"].as_f64().unwrap(), 2000.0);
    assert_eq!(parsed["root"]["transform"].as_array().unwrap().len(), 16);
    assert_eq!(parsed["root"]["boundingVolume"]["box"].as_array().unwrap().len(), 12);
    assert_eq!(parsed["root"]["children"].as_array().unwrap().len(), 1);
}

#[test]
fn transform_tokens_are_checked() {
    let good: Vec<Vec<u8>> = (0..16).map(|_| b"-1.5e-7".to_vec()).collect();
    assert!(TransformTokens::new(good).is_some());
    let short: Vec<Vec<u8>> = (0..15).map(|_| b"1".to_vec()).collect();
    assert!(TransformTokens::new(short).is_none());
    let mut bad: Vec<Vec<u8>> = (0..16).map(|_| b"1".to_vec()).collect();
    bad[7] = b"NaN".to_vec();
    assert!(TransformTokens::new(bad).is_none());
}

#[test]
fn number_tokens_follow_the_grammar() {
    assert!(check_number_token(b"0"));
    assert!(check_number_token(b"-12.25"));
    assert!(check_number_token(b"6378137"));
    assert!(check_number_token(b"1e300"));
    assert!(check_number_token(b"-2.5e-7"));
    assert!(check_number_token(b"3e+4"));
    assert!(!check_number_token(b""));
    assert!(!check_number_token(b"."));
    assert!(!check_number_token(b"1."));
    assert!(!check_number_token(b".5"));
    assert!(!check_number_token(b"1e"));
    assert!(!check_number_token(b"inf"));
    assert!(!check_number_token(b"1,5"));
}

#[test]
fn levels_come_from_the_first_pattern() {
    assert_eq!(extract_level(b"Tile_L18_0012.osgb"), Some(18));
    assert_eq!(extract_level(b"x_L2_y_L3_"), Some(2));
    assert_eq!(extract_level(b"Tile_0012.osgb"), None);
    assert_eq!(extract_level(b"_L_"), None);
    assert_eq!(extract_level(b"_L5"), None);
    assert_eq!(extract_level(b"_L1234567890_"), None);
}

#[test]
fn coordinates_are_digit_runs() {
    assert_eq!(extract_coordinate(b"Tile_L18_0012.osgb", 9), b"0012".to_vec());
    assert_eq!(extract_coordinate(b"Tile_L18_0012.osgb", 4), b"".to_vec());
}

#[test]
fn control_bytes_are_escaped() {
    let mut out = Vec::new();
    push_escaped(&mut out, b"a\x01b\\c");
    assert_eq!(String::from_utf8(out).unwrap(), "a\\u0001b\\\\c");
}

#[test]
fn b3dm_payload_follows_the_tables() {
    // 28-byte header; feature table 4 bytes, batch table 2 bytes
    let mut data = vec![0u8; 28];
    data[12] = 4;
    data[20] = 2;
    data.extend_from_slice(&[9, 9, 9, 9]); // feature table
    data.extend_from_slice(&[8, 8]); // batch table
    data.extend_from_slice(b"glTF-payload");
    assert_eq!(b3dm_payload(&data).unwrap(), b"glTF-payload".to_vec());
}

#[test]
fn b3dm_errors_name_the_cause() {
    assert_eq!(b3dm_payload(&[0u8; 27]).unwrap_err(), B3dmError::TooShort);
    let mut data = vec![0u8; 28];
    data[12] = 200; // table length past the end
    let err = b3dm_payload(&data).unwrap_err();
    assert_eq!(err, B3dmError::PayloadOutOfRange);
    assert_eq!(err.message(), "b3dm table lengths point past the end");
}

#[test]
fn format_names_are_recognised() {
    assert!(is_b3dm_input(b"scene.b3dm"));
    assert!(!is_b3dm_input(b"scene.glb"));
    assert!(is_gltf_output(b"out.gltf") && is_gltf_output(b"out.glb"));
    assert!(!is_gltf_output(b"out.b3dm"));
    assert!(is_gltf_input(b"m.osgb") && is_gltf_input(b"m.osg") && is_gltf_input(b"m.obj"));
    assert!(is_gltf_input(b"m.fbx") && is_gltf_input(b"m.3ds"));
    assert!(!is_gltf_input(b"m.stl"));
}
