//! Batch planning and assembly scenarios.

use tile3d::assembler::{
    assemble_batch, assemble_flat, flat_merge_decision, CellResult, MergeDecision,
};
use tile3d::dispatch::{
    choose_plugin_dir, effective_fbx_max_level, effective_max_level, plan_units, relative_uri,
    CellEntry, PluginDirChoice,
};
use tile3d::document::TransformTokens;
use tile3d::volume::{Aabb, OrientedBox, Point3};

const M: i64 = 1_000_000;

fn pt(x: i64, y: i64, z: i64) -> Point3 {
    Point3 { x, y, z }
}

fn aabb(min: (i64, i64, i64), max: (i64, i64, i64)) -> Aabb {
    Aabb { min: pt(min.0, min.1, min.2), max: pt(max.0, max.1, max.2) }
}

fn zero_box() -> OrientedBox {
    OrientedBox {
        center: pt(0, 0, 0),
        axis_x: pt(0, 0, 0),
        axis_y: pt(0, 0, 0),
        axis_z: pt(0, 0, 0),
    }
}

fn identity_tokens() -> TransformTokens {
    let tokens: Vec<Vec<u8>> = vec![
        b"1".to_vec(),
        b"0".to_vec(),
        b"0".to_vec(),
        b"0".to_vec(),
        b"0".to_vec(),
        b"1".to_vec(),
        b"0".to_vec(),
        b"0".to_vec(),
        b"0".to_vec(),
        b"0".to_vec(),
        b"1".to_vec(),
        b"0".to_vec(),
        b"0".to_vec(),
        b"0".to_vec(),
        b"0".to_vec(),
        b"1".to_vec(),
    ];
    TransformTokens::new(tokens).unwrap()
}

fn cell(dir: &str, fragment: &[u8], min: (i64, i64, i64), max: (i64, i64, i64)) -> CellResult {
    CellResult {
        out_dir: dir.as_bytes().to_vec(),
        fragment: fragment.to_vec(),
        cell_box: aabb(min, max),
        child_box: zero_box(),
    }
}

fn three_cells() -> Vec<CellResult> {
    vec![
        cell("/out/Data/Tile_1", b"{\"a\":1}", (0, 0, 0), (M, M, M)),
        cell("/out/Data/Tile_2", b"{\"a\":2}", (M, 0, 0), (2 * M, M, M)),
        cell("/out/Data/Tile_3", b"{\"a\":3}", (0, M, 0), (M, 2 * M, M)),
    ]
}

#[test]
fn three_cell_batch_builds_the_reference_tree() {
    let results = three_cells();
    let a = assemble_batch(b"/out", &results, &identity_tokens());
    // root box: center (1,1,0.5), half extents (1,1,0.5)
    assert_eq!(a.root_box, aabb((0, 0, 0), (2 * M, 2 * M, M)));
    let doc = String::from_utf8(a.root_document.clone()).unwrap();
    assert!(doc.contains(
        "\"box\":[1.000000,1.000000,0.500000,1.000000,0.000000,0.000000,0.000000,1.000000,0.000000,0.000000,0.000000,0.500000]"
    ));
    // exactly three children, each pointing at a distinct per-cell document
    let parsed: serde_json::Value = serde_json::from_slice(&a.root_document).unwrap();
    let children = parsed["root"]["children"].as_array().unwrap();
    assert_eq!(children.len(), 3);
    let mut uris: Vec<String> = children
        .iter()
        .map(|c| c["content"]["uri"].as_str().unwrap().to_string())
        .collect();
    uris.sort();
    assert_eq!(
        uris,
        vec![
            ".//Data/Tile_1/tileset.json",
            ".//Data/Tile_2/tileset.json",
            ".//Data/Tile_3/tileset.json",
        ]
    );
    assert_eq!(a.cell_documents.len(), 3);
    assert_eq!(a.dropped, 0);
    assert_eq!(a.cell_documents[0].path, b"/out/Data/Tile_1/tileset.json".to_vec());
    let body: serde_json::Value =
        serde_json::from_slice(&a.cell_documents[0].body).unwrap();
    assert_eq!(body["asset"]["version"], serde_json::Value::from("1.0"));
    assert_eq!(body["root"]["a"], serde_json::Value::from(1));
}

#[test]
fn failed_unit_is_dropped_without_aborting() {
    // the middle unit fails: its fragment is empty
    let mut results = three_cells();
    results[1].fragment.clear();
    let a = assemble_batch(b"/out", &results, &identity_tokens());
    // the root box is the union of the remaining two only
    assert_eq!(a.root_box, aabb((0, 0, 0), (M, 2 * M, M)));
    assert_eq!(a.cell_documents.len(), 2);
    assert_eq!(a.dropped, 1);
    let parsed: serde_json::Value = serde_json::from_slice(&a.root_document).unwrap();
    assert_eq!(parsed["root"]["children"].as_array().unwrap().len(), 2);
}

#[test]
fn malformed_fragment_is_dropped() {
    // a non-empty fragment that is not well-formed JSON is dropped too:
    // this fails if the well-formedness check waves anything through
    let mut results = three_cells();
    results[2].fragment = b"{\"a\":".to_vec();
    let a = assemble_batch(b"/out", &results, &identity_tokens());
    assert_eq!(a.cell_documents.len(), 2);
    assert_eq!(a.dropped, 1);
    assert_eq!(a.root_box, aabb((0, 0, 0), (2 * M, M, M)));
}

#[test]
fn every_unit_is_accounted_for() {
    let mut results = three_cells();
    results[0].fragment.clear();
    results[2].fragment.clear();
    let a = assemble_batch(b"/out", &results, &identity_tokens());
    assert_eq!(a.cell_documents.len() + a.dropped, results.len());
    let empty = assemble_batch(b"/out", &vec![], &identity_tokens());
    assert_eq!(empty.cell_documents.len(), 0);
    assert_eq!(empty.dropped, 0);
    assert_eq!(empty.root_box, aabb((0, 0, 0), (0, 0, 0)));
}

#[test]
fn planning_mirrors_the_layout() {
    let entries = vec![
        CellEntry { name: b"Tile_A".to_vec(), has_geometry: true },
        CellEntry { name: b"notes".to_vec(), has_geometry: false },
        CellEntry { name: b"Tile_B".to_vec(), has_geometry: true },
    ];
    let units = plan_units(true, b"/in/Data", b"/out", &entries).unwrap();
    assert_eq!(units.len(), 2);
    assert_eq!(units[0].input_path, b"/in/Data/Tile_A/Tile_A.osgb".to_vec());
    assert_eq!(units[0].output_path, b"/out/Data/Tile_A".to_vec());
    assert_eq!(units[1].input_path, b"/in/Data/Tile_B/Tile_B.osgb".to_vec());
    assert_eq!(units[1].output_path, b"/out/Data/Tile_B".to_vec());
}

#[test]
fn missing_data_dir_is_a_hard_error() {
    let err = plan_units(false, b"/in/Data", b"/out", &vec![]).unwrap_err();
    assert_eq!(err.message(), "input has no Data directory");
}

#[test]
fn relative_uris_are_normalized() {
    assert_eq!(relative_uri(b"/out/Data/Tile_A", b"/out/"), b"./Data/Tile_A".to_vec());
    assert_eq!(relative_uri(b"/out/Data/Tile_A", b"/out"), b".//Data/Tile_A".to_vec());
    assert_eq!(relative_uri(b"other\\dir", b"/out"), b"other/dir".to_vec());
}

#[test]
fn level_defaults() {
    assert_eq!(effective_max_level(Some(17)), 17);
    assert_eq!(effective_max_level(None), 100);
    assert_eq!(effective_fbx_max_level(Some(3)), 3);
    assert_eq!(effective_fbx_max_level(None), 5);
}

#[test]
fn plugin_dir_preference() {
    assert_eq!(choose_plugin_dir(true, true, true), PluginDirChoice::AlreadyConfigured);
    assert_eq!(choose_plugin_dir(false, true, true), PluginDirChoice::Primary);
    assert_eq!(choose_plugin_dir(false, false, true), PluginDirChoice::Fallback);
    assert_eq!(choose_plugin_dir(false, false, false), PluginDirChoice::Unavailable);
}

#[test]
fn flat_merge_short_circuits_on_existing_root() {
    // an already-produced root document is left untouched
    assert_eq!(flat_merge_decision(true, true), MergeDecision::KeepExisting);
    assert_eq!(flat_merge_decision(true, false), MergeDecision::Merge);
    assert_eq!(flat_merge_decision(false, false), MergeDecision::AbortBatch);
    assert_eq!(flat_merge_decision(false, true), MergeDecision::AbortBatch);
}

#[test]
fn flat_assembly_unions_tile_bounds() {
    let bounds = vec![
        aabb((0, 0, 0), (2 * M, 2 * M, 2 * M)),
        aabb((2 * M, 0, 0), (6 * M, 2 * M, 2 * M)),
    ];
    let children = vec![b"{\"c\":1}".to_vec(), b"{\"c\":2}".to_vec()];
    let (doc, root) = assemble_flat(&bounds, &children);
    assert_eq!(root, aabb((0, 0, 0), (6 * M, 2 * M, 2 * M)));
    let parsed: serde_json::Value = serde_json::from_slice(&doc).unwrap();
    // the root error is half the largest span: three meters
    assert_eq!(parsed["geometricError"].as_f64().unwrap(), 3.0);
    assert_eq!(parsed["root"]["refine"], serde_json::Value::from("REPLACE"));
    assert_eq!(parsed["root"]["children"].as_array().unwrap().len(), 2);
}

#[test]
fn flat_assembly_of_nothing_is_the_zero_document() {
    let (doc, root) = assemble_flat(&vec![], &vec![]);
    assert_eq!(root, aabb((0, 0, 0), (0, 0, 0)));
    let parsed: serde_json::Value = serde_json::from_slice(&doc).unwrap();
    assert_eq!(parsed["geometricError"].as_f64().unwrap(), 0.0);
    assert_eq!(parsed["root"]["children"].as_array().unwrap().len(), 0);
}
