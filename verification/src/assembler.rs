//! The tileset assembler.
//!
//! The dispatcher's collector hands the assembler one result per
//! submitted unit — failed units carry an empty fragment. The assembler
//! accounts for every result: a unit with a non-empty, well-formed JSON
//! fragment contributes its bounding box to the root union and becomes
//! one per-cell document and one child reference node; every other unit
//! is dropped and the batch goes on. The root box is the tightest
//! axis-aligned box around the kept cells, whatever order the results
//! arrived in.

use crate::dispatch::spec_relative_uri;
use crate::document::cell_document;
use crate::document::cell_document_bytes;
use crate::document::child_node;
use crate::document::child_node_bytes;
use crate::document::flat_root_document;
use crate::document::flat_root_document_bytes;
use crate::document::root_document;
use crate::document::root_document_bytes;
use crate::document::TransformTokens;
use crate::origin::GeoOrigin;
use crate::text::push_bytes;
use crate::volume::box_to_tileset_box;
use crate::volume::compute_geometric_error_from_corners;
use crate::volume::corners_from_box;
use crate::volume::spec_box_to_tileset_box;
use crate::volume::spec_corner_error;
use crate::volume::union_boxes;
use crate::volume::union_seq;
use crate::volume::world_corners;
use crate::volume::Aabb;
use crate::volume::OrientedBox;
use crate::volume::Point3;
use crate::volume::POINT_LIMIT;
use vstd::prelude::*;
use vstd::string::StringSliceAdditionalSpecFns;

verus! {

/// Whether a byte sequence is a well-formed JSON document.
pub uninterp spec fn json_wellformed(s: Seq<u8>) -> bool;

/// Relies on serde_json::from_slice::<Value>: whether bytes parse as a
/// JSON document depends on the bytes alone.
#[verifier::external_body]
fn is_wellformed_json(s: &[u8]) -> (r: bool)
    ensures
        r == json_wellformed(s@),
{
    serde_json::from_slice::<serde_json::Value>(s).is_ok()
}

/// One unit's outcome as the collector hands it over: the cell's
/// destination directory, the native fragment (empty when the unit
/// failed), the cell's min/max box, and the box the fragment's root
/// node declares.
#[derive(Debug)]
pub struct CellResult {
    pub out_dir: Vec<u8>,
    pub fragment: Vec<u8>,
    pub cell_box: Aabb,
    pub child_box: OrientedBox,
}

impl CellResult {
    pub open spec fn wf(self) -> bool {
        self.cell_box.wf() && self.child_box.wf()
    }

    /// A result contributes to the tree exactly when its unit
    /// succeeded with a well-formed fragment.
    pub open spec fn kept(self) -> bool {
        self.fragment@.len() > 0 && json_wellformed(self.fragment@)
    }
}

/// The results that contribute to the tree, in arrival order.
pub open spec fn kept_seq(rs: Seq<CellResult>) -> Seq<CellResult>
    decreases rs.len(),
{
    if rs.len() == 0 {
        Seq::empty()
    } else {
        let rest = kept_seq(rs.drop_last());
        if rs.last().kept() {
            rest.push(rs.last())
        } else {
            rest
        }
    }
}

/// Every result is either kept or dropped: nothing is lost and nothing
/// is double-counted, however many units failed.
pub proof fn lemma_results_accounted(rs: Seq<CellResult>)
    ensures
        kept_seq(rs).len() + dropped_count(rs) == rs.len(),
    decreases rs.len(),
{
    if rs.len() > 0 {
        lemma_results_accounted(rs.drop_last());
    }
}

/// How many results are dropped for failure or a malformed fragment.
pub open spec fn dropped_count(rs: Seq<CellResult>) -> int
    decreases rs.len(),
{
    if rs.len() == 0 {
        0
    } else {
        dropped_count(rs.drop_last()) + if rs.last().kept() {
            0int
        } else {
            1int
        }
    }
}

pub open spec fn kept_boxes(rs: Seq<CellResult>) -> Seq<Aabb> {
    kept_seq(rs).map_values(|r: CellResult| r.cell_box)
}

/// The child reference node of one kept result.
pub open spec fn spec_child_of(r: CellResult, dest_root: Seq<u8>) -> Seq<u8> {
    child_node(
        r.child_box,
        spec_relative_uri(r.out_dir@, dest_root) + "/tileset.json".spec_bytes(),
    )
}

pub open spec fn child_nodes(rs: Seq<CellResult>, dest_root: Seq<u8>) -> Seq<Seq<u8>> {
    kept_seq(rs).map_values(|r: CellResult| spec_child_of(r, dest_root))
}

/// One written per-cell document.
#[derive(Debug)]
pub struct CellDocument {
    pub path: Vec<u8>,
    pub body: Vec<u8>,
}

/// Everything the batch writes: the root document, one document per
/// kept cell, the root box, and the accounting of kept against
/// dropped units.
#[derive(Debug)]
pub struct Assembly {
    pub root_box: Aabb,
    pub root_document: Vec<u8>,
    pub cell_documents: Vec<CellDocument>,
    pub dropped: usize,
}

/// Folds the collected per-unit results into the root document and the
/// per-cell documents.
///
/// The root box is the union of the kept cells' boxes — the tightest
/// box containing each of them, and the zero box when every unit
/// failed. Each kept result yields exactly one per-cell document at
/// `<out_dir>/tileset.json` and one child node in the root document;
/// kept and dropped units together account for every result.
pub fn assemble_batch(
    dest_root: &[u8],
    results: &Vec<CellResult>,
    transform: &TransformTokens,
) -> (a: Assembly)
    requires
        transform.wf(),
        forall|i: int| 0 <= i < results@.len() ==> (#[trigger] results@[i]).wf(),
    ensures
        a.root_box == union_seq(kept_boxes(results@)),
        a.root_box.wf(),
        forall|k: int|
            0 <= k < kept_boxes(results@).len() ==> a.root_box.contains_box(
                #[trigger] kept_boxes(results@)[k],
            ),
        a.root_document@ == root_document(
            transform.views(),
            spec_box_to_tileset_box(union_seq(kept_boxes(results@))),
            child_nodes(results@, dest_root@),
        ),
        a.cell_documents@.len() == kept_seq(results@).len(),
        forall|k: int|
            0 <= k < kept_seq(results@).len() ==> (#[trigger] a.cell_documents@[k].path@)
                == kept_seq(results@)[k].out_dir@ + "/tileset.json".spec_bytes()
                && a.cell_documents@[k].body@ == cell_document(kept_seq(results@)[k].fragment@),
        kept_seq(results@).len() + a.dropped == results@.len(),
{
    let mut boxes: Vec<Aabb> = Vec::new();
    let mut children: Vec<Vec<u8>> = Vec::new();
    let mut documents: Vec<CellDocument> = Vec::new();
    let mut dropped: usize = 0;
    let mut i: usize = 0;
    proof {
        assert(results@.subrange(0, 0) =~= Seq::<CellResult>::empty());
        lemma_results_accounted(results@);
    }
    while i < results.len()
        invariant
            i <= results@.len(),
            forall|k: int| 0 <= k < results@.len() ==> (#[trigger] results@[k]).wf(),
            boxes@ =~= kept_boxes(results@.subrange(0, i as int)),
            children.deep_view() =~~= child_nodes(results@.subrange(0, i as int), dest_root@),
            documents@.len() == kept_seq(results@.subrange(0, i as int)).len(),
            forall|k: int|
                0 <= k < documents@.len() ==> (#[trigger] documents@[k].path@) == kept_seq(
                    results@.subrange(0, i as int),
                )[k].out_dir@ + "/tileset.json".spec_bytes() && documents@[k].body@
                    == cell_document(kept_seq(results@.subrange(0, i as int))[k].fragment@),
            dropped == dropped_count(results@.subrange(0, i as int)),
            forall|k: int| 0 <= k < boxes@.len() ==> (#[trigger] boxes@[k]).wf(),
        decreases results@.len() - i,
    {
        let ghost pre = results@.subrange(0, i as int);
        let ghost cur = results@.subrange(0, (i + 1) as int);
        proof {
            assert(cur.drop_last() =~= pre);
            assert(cur.last() == results@[i as int]);
        }
        let r = &results[i];
        let keep = r.fragment.len() > 0 && is_wellformed_json(r.fragment.as_slice());
        if keep {
            boxes.push(r.cell_box);
            let mut uri = crate::dispatch::relative_uri(r.out_dir.as_slice(), dest_root);
            push_bytes(&mut uri, "/tileset.json".as_bytes());
            let child = child_node_bytes(&r.child_box, uri.as_slice());
            let ghost gchild = child@;
            proof {
                assert(uri@ == spec_relative_uri(results@[i as int].out_dir@, dest_root@)
                    + "/tileset.json".spec_bytes());
                assert(gchild == spec_child_of(results@[i as int], dest_root@));
            }
            let ghost olddv = children.deep_view();
            children.push(child);
            let mut path: Vec<u8> = Vec::new();
            push_bytes(&mut path, r.out_dir.as_slice());
            push_bytes(&mut path, "/tileset.json".as_bytes());
            let body = cell_document_bytes(r.fragment.as_slice());
            documents.push(CellDocument { path, body });
            proof {
                assert(kept_seq(cur) =~= kept_seq(pre).push(results@[i as int]));
                assert(boxes@ =~= kept_boxes(cur));
                assert(children.deep_view() =~~= olddv.push(gchild));
                assert(child_nodes(cur, dest_root@) =~= child_nodes(pre, dest_root@).push(
                    spec_child_of(results@[i as int], dest_root@),
                ));
                assert(children.deep_view() == child_nodes(cur, dest_root@));
            }
        } else {
            proof {
                assert(kept_seq(cur) =~= kept_seq(pre));
                assert(boxes@ =~= kept_boxes(cur));
                assert(children.deep_view() =~~= child_nodes(cur, dest_root@));
            }
            proof {
                lemma_results_accounted(pre);
            }
            dropped = dropped + 1;
        }
        i = i + 1;
    }
    proof {
        assert(results@.subrange(0, results@.len() as int) =~= results@);
    }
    let root_box = union_boxes(&boxes);
    let tileset_box = box_to_tileset_box(&root_box);
    let root_doc = root_document_bytes(transform, &tileset_box, &children);
    Assembly { root_box, root_document: root_doc, cell_documents: documents, dropped }
}

/// For any non-empty set of kept results, the assembled root box is
/// the tightest axis-aligned box containing every kept cell's box: it
/// contains each of them, and any box containing each of them contains
/// it.
pub proof fn lemma_root_box_tightest(rs: Seq<CellResult>, b: Aabb)
    requires
        kept_seq(rs).len() > 0,
        forall|k: int|
            0 <= k < kept_boxes(rs).len() ==> b.contains_box(#[trigger] kept_boxes(rs)[k]),
    ensures
        forall|k: int|
            0 <= k < kept_boxes(rs).len() ==> union_seq(kept_boxes(rs)).contains_box(
                #[trigger] kept_boxes(rs)[k],
            ),
        b.contains_box(union_seq(kept_boxes(rs))),
{
    crate::volume::lemma_union_contains(kept_boxes(rs));
    crate::volume::lemma_union_tightest(kept_boxes(rs), b);
}

/// The translation height of the root transform, by the fixed
/// precedence: an explicit origin height wins, then a declared local
/// offset's height, then the declared ground offset corrected by the
/// root box's least height, and zero when nothing was declared.
pub open spec fn spec_translation_height(
    origin_height: Option<i64>,
    enu_offset: Option<Point3>,
    region_offset: Option<i64>,
    root_min_z: i64,
) -> int {
    match origin_height {
        Some(h) => h as int,
        None => match enu_offset {
            Some(o) => o.z as int,
            None => match region_offset {
                Some(v) => v - root_min_z,
                None => 0,
            },
        },
    }
}

/// Resolves the root transform's translation height.
pub fn translation_height(
    origin_height: Option<i64>,
    enu_offset: Option<Point3>,
    region_offset: Option<i64>,
    root_min_z: i64,
) -> (r: i64)
    requires
        -POINT_LIMIT <= root_min_z <= POINT_LIMIT,
        region_offset matches Some(v) ==> -POINT_LIMIT <= v <= POINT_LIMIT,
    ensures
        r == spec_translation_height(origin_height, enu_offset, region_offset, root_min_z),
{
    match origin_height {
        Some(h) => h,
        None => match enu_offset {
            Some(o) => o.z,
            None => match region_offset {
                Some(v) => v - root_min_z,
                None => 0,
            },
        },
    }
}

/// Which transform the external engine must build for the root node.
#[derive(Clone, Copy, PartialEq, Eq, Structural, Debug)]
pub enum TransformRequest {
    WithEnuOffset { longitude: i64, latitude: i64, height: i64, offset: Point3 },
    Plain { longitude: i64, latitude: i64, height: i64 },
}

/// Selects the transform builder: the offset-aware one exactly when
/// the origin carries a declared local offset.
pub fn select_transform(origin: &GeoOrigin, height: i64) -> (r: TransformRequest)
    ensures
        r == match origin.enu_offset {
            Some(o) => TransformRequest::WithEnuOffset {
                longitude: origin.longitude,
                latitude: origin.latitude,
                height,
                offset: o,
            },
            None => TransformRequest::Plain {
                longitude: origin.longitude,
                latitude: origin.latitude,
                height,
            },
        },
{
    match origin.enu_offset {
        Some(o) => TransformRequest::WithEnuOffset {
            longitude: origin.longitude,
            latitude: origin.latitude,
            height,
            offset: o,
        },
        None => TransformRequest::Plain {
            longitude: origin.longitude,
            latitude: origin.latitude,
            height,
        },
    }
}

/// What the flat merge path does after the native converter ran.
#[derive(Clone, Copy, PartialEq, Eq, Structural, Debug)]
pub enum MergeDecision {
    /// The native conversion failed: the batch fails.
    AbortBatch,
    /// A root document already exists: leave it untouched.
    KeepExisting,
    /// Merge the per-tile documents into a new root document.
    Merge,
}

/// The flat path's idempotent short-circuit: a failed conversion
/// aborts, an already-produced root document is kept untouched, and
/// only otherwise is a root document assembled.
pub fn flat_merge_decision(native_ok: bool, root_document_exists: bool) -> (r: MergeDecision)
    ensures
        r == if !native_ok {
            MergeDecision::AbortBatch
        } else if root_document_exists {
            MergeDecision::KeepExisting
        } else {
            MergeDecision::Merge
        },
{
    if !native_ok {
        MergeDecision::AbortBatch
    } else if root_document_exists {
        MergeDecision::KeepExisting
    } else {
        MergeDecision::Merge
    }
}

/// Folds measured per-tile world bounds and their re-rendered nodes
/// into the flat root document.
///
/// With no tiles the document carries the zero box and zero error;
/// otherwise the root box is the union of the tiles' world bounds and
/// the root error is the half-span of that box's own corners — which
/// dominates every tile's error (`lemma_flat_root_error_dominates`),
/// so the error never grows down the tree.
pub fn assemble_flat(bounds: &Vec<Aabb>, children: &Vec<Vec<u8>>) -> (r: (Vec<u8>, Aabb))
    requires
        forall|i: int| 0 <= i < bounds@.len() ==> (#[trigger] bounds@[i]).wf(),
    ensures
        r.1 == union_seq(bounds@),
        r.0@ == flat_root_document(
            spec_box_to_tileset_box(union_seq(bounds@)),
            spec_corner_error(
                world_corners(spec_box_to_tileset_box(union_seq(bounds@)), None),
            ) as i64,
            children.deep_view(),
        ),
{
    let root_box = union_boxes(bounds);
    let tb = box_to_tileset_box(&root_box);
    let corners = corners_from_box(&tb);
    let ge = compute_geometric_error_from_corners(&corners);
    proof {
        assert(corners@ =~= world_corners(tb, None));
    }
    let doc = flat_root_document_bytes(&tb, ge, children);
    (doc, root_box)
}

} // verus!
