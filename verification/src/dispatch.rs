//! Batch dispatch planning.
//!
//! Discovery walks the `Data/` directory of the input root; the walk
//! itself is I/O and happens outside the library, which receives one
//! entry per sub-directory: its name and whether it holds the geometry
//! file named after it. Planning turns those entries into conversion
//! units — one per valid cell, in discovery order — with the mirrored
//! destination paths the batch writes into. Paths use forward slashes.

use crate::text::push_bytes;
use vstd::prelude::*;
use vstd::string::StringSliceAdditionalSpecFns;

verus! {

/// ASCII forward slash.
pub const B_SLASH: u8 = 47;

/// ASCII backslash.
pub const B_BACKSLASH: u8 = 92;

/// One discovered cell directory: its name and whether the geometry
/// file `<name>/<name>.osgb` exists in it.
#[derive(Debug)]
pub struct CellEntry {
    pub name: Vec<u8>,
    pub has_geometry: bool,
}

impl CellEntry {
    pub open spec fn model(self) -> (Seq<u8>, bool) {
        (self.name@, self.has_geometry)
    }
}

/// One spatial cell's conversion: the source geometry file and the
/// destination directory it mirrors to.
#[derive(Debug)]
pub struct ConversionUnit {
    pub input_path: Vec<u8>,
    pub output_path: Vec<u8>,
}

/// Why a batch cannot start at all.
#[derive(Clone, Copy, PartialEq, Eq, Structural, Debug)]
pub enum BatchError {
    MissingDataDir,
}

impl BatchError {
    /// A short description of the failure.
    pub fn message(&self) -> (r: &'static str) {
        match self {
            BatchError::MissingDataDir => "input has no Data directory",
        }
    }
}

pub open spec fn slash() -> Seq<u8> {
    seq![B_SLASH]
}

/// The source geometry file of a cell: `<data_dir>/<name>/<name>.osgb`.
pub open spec fn unit_input(data_dir: Seq<u8>, name: Seq<u8>) -> Seq<u8> {
    data_dir + slash() + name + slash() + name + ".osgb".spec_bytes()
}

/// The mirrored destination directory: `<dest_root>/Data/<name>`.
pub open spec fn unit_output(dest_root: Seq<u8>, name: Seq<u8>) -> Seq<u8> {
    dest_root + "/Data/".spec_bytes() + name
}

/// The planned units for a sequence of discovered entries: one unit
/// per entry that has its geometry file, in discovery order.
pub open spec fn spec_units(
    entries: Seq<(Seq<u8>, bool)>,
    data_dir: Seq<u8>,
    dest_root: Seq<u8>,
) -> Seq<(Seq<u8>, Seq<u8>)>
    decreases entries.len(),
{
    if entries.len() == 0 {
        Seq::empty()
    } else {
        let rest = spec_units(entries.drop_last(), data_dir, dest_root);
        if entries.last().1 {
            rest.push(
                (
                    unit_input(data_dir, entries.last().0),
                    unit_output(dest_root, entries.last().0),
                ),
            )
        } else {
            rest
        }
    }
}

/// Plans a batch: a missing `Data/` directory is a hard error for the
/// whole batch; otherwise every discovered cell with its geometry file
/// becomes exactly one conversion unit, in discovery order.
pub fn plan_units(
    data_dir_exists: bool,
    data_dir: &[u8],
    dest_root: &[u8],
    entries: &Vec<CellEntry>,
) -> (r: Result<Vec<ConversionUnit>, BatchError>)
    ensures
        r is Err <==> !data_dir_exists,
        r matches Err(e) ==> e == BatchError::MissingDataDir,
        r matches Ok(units) ==> {
            let plan = spec_units(
                entries@.map_values(|e: CellEntry| e.model()),
                data_dir@,
                dest_root@,
            );
            &&& units@.len() == plan.len()
            &&& forall|k: int|
                0 <= k < plan.len() ==> (#[trigger] units@[k].input_path@) == plan[k].0
                    && units@[k].output_path@ == plan[k].1
        },
{
    if !data_dir_exists {
        return Err(BatchError::MissingDataDir);
    }
    let ghost ms = entries@.map_values(|e: CellEntry| e.model());
    let mut units: Vec<ConversionUnit> = Vec::new();
    let mut i: usize = 0;
    proof {
        assert(ms.subrange(0, 0) =~= Seq::<(Seq<u8>, bool)>::empty());
    }
    while i < entries.len()
        invariant
            i <= entries@.len(),
            ms == entries@.map_values(|e: CellEntry| e.model()),
            ms.len() == entries@.len(),
            units@.len() == spec_units(ms.subrange(0, i as int), data_dir@, dest_root@).len(),
            forall|k: int|
                0 <= k < units@.len() ==> (#[trigger] units@[k].input_path@) == spec_units(
                    ms.subrange(0, i as int),
                    data_dir@,
                    dest_root@,
                )[k].0 && units@[k].output_path@ == spec_units(
                    ms.subrange(0, i as int),
                    data_dir@,
                    dest_root@,
                )[k].1,
        decreases entries@.len() - i,
    {
        let ghost pre = ms.subrange(0, i as int);
        let ghost cur = ms.subrange(0, (i + 1) as int);
        proof {
            assert(cur.drop_last() =~= pre);
            assert(cur.last() == ms[i as int]);
            assert(ms[i as int] == entries@[i as int].model());
        }
        let entry = &entries[i];
        if entry.has_geometry {
            let mut input: Vec<u8> = Vec::new();
            push_bytes(&mut input, data_dir);
            input.push(B_SLASH);
            push_bytes(&mut input, entry.name.as_slice());
            input.push(B_SLASH);
            push_bytes(&mut input, entry.name.as_slice());
            push_bytes(&mut input, ".osgb".as_bytes());
            let mut output: Vec<u8> = Vec::new();
            push_bytes(&mut output, dest_root);
            push_bytes(&mut output, "/Data/".as_bytes());
            push_bytes(&mut output, entry.name.as_slice());
            proof {
                assert(input@ =~= unit_input(data_dir@, entries@[i as int].name@));
                assert(output@ =~= unit_output(dest_root@, entries@[i as int].name@));
            }
            units.push(ConversionUnit { input_path: input, output_path: output });
        }
        i = i + 1;
    }
    proof {
        assert(ms.subrange(0, ms.len() as int) =~= ms);
    }
    Ok(units)
}

/// Replaces backslashes by forward slashes: content URIs are
/// platform-independent.
pub open spec fn normalize_slashes(s: Seq<u8>) -> Seq<u8> {
    s.map_values(
        |b: u8|
            if b == B_BACKSLASH {
                B_SLASH
            } else {
                b
            },
    )
}

/// The URI of a cell's destination relative to the batch root: the
/// root prefix is replaced by `./` and separators are normalized.
pub open spec fn spec_relative_uri(out_dir: Seq<u8>, dest_root: Seq<u8>) -> Seq<u8> {
    let stripped = if out_dir.len() >= dest_root.len() && out_dir.subrange(
        0,
        dest_root.len() as int,
    ) == dest_root {
        "./".spec_bytes() + out_dir.subrange(dest_root.len() as int, out_dir.len() as int)
    } else {
        out_dir
    };
    normalize_slashes(stripped)
}

/// Computes a cell's relative content URI from its destination
/// directory and the batch's destination root.
pub fn relative_uri(out_dir: &[u8], dest_root: &[u8]) -> (r: Vec<u8>)
    ensures
        r@ == spec_relative_uri(out_dir@, dest_root@),
{
    let mut stripped: Vec<u8> = Vec::new();
    let is_prefix: bool = crate::text::starts_with(out_dir, dest_root);
    if is_prefix {
        push_bytes(&mut stripped, "./".as_bytes());
        let mut i: usize = dest_root.len();
        while i < out_dir.len()
            invariant
                dest_root@.len() <= i <= out_dir@.len(),
                stripped@ =~= "./".spec_bytes() + out_dir@.subrange(
                    dest_root@.len() as int,
                    i as int,
                ),
            decreases out_dir@.len() - i,
        {
            stripped.push(out_dir[i]);
            proof {
                assert(stripped@ =~= "./".spec_bytes() + out_dir@.subrange(
                    dest_root@.len() as int,
                    (i + 1) as int,
                ));
            }
            i = i + 1;
        }
        proof {
            assert(stripped@ =~= "./".spec_bytes() + out_dir@.subrange(
                dest_root@.len() as int,
                out_dir@.len() as int,
            ));
        }
    } else {
        push_bytes(&mut stripped, out_dir);
    }
    let mut out: Vec<u8> = Vec::new();
    let mut i: usize = 0;
    while i < stripped.len()
        invariant
            i <= stripped@.len(),
            out@ =~= normalize_slashes(stripped@.subrange(0, i as int)),
        decreases stripped@.len() - i,
    {
        let b = stripped[i];
        if b == B_BACKSLASH {
            out.push(B_SLASH);
        } else {
            out.push(b);
        }
        proof {
            assert(out@ =~= normalize_slashes(stripped@.subrange(0, (i + 1) as int)));
        }
        i = i + 1;
    }
    proof {
        assert(stripped@.subrange(0, stripped@.len() as int) =~= stripped@);
    }
    out
}

/// The level cutoff handed to the external converter: the configured
/// value, or the permissive default.
pub fn effective_max_level(configured: Option<i32>) -> (r: i32)
    ensures
        r == match configured {
            Some(v) => v,
            None => 100,
        },
{
    match configured {
        Some(v) => v,
        None => 100,
    }
}

/// The level cutoff of a single-file mesh conversion: the configured
/// value, or the conservative default.
pub fn effective_fbx_max_level(configured: Option<i32>) -> (r: i32)
    ensures
        r == match configured {
            Some(v) => v,
            None => 5,
        },
{
    match configured {
        Some(v) => v,
        None => 5,
    }
}

/// Where the native scene-graph runtime should look for its plugins.
#[derive(Clone, Copy, PartialEq, Eq, Structural, Debug)]
pub enum PluginDirChoice {
    /// An explicit setting is respected.
    AlreadyConfigured,
    /// The plugin directory beside the executable.
    Primary,
    /// The plugin directory under `lib/`.
    Fallback,
    /// Nothing to point at.
    Unavailable,
}

/// Decides which plugin directory to configure: an explicit setting
/// always wins, then the directory beside the executable, then the one
/// under `lib/`.
pub fn choose_plugin_dir(
    already_configured: bool,
    primary_exists: bool,
    fallback_exists: bool,
) -> (r: PluginDirChoice)
    ensures
        r == if already_configured {
            PluginDirChoice::AlreadyConfigured
        } else if primary_exists {
            PluginDirChoice::Primary
        } else if fallback_exists {
            PluginDirChoice::Fallback
        } else {
            PluginDirChoice::Unavailable
        },
{
    if already_configured {
        PluginDirChoice::AlreadyConfigured
    } else if primary_exists {
        PluginDirChoice::Primary
    } else if fallback_exists {
        PluginDirChoice::Fallback
    } else {
        PluginDirChoice::Unavailable
    }
}

/// Feature switches handed through to the external converter.
#[derive(Clone, Copy, PartialEq, Eq, Structural, Debug)]
pub struct FeatureFlags {
    pub texture_compress: bool,
    pub mesh_optimize: bool,
    pub draco_compress: bool,
    pub unlit_material: bool,
}

} // verus!
