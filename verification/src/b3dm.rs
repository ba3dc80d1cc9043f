//! The b3dm container: a 28-byte header whose feature-table and
//! batch-table lengths locate the embedded glTF payload, plus the
//! file-name checks of the conversion entry points.

use crate::text::ends_with;
use vstd::prelude::*;
use vstd::string::StringSliceAdditionalSpecFns;

verus! {

/// The little-endian 32-bit value at `pos`.
pub open spec fn le32(s: Seq<u8>, pos: int) -> int {
    s[pos] + 256 * (s[pos + 1] + 256 * (s[pos + 2] + 256 * s[pos + 3]))
}

/// The payload offset a b3dm header declares: the 28-byte header plus
/// the feature-table length (at byte 12) and batch-table length (at
/// byte 20).
pub open spec fn payload_offset(s: Seq<u8>) -> int {
    28 + le32(s, 12) + le32(s, 20)
}

#[derive(Clone, Copy, PartialEq, Eq, Structural, Debug)]
pub enum B3dmError {
    /// Shorter than the fixed header.
    TooShort,
    /// The declared table lengths point past the end of the data.
    PayloadOutOfRange,
}

impl B3dmError {
    /// A short description of the failure.
    pub fn message(&self) -> (r: &'static str) {
        match self {
            B3dmError::TooShort => "b3dm data is shorter than its header",
            B3dmError::PayloadOutOfRange => "b3dm table lengths point past the end",
        }
    }
}

/// Extracts the glTF payload of a b3dm container: everything after the
/// header and the two tables it declares. Fails exactly when the data
/// cannot hold a header or the declared offset lies past the end.
pub fn b3dm_payload(data: &[u8]) -> (r: Result<Vec<u8>, B3dmError>)
    ensures
        data@.len() < 28 <==> r == Result::<Vec<u8>, B3dmError>::Err(B3dmError::TooShort),
        data@.len() >= 28 && payload_offset(data@) > data@.len() <==> r == Result::<
            Vec<u8>,
            B3dmError,
        >::Err(B3dmError::PayloadOutOfRange),
        r matches Ok(p) ==> p@ == data@.subrange(payload_offset(data@), data@.len() as int),
{
    let n = data.len();
    if n < 28 {
        return Err(B3dmError::TooShort);
    }
    let ft: u64 = (data[12] as u64) + 256 * ((data[13] as u64) + 256 * ((data[14] as u64) + 256
        * (data[15] as u64)));
    let bt: u64 = (data[20] as u64) + 256 * ((data[21] as u64) + 256 * ((data[22] as u64) + 256
        * (data[23] as u64)));
    let off: u64 = 28 + ft + bt;
    assert(off == payload_offset(data@));
    if off > n as u64 {
        return Err(B3dmError::PayloadOutOfRange);
    }
    let start: usize = off as usize;
    let mut payload: Vec<u8> = Vec::new();
    let mut i: usize = start;
    while i < n
        invariant
            start <= i <= n == data@.len(),
            payload@ =~= data@.subrange(start as int, i as int),
        decreases n - i,
    {
        payload.push(data[i]);
        proof {
            assert(payload@ =~= data@.subrange(start as int, (i + 1) as int));
        }
        i = i + 1;
    }
    Ok(payload)
}

/// Whether a name carries the b3dm extension.
pub fn is_b3dm_input(name: &[u8]) -> (r: bool)
    ensures
        r == name_ends(name@, ".b3dm".spec_bytes()),
{
    ends_with(name, ".b3dm".as_bytes())
}

/// Whether a name is an acceptable glTF output (`.gltf` or `.glb`).
pub fn is_gltf_output(name: &[u8]) -> (r: bool)
    ensures
        r == (name_ends(name@, ".gltf".spec_bytes()) || name_ends(name@, ".glb".spec_bytes())),
{
    ends_with(name, ".gltf".as_bytes()) || ends_with(name, ".glb".as_bytes())
}

/// Whether a name is a mesh format the glTF conversion accepts.
pub fn is_gltf_input(name: &[u8]) -> (r: bool)
    ensures
        r == (name_ends(name@, ".osgb".spec_bytes()) || name_ends(name@, ".osg".spec_bytes())
            || name_ends(name@, ".obj".spec_bytes()) || name_ends(name@, ".fbx".spec_bytes())
            || name_ends(name@, ".3ds".spec_bytes())),
{
    ends_with(name, ".osgb".as_bytes()) || ends_with(name, ".osg".as_bytes()) || ends_with(
        name,
        ".obj".as_bytes(),
    ) || ends_with(name, ".fbx".as_bytes()) || ends_with(name, ".3ds".as_bytes())
}

/// Whether `s` ends with `suffix`.
pub open spec fn name_ends(s: Seq<u8>, suffix: Seq<u8>) -> bool {
    s.len() >= suffix.len() && s.subrange(s.len() - suffix.len(), s.len() as int) == suffix
}

} // verus!
