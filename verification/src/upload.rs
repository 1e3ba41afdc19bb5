use vstd::prelude::*;
use vstd::arithmetic::power2::{pow2, lemma_pow2_unfold, lemma_pow2_strictly_increases, lemma2_to64_rest};
use crate::arena::{align_up, is_pow2_u64};
use crate::indirect::sat_add_u64;

verus! {

// ---------------------------------------------------------------------------
// Dynamic meshes (entities, block entities) staged for upload each frame.
// ---------------------------------------------------------------------------

/// What is known of a dynamic mesh already on the GPU: the content it holds,
/// its index count and the byte sizes of its vertex and index buffers.
#[derive(Debug, Clone, Copy, PartialEq, Eq)]
pub struct DynamicMeshState {
    pub contentGeneration: Option<u64>,
    pub indexCount: u32,
    pub vertexBufferSize: u64,
    pub indexBufferSize: u64,
}

/// Whether a dynamic mesh must be uploaded: never when it has no vertex or
/// no index; always when its index count does not fit 32 bits; else unless
/// the slot already holds this content, with this index count, in buffers
/// large enough for its bytes (four bytes an index).
pub open spec fn needs_upload(
    slot: Option<DynamicMeshState>,
    vertexCount: nat,
    vertexBytes: nat,
    indexCount: nat,
    contentGeneration: u64,
) -> bool {
    if vertexCount == 0 || indexCount == 0 {
        false
    } else if indexCount > u32::MAX {
        true
    } else {
        match slot {
            None => true,
            Some(mesh) => !(mesh.contentGeneration == Some(contentGeneration) && mesh.indexCount == indexCount
                && mesh.vertexBufferSize >= vertexBytes && mesh.indexBufferSize >= indexCount * 4),
        }
    }
}

/// Whether a dynamic mesh of `vertexCount` vertices (`vertexBytes` bytes)
/// and `indexCount` indices must be uploaded; see [`needs_upload`].
pub fn dynamic_mesh_needs_upload(
    slot: &Option<DynamicMeshState>,
    vertexCount: usize,
    vertexBytes: u64,
    indexCount: usize,
    contentGeneration: u64,
) -> (r: bool)
    requires
        indexCount * 4 <= usize::MAX,
    ensures
        r == needs_upload(*slot, vertexCount as nat, vertexBytes as nat, indexCount as nat, contentGeneration),
{
    if vertexCount == 0 || indexCount == 0 {
        return false;
    }
    let indexBytes = (indexCount * 4) as u64;
    if indexCount > 0xffff_ffff {
        return true;
    }
    let count = indexCount as u32;
    match slot {
        None => true,
        Some(mesh) => !(match mesh.contentGeneration {
            Some(g) => g == contentGeneration,
            None => false,
        } && mesh.indexCount == count && mesh.vertexBufferSize >= vertexBytes && mesh.indexBufferSize >= indexBytes),
    }
}

/// `v` rounded up to a multiple of four.
pub open spec fn round_up4(v: u64) -> int {
    (v + 3) / 4 * 4
}

/// Where the staged bytes end after a mesh: its vertices from the next
/// multiple of four past `total`, then its indices from the next multiple of
/// four past those; each end held at `u64::MAX`.
pub open spec fn staged_end(total: u64, vertexBytes: u64, indexBytes: u64) -> u64 {
    let afterVertices = sat_add_u64(round_up4(total) as u64, vertexBytes);
    sat_add_u64(round_up4(afterVertices) as u64, indexBytes)
}

/// The staging bytes after a mesh that must be uploaded can be aligned
/// without passing 64 bits.
pub open spec fn staging_fits(total: u64, vertexBytes: u64) -> bool {
    total + 3 <= u64::MAX && sat_add_u64(round_up4(total) as u64, vertexBytes) + 3 <= u64::MAX
}

/// Staging bytes after adding a dynamic mesh: unchanged when it need not be
/// uploaded; see [`staged_end`].
pub fn append_dynamic_upload_bytes(
    total: u64,
    slot: &Option<DynamicMeshState>,
    vertexCount: usize,
    vertexBytes: u64,
    indexCount: usize,
    contentGeneration: u64,
) -> (r: u64)
    requires
        indexCount * 4 <= usize::MAX,
        needs_upload(*slot, vertexCount as nat, vertexBytes as nat, indexCount as nat, contentGeneration)
            ==> staging_fits(total, vertexBytes),
    ensures
        r == if needs_upload(*slot, vertexCount as nat, vertexBytes as nat, indexCount as nat, contentGeneration) {
            staged_end(total, vertexBytes, (indexCount * 4) as u64)
        } else {
            total
        },
{
    if !dynamic_mesh_needs_upload(slot, vertexCount, vertexBytes, indexCount, contentGeneration) {
        return total;
    }
    let indexBytes = (indexCount * 4) as u64;
    proof {
        assert(is_pow2_u64(4)) by {
            vstd::arithmetic::power2::lemma2_to64();
            assert(4 == pow2(2));
        }
    }
    let afterVertices = align_up(total, 4).saturating_add(vertexBytes);
    align_up(afterVertices, 4).saturating_add(indexBytes)
}

/// A slot emptied of its content: no index and no content generation; its
/// buffers stay.
pub open spec fn cleared(slot: Option<DynamicMeshState>) -> Option<DynamicMeshState> {
    match slot {
        None => None,
        Some(mesh) => Some(DynamicMeshState { indexCount: 0, contentGeneration: None, ..mesh }),
    }
}

/// Forgets what a slot holds; see [`cleared`].
pub fn clear_dynamic_mesh(slot: &mut Option<DynamicMeshState>)
    ensures
        *final(slot) == cleared(*old(slot)),
{
    if let Some(mesh) = slot {
        mesh.indexCount = 0;
        mesh.contentGeneration = None;
    }
}

/// Forgets what a slot holds when its mesh has no vertex or no index.
pub fn clear_empty_dynamic_mesh(slot: &mut Option<DynamicMeshState>, vertexCount: usize, indexCount: usize)
    ensures
        *final(slot) == if vertexCount == 0 || indexCount == 0 {
            cleared(*old(slot))
        } else {
            *old(slot)
        },
{
    if vertexCount == 0 || indexCount == 0 {
        clear_dynamic_mesh(slot);
    }
}

// ---------------------------------------------------------------------------
// Host-visible buffers that grow to what a frame needs.
// ---------------------------------------------------------------------------

/// `p` is the smallest power of two that is at least `n`.
pub open spec fn is_next_pow2(n: u64, p: u64) -> bool {
    &&& is_pow2_u64(p)
    &&& n <= p
    &&& (p == 1 || p / 2 < n)
}

/// The smallest power of two that is at least `n`.
pub fn next_power_of_two(n: u64) -> (p: u64)
    requires
        n <= 0x8000_0000_0000_0000,
    ensures
        is_next_pow2(n, p),
{
    proof {
        lemma2_to64_rest();
    }
    let mut p: u64 = 1;
    let ghost mut k: nat = 0;
    proof {
        assert(pow2(0) == 1) by {
            vstd::arithmetic::power2::lemma2_to64();
        }
    }
    while p < n
        invariant
            n <= 0x8000_0000_0000_0000,
            pow2(63) == 0x8000_0000_0000_0000,
            p == pow2(k),
            k <= 63,
            p == 1 || p / 2 < n,
        decreases 64 - k,
    {
        proof {
            if k >= 63 {
                if k > 63 {
                    lemma_pow2_strictly_increases(63, k);
                }
                assert(false);
            }
            lemma_pow2_unfold(k + 1);
        }
        p = p * 2;
        proof {
            k = k + 1;
        }
    }
    p
}

/// The capacity of a new buffer for `required` bytes, or none when the
/// current one (of `current` bytes) is large enough: a buffer holds at least
/// one byte, and a new one is sized to the next power of two.
pub fn buffer_capacity_to_allocate(current: Option<u64>, required: u64) -> (r: Option<u64>)
    requires
        required <= 0x8000_0000_0000_0000,
    ensures
        ({
            let needed: u64 = if required == 0 { 1 } else { required };
            match current {
                Some(c) if c >= needed => r is None,
                _ => r matches Some(p) && is_next_pow2(needed, p),
            }
        }),
{
    let needed: u64 = if required == 0 {
        1
    } else {
        required
    };
    match current {
        Some(c) => {
            if c >= needed {
                return None;
            }
        },
        None => {},
    }
    Some(next_power_of_two(needed))
}

/// What staging a dynamic mesh decided.
#[derive(Debug, Clone, Copy, PartialEq, Eq)]
pub enum DynamicStaging {
    /// The mesh is empty: the slot was cleared.
    Cleared,
    /// The slot already holds this content.
    Current,
    /// The mesh is staged: its vertices at `vertexOffset` and its indices at
    /// `indexOffset` of the staging buffer, after new buffers of the given
    /// byte capacities (vertex, index) replace the slot's where it had none
    /// large enough.
    Upload { replaceBuffers: Option<(u64, u64)>, vertexOffset: u64, indexOffset: u64 },
}

/// Why a dynamic mesh could not be staged.
#[derive(Debug, Clone, Copy, PartialEq, Eq)]
pub enum StagingError {
    /// The mesh has more indices than 32 bits count.
    IndexCountTooLarge,
    /// The mesh does not fit the staging buffer after what is staged.
    ExceedsStagingCapacity,
}

/// Capacity of a new buffer for `bytes` bytes: the next power of two, and at
/// least 256.
pub open spec fn mesh_buffer_capacity(bytes: u64, p: u64) -> bool {
    if bytes <= 256 { p == 256 } else { is_next_pow2(bytes, p) }
}

/// Stages a dynamic mesh of `vertexCount` vertices (`vertexBytes` bytes)
/// and `indexCount` indices at `stagingOffset` of a staging buffer of
/// `stagingCapacity` bytes: an empty mesh clears the slot; content the slot
/// holds is left; else the slot gets new buffers when it has none large
/// enough, the vertices go at the next multiple of four and the indices at
/// the next multiple of four after them, and the slot records the content.
pub fn stage_dynamic_mesh(
    slot: &mut Option<DynamicMeshState>,
    stagingOffset: &mut u64,
    stagingCapacity: u64,
    vertexCount: usize,
    vertexBytes: u64,
    indexCount: usize,
    contentGeneration: u64,
) -> (r: Result<DynamicStaging, StagingError>)
    requires
        indexCount * 4 <= usize::MAX,
        *old(stagingOffset) + 3 <= u64::MAX,
        round_up4(*old(stagingOffset)) + vertexBytes + 3 <= u64::MAX,
        round_up4((round_up4(*old(stagingOffset)) + vertexBytes) as u64) + indexCount * 4 <= u64::MAX,
        vertexBytes <= 0x8000_0000_0000_0000,
        indexCount * 4 <= 0x8000_0000_0000_0000,
    ensures
        ({
            let indexBytes = indexCount * 4;
            let vertexOffset = round_up4(*old(stagingOffset));
            let indexOffset = round_up4((vertexOffset + vertexBytes) as u64);
            let end = indexOffset + indexBytes;
            if vertexCount == 0 || indexCount == 0 {
                r == Ok::<DynamicStaging, StagingError>(DynamicStaging::Cleared) && *final(slot) == cleared(*old(slot))
                    && *final(stagingOffset) == *old(stagingOffset)
            } else if indexCount > u32::MAX {
                r == Err::<DynamicStaging, StagingError>(StagingError::IndexCountTooLarge) && *final(slot) == *old(slot)
                    && *final(stagingOffset) == *old(stagingOffset)
            } else if !needs_upload(*old(slot), vertexCount as nat, vertexBytes as nat, indexCount as nat, contentGeneration) {
                r == Ok::<DynamicStaging, StagingError>(DynamicStaging::Current) && *final(slot) == *old(slot)
                    && *final(stagingOffset) == *old(stagingOffset)
            } else {
                let replace = match *old(slot) {
                    None => true,
                    Some(mesh) => mesh.vertexBufferSize < vertexBytes || mesh.indexBufferSize < indexBytes,
                };
                let sizes = match *final(slot) {
                    Some(mesh) => (mesh.vertexBufferSize, mesh.indexBufferSize),
                    None => (0u64, 0u64),
                };
                &&& (*final(slot)) is Some
                &&& replace ==> mesh_buffer_capacity(vertexBytes, sizes.0) && mesh_buffer_capacity(indexBytes as u64, sizes.1)
                &&& !replace ==> sizes == ((*old(slot))->0.vertexBufferSize, (*old(slot))->0.indexBufferSize)
                &&& if end > stagingCapacity {
                    &&& r == Err::<DynamicStaging, StagingError>(StagingError::ExceedsStagingCapacity)
                    &&& *final(stagingOffset) == *old(stagingOffset)
                    &&& replace ==> (*final(slot))->0.indexCount == 0 && (*final(slot))->0.contentGeneration is None
                    &&& !replace ==> *final(slot) == *old(slot)
                } else {
                    &&& r == Ok::<DynamicStaging, StagingError>(DynamicStaging::Upload {
                        replaceBuffers: if replace { Some(sizes) } else { None },
                        vertexOffset: vertexOffset as u64,
                        indexOffset: indexOffset as u64,
                    })
                    &&& *final(stagingOffset) == end
                    &&& (*final(slot))->0.indexCount == indexCount
                    &&& (*final(slot))->0.contentGeneration == Some(contentGeneration)
                }
            }
        }),
{
    if vertexCount == 0 || indexCount == 0 {
        clear_dynamic_mesh(slot);
        return Ok(DynamicStaging::Cleared);
    }
    if indexCount > 0xffff_ffff {
        return Err(StagingError::IndexCountTooLarge);
    }
    if !dynamic_mesh_needs_upload(slot, vertexCount, vertexBytes, indexCount, contentGeneration) {
        return Ok(DynamicStaging::Current);
    }
    let indexBytes = (indexCount * 4) as u64;
    let replace = match slot {
        None => true,
        Some(mesh) => mesh.vertexBufferSize < vertexBytes || mesh.indexBufferSize < indexBytes,
    };
    let mut replaceBuffers: Option<(u64, u64)> = None;
    if replace {
        let v = next_power_of_two(vertexBytes);
        let vertexCapacity: u64 = if v < 256 {
            256
        } else {
            v
        };
        let ix = next_power_of_two(indexBytes);
        let indexCapacity: u64 = if ix < 256 {
            256
        } else {
            ix
        };
        proof {
            vstd::arithmetic::power2::lemma2_to64();
            lemma_pow2_below_256(vertexBytes, v);
            lemma_pow2_below_256(indexBytes, ix);
        }
        *slot = Some(
            DynamicMeshState {
                contentGeneration: None,
                indexCount: 0,
                vertexBufferSize: vertexCapacity,
                indexBufferSize: indexCapacity,
            },
        );
        replaceBuffers = Some((vertexCapacity, indexCapacity));
    }
    proof {
        assert(is_pow2_u64(4)) by {
            vstd::arithmetic::power2::lemma2_to64();
            assert(4 == pow2(2));
        }
    }
    let vertexOffset = align_up(*stagingOffset, 4);
    let indexOffset = align_up(vertexOffset + vertexBytes, 4);
    let end = indexOffset + indexBytes;
    if end > stagingCapacity {
        return Err(StagingError::ExceedsStagingCapacity);
    }
    if let Some(mesh) = slot {
        mesh.indexCount = indexCount as u32;
        mesh.contentGeneration = Some(contentGeneration);
    }
    *stagingOffset = end;
    Ok(DynamicStaging::Upload { replaceBuffers, vertexOffset, indexOffset })
}

/// The smallest power of two at least `n` is 256 or less exactly when `n`
/// is 256 or less.
proof fn lemma_pow2_below_256(n: u64, p: u64)
    requires
        is_next_pow2(n, p),
        pow2(8) == 256,
    ensures
        (p < 256) ==> n < 256,
        (p <= 256) <==> n <= 256,
{
    let k = choose|k: nat| k < 64 && p == pow2(k);
    if n <= 256 && p > 256 {
        // p / 2 < n <= 256 while p, a power of two above 256, is at least 512
        if k <= 8 {
            if k < 8 {
                lemma_pow2_strictly_increases(k, 8);
            }
        } else {
            lemma_pow2_unfold(k);
            if k - 1 > 8 {
                lemma_pow2_strictly_increases(8, (k - 1) as nat);
            }
        }
    }
}

} // verus!
