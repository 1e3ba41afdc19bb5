use mc_client::indirect::{ChunkLayerRange, ChunkStorage, RenderChunkKey};
use mc_client::residency::{ChunkResidency, ChunkUpload, ResidencyError, UploadOutcome};

fn key(x: i32) -> RenderChunkKey {
    RenderChunkKey { x, y: 0, z: 0 }
}

fn upload(x: i32, vertexCount: usize, indexCount: usize, meshRevision: u64, verticesUnchanged: bool) -> ChunkUpload {
    ChunkUpload {
        key: key(x),
        vertexCount,
        indexCount,
        layerRanges: [ChunkLayerRange { firstIndex: 0, indexCount: indexCount as u32 }; 4],
        meshRevision,
        verticesUnchanged,
    }
}

fn shared(firstVertex: u32, vertexCount: u32, firstIndex: u32, indexCount: u32) -> ChunkStorage {
    ChunkStorage::Shared { firstVertex, vertexCount, firstIndex, indexCount }
}

#[test]
fn meshes_are_placed_in_the_shared_arenas() {
    let mut r = ChunkResidency::new(16, 32, 2);
    assert_eq!(r.upload_chunk(&upload(1, 4, 6, 1, false), 0), Ok(UploadOutcome::Placed { storage: shared(0, 4, 0, 6) }));
    assert_eq!(r.upload_chunk(&upload(2, 8, 12, 1, false), 0), Ok(UploadOutcome::Placed { storage: shared(4, 8, 6, 12) }));
    assert_eq!(r.free_vertices(), 4);
    assert_eq!(r.free_indices(), 14);
    let a = r.get(key(1)).expect("resident");
    assert_eq!((a.vertexCount, a.indexCount, a.meshRevision), (4, 6, 1));
}

#[test]
fn current_revisions_and_index_only_updates_keep_the_storage() {
    let mut r = ChunkResidency::new(16, 32, 2);
    r.upload_chunk(&upload(1, 4, 6, 1, false), 0).unwrap();
    assert_eq!(r.upload_chunk(&upload(1, 4, 6, 1, false), 0), Ok(UploadOutcome::Unchanged));
    assert_eq!(r.upload_chunk(&upload(1, 4, 6, 2, true), 0), Ok(UploadOutcome::IndexOnly { storage: shared(0, 4, 0, 6) }));
    assert_eq!(r.get(key(1)).map(|c| c.meshRevision), Some(2));
    assert_eq!(r.free_vertices(), 12);
    // changed counts need a new place even when the vertices are said to be unchanged
    assert_eq!(r.upload_chunk(&upload(1, 4, 9, 3, true), 0), Ok(UploadOutcome::Placed { storage: shared(4, 4, 6, 9) }));
}

#[test]
fn replaced_storage_waits_for_its_frame_slot() {
    let mut r = ChunkResidency::new(16, 32, 2);
    r.upload_chunk(&upload(1, 4, 6, 1, false), 1).unwrap();
    assert_eq!(r.upload_chunk(&upload(1, 4, 6, 2, false), 1), Ok(UploadOutcome::Placed { storage: shared(4, 4, 6, 6) }));
    // the old runs are not free until slot 1 is collected
    assert_eq!(r.free_vertices(), 8);
    assert_eq!(r.collect_retired(0), Ok(vec![]));
    assert_eq!(r.free_vertices(), 8);
    assert_eq!(r.collect_retired(1), Ok(vec![shared(0, 4, 0, 6)]));
    assert_eq!(r.free_vertices(), 12);
    assert_eq!(r.free_indices(), 26);
    assert_eq!(r.collect_retired(1), Ok(vec![]));
}

#[test]
fn full_arenas_fall_back_to_dedicated_buffers() {
    let mut r = ChunkResidency::new(16, 32, 1);
    assert_eq!(r.upload_chunk(&upload(1, 100, 6, 1, false), 0), Ok(UploadOutcome::Placed { storage: ChunkStorage::Dedicated }));
    // the index arena has no room: the vertex run is given back
    assert_eq!(r.upload_chunk(&upload(2, 4, 64, 1, false), 0), Ok(UploadOutcome::Placed { storage: ChunkStorage::Dedicated }));
    assert_eq!(r.free_vertices(), 16);
    assert_eq!(r.free_indices(), 32);
}

#[test]
fn empty_meshes_drop_the_chunk() {
    let mut r = ChunkResidency::new(16, 32, 2);
    r.upload_chunk(&upload(1, 4, 6, 1, false), 0).unwrap();
    assert_eq!(r.upload_chunk(&upload(1, 0, 0, 2, false), 1), Ok(UploadOutcome::Removed));
    assert_eq!(r.get(key(1)), None);
    assert_eq!(r.collect_retired(1), Ok(vec![shared(0, 4, 0, 6)]));
    assert_eq!(r.upload_chunk(&upload(9, 4, 0, 1, false), 0), Ok(UploadOutcome::Removed));
    r.upload_chunk(&upload(3, 4, 6, 1, false), 0).unwrap();
    assert_eq!(r.remove_chunk(key(3), 0), Ok(()));
    assert_eq!(r.get(key(3)), None);
    assert_eq!(r.collect_retired(0).map(|v| v.len()), Ok(1));
    assert_eq!(r.free_vertices(), 16);
}

#[test]
fn oversized_meshes_are_refused() {
    let mut r = ChunkResidency::new(16, 32, 1);
    if usize::BITS > 32 {
        let many = (u32::MAX as usize) + 1;
        assert_eq!(r.upload_chunk(&upload(1, many, 6, 1, false), 0), Err(ResidencyError::VertexCountTooLarge));
        assert_eq!(r.upload_chunk(&upload(1, 4, many, 1, false), 0), Err(ResidencyError::IndexCountTooLarge));
    }
    assert_eq!(r.get(key(1)), None);
    assert_eq!(r.slot_count(), 1);
}

#[test]
fn visible_chunks_carry_their_draw_info() {
    let mut r = ChunkResidency::new(16, 32, 1);
    r.upload_chunk(&upload(1, 4, 6, 1, false), 0).unwrap();
    let visible = r.visibleChunks(&vec![key(1), key(2)]);
    assert_eq!(visible.len(), 2);
    assert_eq!(visible[0].chunk.map(|c| c.storage), Some(shared(0, 4, 0, 6)));
    assert_eq!(visible[1].chunk, None);
}

#[test]
fn staging_counts_only_what_is_uploaded() {
    let mut r = ChunkResidency::new(16, 32, 1);
    r.upload_chunk(&upload(1, 4, 6, 1, false), 0).unwrap();
    // the resident revision stages nothing
    assert_eq!(r.chunk_upload_bytes(10, &upload(1, 4, 6, 1, false), 112), 10);
    // new indices alone: from 12, six indices of four bytes
    assert_eq!(r.chunk_upload_bytes(10, &upload(1, 4, 6, 2, true), 112), 12 + 24);
    // a whole mesh: vertices from 12, indices after them
    assert_eq!(r.chunk_upload_bytes(10, &upload(2, 4, 6, 1, false), 110), 12 + 110 + 2 + 24);
    assert_eq!(r.chunk_upload_bytes(10, &upload(2, 0, 6, 1, false), 110), 10);
}

#[test]
fn everything_comes_back_once_dropped_and_collected() {
    let mut r = ChunkResidency::new(16, 32, 2);
    assert_eq!((r.vertex_capacity(), r.index_capacity()), (16, 32));
    r.upload_chunk(&upload(1, 4, 6, 1, false), 0).unwrap();
    r.upload_chunk(&upload(2, 5, 7, 1, false), 1).unwrap();
    r.upload_chunk(&upload(1, 3, 3, 2, false), 1).unwrap();
    r.remove_chunk(key(1), 0).unwrap();
    r.remove_chunk(key(2), 1).unwrap();
    r.collect_retired(0).unwrap();
    r.collect_retired(1).unwrap();
    assert_eq!((r.free_vertices(), r.free_indices()), (16, 32));
}

#[test]
fn missing_frame_slots_are_refused() {
    let mut r = ChunkResidency::new(16, 32, 2);
    r.upload_chunk(&upload(1, 4, 6, 1, false), 0).unwrap();
    assert_eq!(r.upload_chunk(&upload(2, 4, 6, 1, false), 2), Err(ResidencyError::FrameSlotOutOfRange));
    assert_eq!(r.remove_chunk(key(1), 5), Err(ResidencyError::FrameSlotOutOfRange));
    assert_eq!(r.collect_retired(2), Err(ResidencyError::FrameSlotOutOfRange));
    assert!(r.get(key(1)).is_some());
    assert_eq!(r.get(key(2)), None);
    assert_eq!(r.free_vertices(), 12);
}
