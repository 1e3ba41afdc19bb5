use mc_client::upload::{
    append_dynamic_upload_bytes, buffer_capacity_to_allocate, clear_dynamic_mesh, clear_empty_dynamic_mesh,
    dynamic_mesh_needs_upload, next_power_of_two, stage_dynamic_mesh, DynamicMeshState, DynamicStaging, StagingError,
};

fn uploaded(generation: u64, indexCount: u32) -> Option<DynamicMeshState> {
    Some(DynamicMeshState {
        contentGeneration: Some(generation),
        indexCount,
        vertexBufferSize: 1024,
        indexBufferSize: 256,
    })
}

#[test]
fn empty_meshes_are_never_uploaded() {
    assert!(!dynamic_mesh_needs_upload(&None, 0, 0, 6, 1));
    assert!(!dynamic_mesh_needs_upload(&None, 4, 128, 0, 1));
}

#[test]
fn unchanged_meshes_that_fit_are_kept() {
    let slot = uploaded(7, 6);
    assert!(!dynamic_mesh_needs_upload(&slot, 4, 128, 6, 7));
    assert!(dynamic_mesh_needs_upload(&slot, 4, 128, 6, 8));
    assert!(dynamic_mesh_needs_upload(&slot, 4, 128, 12, 7));
    assert!(dynamic_mesh_needs_upload(&slot, 4, 2048, 6, 7));
    assert!(dynamic_mesh_needs_upload(&None, 4, 128, 6, 7));
}

#[test]
fn staged_bytes_are_four_byte_aligned() {
    // 13 bytes staged so far: vertices start at 16, indices at the next multiple of four
    assert_eq!(append_dynamic_upload_bytes(13, &None, 3, 30, 6, 1), 16 + 30 + 2 + 24);
    // nothing is staged for a mesh that is already there
    assert_eq!(append_dynamic_upload_bytes(13, &uploaded(1, 6), 3, 30, 6, 1), 13);
}

#[test]
fn clearing_keeps_the_buffers() {
    let mut slot = uploaded(3, 6);
    clear_empty_dynamic_mesh(&mut slot, 4, 6);
    assert_eq!(slot, uploaded(3, 6));
    clear_empty_dynamic_mesh(&mut slot, 0, 6);
    assert_eq!(
        slot,
        Some(DynamicMeshState { contentGeneration: None, indexCount: 0, vertexBufferSize: 1024, indexBufferSize: 256 })
    );
    let mut empty: Option<DynamicMeshState> = None;
    clear_dynamic_mesh(&mut empty);
    assert_eq!(empty, None);
}

#[test]
fn buffers_grow_to_powers_of_two() {
    assert_eq!(next_power_of_two(0), 1);
    assert_eq!(next_power_of_two(1), 1);
    assert_eq!(next_power_of_two(1000), 1024);
    assert_eq!(next_power_of_two(1024), 1024);
    assert_eq!(next_power_of_two(0x8000_0000_0000_0000), 0x8000_0000_0000_0000);
    assert_eq!(buffer_capacity_to_allocate(Some(4096), 4096), None);
    assert_eq!(buffer_capacity_to_allocate(Some(4096), 4097), Some(8192));
    assert_eq!(buffer_capacity_to_allocate(None, 0), Some(1));
    assert_eq!(buffer_capacity_to_allocate(Some(0), 0), Some(1));
}

#[test]
fn staging_a_new_mesh_allocates_and_records_it() {
    let mut slot: Option<DynamicMeshState> = None;
    let mut offset: u64 = 5;
    let r = stage_dynamic_mesh(&mut slot, &mut offset, 4096, 10, 300, 6, 9);
    assert_eq!(r, Ok(DynamicStaging::Upload { replaceBuffers: Some((512, 256)), vertexOffset: 8, indexOffset: 308 }));
    assert_eq!(offset, 332);
    assert_eq!(
        slot,
        Some(DynamicMeshState { contentGeneration: Some(9), indexCount: 6, vertexBufferSize: 512, indexBufferSize: 256 })
    );
    // the same content again is left where it is
    assert_eq!(stage_dynamic_mesh(&mut slot, &mut offset, 4096, 10, 300, 6, 9), Ok(DynamicStaging::Current));
    assert_eq!(offset, 332);
    // new content that fits reuses the buffers
    let r = stage_dynamic_mesh(&mut slot, &mut offset, 4096, 10, 300, 6, 10);
    assert_eq!(r, Ok(DynamicStaging::Upload { replaceBuffers: None, vertexOffset: 332, indexOffset: 632 }));
    assert_eq!(offset, 656);
}

#[test]
fn staging_refuses_what_does_not_fit() {
    let mut slot: Option<DynamicMeshState> = None;
    let mut offset: u64 = 0;
    assert_eq!(stage_dynamic_mesh(&mut slot, &mut offset, 100, 10, 300, 6, 1), Err(StagingError::ExceedsStagingCapacity));
    assert_eq!(offset, 0);
    assert_eq!(
        slot,
        Some(DynamicMeshState { contentGeneration: None, indexCount: 0, vertexBufferSize: 512, indexBufferSize: 256 })
    );
    assert_eq!(stage_dynamic_mesh(&mut slot, &mut offset, 4096, 0, 0, 6, 1), Ok(DynamicStaging::Cleared));
    if usize::BITS > 32 {
        let many = (u32::MAX as usize) + 1;
        assert_eq!(stage_dynamic_mesh(&mut slot, &mut offset, 4096, 10, 300, many, 1), Err(StagingError::IndexCountTooLarge));
    }
}
