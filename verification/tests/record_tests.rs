use mc_client::blend::{blend_state, BlendFactor, BlendState, PipelineBlendMode};
use mc_client::record::{
    group_by_destination, overlay_pass, plan_entity_draws, CopyGroup, CopyRegion, EntityDraw, EntityDrawRange,
    EntityMesh, EntityMeshCounts, FrameUploads, OverlayPass, OverlayPipeline, OverlayPipelineKind, PendingCopy,
    PendingTexture, RecordError,
};

fn copy(destination: u64, srcOffset: u64, dstOffset: u64, size: u64, access: u32) -> PendingCopy {
    PendingCopy { destination, srcOffset, dstOffset, size, access }
}

fn atlas(staging: u64) -> PendingTexture {
    PendingTexture { staging, image: 900, width: 256, height: 128 }
}

#[test]
fn copies_are_grouped_by_destination_in_first_seen_order() {
    let copies = vec![copy(5, 0, 64, 16, 1), copy(7, 16, 0, 8, 2), copy(5, 24, 0, 32, 4)];
    let groups = group_by_destination(&copies);
    assert_eq!(
        groups,
        vec![
            CopyGroup {
                destination: 5,
                regions: vec![
                    CopyRegion { srcOffset: 0, dstOffset: 64, size: 16 },
                    CopyRegion { srcOffset: 24, dstOffset: 0, size: 32 },
                ],
                access: 5,
            },
            CopyGroup { destination: 7, regions: vec![CopyRegion { srcOffset: 16, dstOffset: 0, size: 8 }], access: 2 },
        ]
    );
    assert!(group_by_destination(&Vec::new()).is_empty());
}

#[test]
fn recording_takes_the_atlas_and_retires_its_staging_buffer() {
    let mut uploads = FrameUploads::new(2);
    assert_eq!(uploads.queue_atlas(1, 3, atlas(40)), Ok(None));
    assert_eq!(uploads.queue_atlas(1, 4, atlas(41)), Ok(Some(atlas(40))));
    assert_eq!(uploads.set_staging(1, true), Ok(()));
    assert_eq!(uploads.push_copy(1, copy(9, 0, 0, 12, 8)), Ok(()));
    let plan = uploads.plan_record(1, 0, 3).unwrap();
    assert_eq!(plan.atlasUpload, Some(atlas(41)));
    assert_eq!(
        plan.copyGroups,
        vec![CopyGroup { destination: 9, regions: vec![CopyRegion { srcOffset: 0, dstOffset: 0, size: 12 }], access: 8 }]
    );
    assert_eq!(uploads.take_retired(1), Ok(vec![41]));
    // Nothing is left for the next recording of the slot.
    let again = uploads.plan_record(1, 2, 3).unwrap();
    assert_eq!(again.atlasUpload, None);
    assert!(again.copyGroups.is_empty());
    assert_eq!(uploads.take_retired(1), Ok(vec![]));
    // The other slot was never touched.
    assert_eq!(uploads.take_retired(0), Ok(vec![]));
    assert_eq!(uploads.atlas_outdated(0, 0), Ok(false));
}

#[test]
fn refused_recordings_change_nothing() {
    let mut uploads = FrameUploads::new(1);
    uploads.queue_atlas(0, 2, atlas(50)).unwrap();
    assert_eq!(uploads.plan_record(0, 3, 3), Err(RecordError::FramebufferOutOfRange));
    assert_eq!(uploads.plan_record(1, 0, 3), Err(RecordError::FrameSlotOutOfRange));
    assert_eq!(uploads.take_retired(0), Ok(vec![]));
    let plan = uploads.plan_record(0, 0, 1).unwrap();
    assert_eq!(plan.atlasUpload, Some(atlas(50)));
}

#[test]
fn copies_without_a_staging_buffer_are_refused() {
    let mut uploads = FrameUploads::new(1);
    uploads.queue_atlas(0, 1, atlas(60)).unwrap();
    uploads.push_copy(0, copy(3, 0, 0, 4, 1)).unwrap();
    assert_eq!(uploads.plan_record(0, 0, 1), Err(RecordError::StagingMissing));
    // The atlas was taken and its staging buffer retired; the copies are gone.
    assert_eq!(uploads.take_retired(0), Ok(vec![60]));
    let plan = uploads.plan_record(0, 0, 1).unwrap();
    assert_eq!(plan.atlasUpload, None);
    assert!(plan.copyGroups.is_empty());
}

#[test]
fn atlas_revisions_are_tracked_per_slot() {
    let mut uploads = FrameUploads::new(2);
    assert_eq!(uploads.atlas_outdated(0, 0), Ok(false));
    assert_eq!(uploads.atlas_outdated(0, 3), Ok(true));
    uploads.queue_atlas(0, 3, atlas(70)).unwrap();
    assert_eq!(uploads.atlas_outdated(0, 3), Ok(false));
    assert_eq!(uploads.atlas_outdated(1, 3), Ok(true));
    assert_eq!(uploads.atlas_outdated(2, 3), Err(RecordError::FrameSlotOutOfRange));
}

#[test]
fn missing_upload_slots_are_refused() {
    let mut uploads = FrameUploads::new(2);
    assert_eq!(uploads.push_copy(2, copy(1, 0, 0, 1, 1)), Err(RecordError::FrameSlotOutOfRange));
    assert_eq!(uploads.set_staging(5, true), Err(RecordError::FrameSlotOutOfRange));
    assert_eq!(uploads.queue_atlas(2, 1, atlas(1)), Err(RecordError::FrameSlotOutOfRange));
    assert_eq!(uploads.take_retired(2), Err(RecordError::FrameSlotOutOfRange));
}

#[test]
fn entity_draws_skip_unusable_ranges_and_rebind_on_mesh_change() {
    let counts = EntityMeshCounts { dynamicMesh: Some(100), blockEntities: None, staticEntities: Some(u32::MAX) };
    let ranges = vec![
        EntityDrawRange { mesh: EntityMesh::Dynamic, firstIndex: 0, indexCount: 30 },
        EntityDrawRange { mesh: EntityMesh::Dynamic, firstIndex: 30, indexCount: 0 },
        EntityDrawRange { mesh: EntityMesh::Dynamic, firstIndex: 30, indexCount: 70 },
        EntityDrawRange { mesh: EntityMesh::BlockEntities, firstIndex: 0, indexCount: 6 },
        EntityDrawRange { mesh: EntityMesh::Dynamic, firstIndex: 90, indexCount: 20 },
        EntityDrawRange { mesh: EntityMesh::StaticEntities, firstIndex: 10, indexCount: u32::MAX },
        EntityDrawRange { mesh: EntityMesh::Dynamic, firstIndex: 0, indexCount: 6 },
    ];
    assert_eq!(
        plan_entity_draws(&ranges, counts),
        vec![
            EntityDraw { mesh: EntityMesh::Dynamic, rebind: true, firstIndex: 0, indexCount: 30 },
            EntityDraw { mesh: EntityMesh::Dynamic, rebind: false, firstIndex: 30, indexCount: 70 },
            EntityDraw { mesh: EntityMesh::StaticEntities, rebind: true, firstIndex: 10, indexCount: u32::MAX },
            EntityDraw { mesh: EntityMesh::Dynamic, rebind: true, firstIndex: 0, indexCount: 6 },
        ]
    );
}

#[test]
fn overlay_ranges_choose_their_pipeline_and_shader_state() {
    assert_eq!(
        overlay_pass(OverlayPipelineKind::TntFlash),
        OverlayPass { pipeline: OverlayPipeline::EntityOverlay, textured: false, unlit: false, noFog: false, blackFog: false }
    );
    assert_eq!(
        overlay_pass(OverlayPipelineKind::ArmorGlint),
        OverlayPass { pipeline: OverlayPipeline::FirstPersonGlint, textured: true, unlit: true, noFog: false, blackFog: true }
    );
    assert_eq!(
        overlay_pass(OverlayPipelineKind::BeaconGlow),
        OverlayPass { pipeline: OverlayPipeline::BeaconGlow, textured: true, unlit: true, noFog: true, blackFog: false }
    );
    assert_eq!(overlay_pass(OverlayPipelineKind::EndPortalAlpha).pipeline, OverlayPipeline::Entity);
    assert_eq!(overlay_pass(OverlayPipelineKind::EndPortalAdditive).blackFog, true);
    assert_eq!(overlay_pass(OverlayPipelineKind::BeaconCore).pipeline, OverlayPipeline::BeaconCore);
}

#[test]
fn blend_modes_give_their_blend_factors() {
    assert_eq!(
        blend_state(PipelineBlendMode::Disabled),
        BlendState { enabled: false, srcColor: BlendFactor::One, dstColor: BlendFactor::Zero, srcAlpha: BlendFactor::One, dstAlpha: BlendFactor::Zero }
    );
    assert_eq!(
        blend_state(PipelineBlendMode::Alpha),
        BlendState { enabled: true, srcColor: BlendFactor::SrcAlpha, dstColor: BlendFactor::OneMinusSrcAlpha, srcAlpha: BlendFactor::One, dstAlpha: BlendFactor::Zero }
    );
    assert_eq!(
        blend_state(PipelineBlendMode::TntFlash),
        BlendState { enabled: true, srcColor: BlendFactor::SrcAlpha, dstColor: BlendFactor::DstAlpha, srcAlpha: BlendFactor::SrcAlpha, dstAlpha: BlendFactor::DstAlpha }
    );
    assert_eq!(blend_state(PipelineBlendMode::InvertCrosshair).srcColor, BlendFactor::OneMinusDstColor);
    assert_eq!(blend_state(PipelineBlendMode::BlockDamage).dstColor, BlendFactor::SrcColor);
    assert_eq!(blend_state(PipelineBlendMode::Glint).srcColor, BlendFactor::SrcColor);
    assert_eq!(blend_state(PipelineBlendMode::Additive).dstAlpha, BlendFactor::One);
    assert_eq!(blend_state(PipelineBlendMode::SourceAlphaAdditive).dstColor, BlendFactor::One);
}
