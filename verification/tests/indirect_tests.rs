use mc_client::arena::ChunkIndirectCommand;
use mc_client::indirect::{
    append_shared_chunk_command, buildChunkIndirectCommands, chunk_indirect_signature, chunk_layer_counts,
    planChunkLayer, shared_run_counts, BlockRenderLayer, ChunkDrawInfo, ChunkLayerRange, ChunkStorage,
    DrawCommandError, DrawStep, IndirectSignatures, RenderChunkKey, VisibleChunk,
};

fn range(firstIndex: u32, indexCount: u32) -> ChunkLayerRange {
    ChunkLayerRange { firstIndex, indexCount }
}

fn shared(firstVertex: u32, firstIndex: u32, ranges: [ChunkLayerRange; 4]) -> ChunkDrawInfo {
    ChunkDrawInfo {
        storage: ChunkStorage::Shared { firstVertex, vertexCount: 100, firstIndex, indexCount: 200 },
        layerRanges: ranges,
    }
}

fn visible(x: i32, chunk: Option<ChunkDrawInfo>) -> VisibleChunk {
    VisibleChunk { key: RenderChunkKey { x, y: 0, z: 0 }, chunk }
}

fn command(index_count: u32, first_index: u32, vertex_offset: i32) -> ChunkIndirectCommand {
    ChunkIndirectCommand { index_count, instance_count: 1, first_index, vertex_offset, first_instance: 0 }
}

#[test]
fn layers_run_in_draw_order_and_translucent_back_to_front() {
    let near = shared(10, 1000, [range(0, 6), range(0, 0), range(6, 3), range(9, 12)]);
    let far = shared(20, 2000, [range(0, 9), range(0, 0), range(0, 0), range(9, 6)]);
    let frame = vec![visible(0, Some(near)), visible(1, None), visible(2, Some(far))];
    let batch = buildChunkIndirectCommands(&frame).expect("commands");
    assert_eq!(
        batch.commands,
        vec![
            command(6, 1000, 10),
            command(9, 2000, 20),
            command(3, 1006, 10),
            command(6, 2009, 20),
            command(12, 1009, 10),
        ]
    );
    assert_eq!(batch.layerCounts, [2, 0, 1, 2]);
    assert_eq!(batch.layerOffsets, [0, 40, 40, 60]);
}

#[test]
fn dedicated_and_empty_layers_give_no_command() {
    let dedicated = ChunkDrawInfo { storage: ChunkStorage::Dedicated, layerRanges: [range(0, 6); 4] };
    assert_eq!(append_shared_chunk_command(&Some(dedicated), 0), Ok(None));
    assert_eq!(append_shared_chunk_command(&None, 2), Ok(None));
    let empty = shared(1, 1, [range(0, 0); 4]);
    assert_eq!(append_shared_chunk_command(&Some(empty), 3), Ok(None));
    let full = shared(7, 40, [range(2, 5); 4]);
    assert_eq!(append_shared_chunk_command(&Some(full), BlockRenderLayer::Cutout.index()), Ok(Some(command(5, 42, 7))));
}

#[test]
fn overflowing_offsets_are_refused() {
    let index_overflow = shared(0, u32::MAX, [range(1, 1), range(0, 0), range(0, 0), range(0, 0)]);
    assert_eq!(append_shared_chunk_command(&Some(index_overflow), 0), Err(DrawCommandError::IndexOffsetOverflow));
    let vertex_overflow = shared(0x8000_0000, 0, [range(0, 1); 4]);
    assert_eq!(append_shared_chunk_command(&Some(vertex_overflow), 1), Err(DrawCommandError::VertexOffsetTooLarge));
    let frame = vec![visible(0, Some(vertex_overflow))];
    assert!(matches!(buildChunkIndirectCommands(&frame), Err(DrawCommandError::VertexOffsetTooLarge)));
}

#[test]
fn layer_indices_follow_draw_order() {
    assert_eq!(BlockRenderLayer::Solid.index(), 0);
    assert_eq!(BlockRenderLayer::CutoutMipped.index(), 1);
    assert_eq!(BlockRenderLayer::Cutout.index(), 2);
    assert_eq!(BlockRenderLayer::Translucent.index(), 3);
}

#[test]
fn signature_is_fnv_of_the_frame_words() {
    assert_eq!(chunk_indirect_signature(&Vec::new()), 0xa8c7f832281a39c5);
    let frame = vec![VisibleChunk { key: RenderChunkKey { x: 1, y: 2, z: 3 }, chunk: None }];
    assert_eq!(chunk_indirect_signature(&frame), 0x933dc9c57e7ec29c);
}

#[test]
fn signature_tracks_placement_not_order_of_calls() {
    let a = vec![visible(0, Some(shared(10, 1000, [range(0, 6); 4]))), visible(1, None)];
    let b = vec![visible(0, Some(shared(10, 1000, [range(0, 6); 4]))), visible(1, None)];
    assert_eq!(chunk_indirect_signature(&a), chunk_indirect_signature(&b));
    let moved = vec![visible(0, Some(shared(11, 1000, [range(0, 6); 4]))), visible(1, None)];
    assert_ne!(chunk_indirect_signature(&a), chunk_indirect_signature(&moved));
}

fn mixed_frame() -> Vec<VisibleChunk> {
    let dedicated = ChunkDrawInfo { storage: ChunkStorage::Dedicated, layerRanges: [range(5, 7); 4] };
    vec![
        visible(0, Some(shared(0, 0, [range(0, 3); 4]))),
        visible(1, Some(dedicated)),
        visible(2, Some(shared(10, 100, [range(0, 4); 4]))),
        visible(3, None),
        visible(4, Some(shared(20, 200, [range(0, 5); 4]))),
    ]
}

#[test]
fn dedicated_chunk_splits_the_shared_run_in_place() {
    let frame = mixed_frame();
    let plan = planChunkLayer(&frame, 0);
    assert_eq!(
        plan.steps,
        vec![
            DrawStep::SharedRun { firstCommand: 0, commandCount: 1 },
            DrawStep::Dedicated { firstIndex: 5, indexCount: 7 },
            DrawStep::SharedRun { firstCommand: 1, commandCount: 2 },
        ]
    );
    assert_eq!(plan.logicalRanges, 4);
    let batch = buildChunkIndirectCommands(&frame).expect("commands");
    assert_eq!(plan.sharedCommands, batch.layerCounts[0]);
}

#[test]
fn translucent_plan_walks_back_to_front() {
    let frame = mixed_frame();
    let plan = planChunkLayer(&frame, 3);
    assert_eq!(
        plan.steps,
        vec![
            DrawStep::SharedRun { firstCommand: 0, commandCount: 2 },
            DrawStep::Dedicated { firstIndex: 5, indexCount: 7 },
            DrawStep::SharedRun { firstCommand: 2, commandCount: 1 },
        ]
    );
}

#[test]
fn layer_counts_follow_multi_draw_support() {
    let frame = mixed_frame();
    let batch = buildChunkIndirectCommands(&frame).expect("commands");
    let plan = planChunkLayer(&frame, 0);
    assert_eq!(chunk_layer_counts(&plan, &batch.commands, batch.layerOffsets[0], true, true), (3, 4, 19));
    assert_eq!(chunk_layer_counts(&plan, &batch.commands, batch.layerOffsets[0], false, true), (4, 4, 19));
    assert_eq!(chunk_layer_counts(&plan, &batch.commands, batch.layerOffsets[0], true, false), (1, 4, 7));
}

#[test]
fn shared_run_counts_read_the_layer_commands() {
    let frame = mixed_frame();
    let batch = buildChunkIndirectCommands(&frame).expect("commands");
    // layer 1 starts after the three commands of layer 0
    assert_eq!(batch.layerOffsets[1], 60);
    assert_eq!(shared_run_counts(&batch.commands, batch.layerOffsets[1], 1, 2, false, true), (2, 9));
    assert_eq!(shared_run_counts(&batch.commands, batch.layerOffsets[1], 0, 0, true, true), (0, 0));
    // a run past the commands draws nothing that can be counted
    assert_eq!(shared_run_counts(&batch.commands, batch.layerOffsets[3], 2, 5, true, true), (1, 0));
}

#[test]
fn a_slot_rebuilds_only_for_a_changed_frame() {
    let frame = mixed_frame();
    let mut signatures = IndirectSignatures::new(2);
    let first = signatures.prepare(0, &frame).expect("built");
    assert_eq!(first.map(|b| b.commands.len()), Some(12));
    assert!(matches!(signatures.prepare(0, &frame), Ok(None)));
    // the other slot holds nothing yet
    assert!(matches!(signatures.prepare(1, &frame), Ok(Some(_))));
    let mut changed = mixed_frame();
    changed.pop();
    assert!(matches!(signatures.prepare(0, &changed), Ok(Some(_))));
    assert!(matches!(signatures.prepare(2, &frame), Err(DrawCommandError::FrameSlotOutOfRange)));
}
