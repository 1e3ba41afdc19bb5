use vstd::prelude::*;
use crate::arena::ChunkIndirectCommand;

verus! {

/// The four block render layers, drawn in this order.
#[derive(Debug, Clone, Copy, PartialEq, Eq, Structural)]
pub enum BlockRenderLayer {
    Solid,
    CutoutMipped,
    Cutout,
    Translucent,
}

/// Position of a layer in draw order.
pub open spec fn layer_index(l: BlockRenderLayer) -> nat {
    match l {
        BlockRenderLayer::Solid => 0,
        BlockRenderLayer::CutoutMipped => 1,
        BlockRenderLayer::Cutout => 2,
        BlockRenderLayer::Translucent => 3,
    }
}

impl BlockRenderLayer {
    /// Position of the layer in draw order.
    pub fn index(&self) -> (i: usize)
        ensures
            i == layer_index(*self),
    {
        match self {
            BlockRenderLayer::Solid => 0,
            BlockRenderLayer::CutoutMipped => 1,
            BlockRenderLayer::Cutout => 2,
            BlockRenderLayer::Translucent => 3,
        }
    }
}

/// Indices of one layer within a chunk mesh.
#[derive(Debug, Clone, Copy, PartialEq, Eq, Default)]
pub struct ChunkLayerRange {
    pub firstIndex: u32,
    pub indexCount: u32,
}

/// Where a chunk mesh lives: in the shared arenas (its first vertex and
/// index there and their counts), or in buffers of its own.
#[derive(Debug, Clone, Copy, PartialEq, Eq)]
pub enum ChunkStorage {
    Shared { firstVertex: u32, vertexCount: u32, firstIndex: u32, indexCount: u32 },
    Dedicated,
}

/// What drawing a resident chunk mesh needs: its storage and its four layer
/// ranges.
#[derive(Debug, Clone, Copy, PartialEq, Eq)]
pub struct ChunkDrawInfo {
    pub storage: ChunkStorage,
    pub layerRanges: [ChunkLayerRange; 4],
}

/// Position of a render chunk.
#[derive(Debug, Clone, Copy, PartialEq, Eq, Hash, Structural)]
pub struct RenderChunkKey {
    pub x: i32,
    pub y: i32,
    pub z: i32,
}

/// A visible render chunk and its resident mesh, if it has one.
#[derive(Debug, Clone, Copy, PartialEq, Eq)]
pub struct VisibleChunk {
    pub key: RenderChunkKey,
    pub chunk: Option<ChunkDrawInfo>,
}

/// Why draw commands could not be built.
#[derive(Debug, Clone, Copy, PartialEq, Eq)]
pub enum DrawCommandError {
    /// A layer's first index past the chunk's first index overflows 32 bits.
    IndexOffsetOverflow,
    /// A chunk's first vertex does not fit a signed 32-bit offset.
    VertexOffsetTooLarge,
    /// A layer has more commands than 32 bits count.
    TooManyCommands,
    /// The frame slot does not exist.
    FrameSlotOutOfRange,
}

/// The draw command of one layer of a chunk: none without a resident mesh,
/// for an empty layer or for a mesh in buffers of its own.
pub open spec fn layer_command(chunk: Option<ChunkDrawInfo>, layer: nat) -> Result<Option<ChunkIndirectCommand>, DrawCommandError> {
    match chunk {
        None => Ok(None),
        Some(info) => {
            let range = info.layerRanges@[layer as int];
            if range.indexCount == 0 {
                Ok(None)
            } else {
                match info.storage {
                    ChunkStorage::Dedicated => Ok(None),
                    ChunkStorage::Shared { firstVertex, firstIndex, .. } => if firstIndex + range.firstIndex
                        > u32::MAX {
                        Err(DrawCommandError::IndexOffsetOverflow)
                    } else if firstVertex > i32::MAX {
                        Err(DrawCommandError::VertexOffsetTooLarge)
                    } else {
                        Ok(
                            Some(
                                ChunkIndirectCommand {
                                    index_count: range.indexCount,
                                    instance_count: 1,
                                    first_index: (firstIndex + range.firstIndex) as u32,
                                    vertex_offset: firstVertex as i32,
                                    first_instance: 0,
                                },
                            ),
                        )
                    },
                }
            }
        },
    }
}

/// The commands of one layer for chunks in the order given.
pub open spec fn layer_commands(chunks: Seq<Option<ChunkDrawInfo>>, layer: nat) -> Result<Seq<ChunkIndirectCommand>, DrawCommandError>
    decreases chunks.len(),
{
    if chunks.len() == 0 {
        Ok(Seq::empty())
    } else {
        match layer_commands(chunks.drop_last(), layer) {
            Err(e) => Err(e),
            Ok(done) => match layer_command(chunks.last(), layer) {
                Err(e) => Err(e),
                Ok(None) => Ok(done),
                Ok(Some(c)) => Ok(done.push(c)),
            },
        }
    }
}

/// The chunks of a frame, in draw order for `layer`: back to front for the
/// translucent layer, front to back for the others.
pub open spec fn layer_order(visible: Seq<VisibleChunk>, layer: nat) -> Seq<Option<ChunkDrawInfo>> {
    let chunks = visible.map_values(|v: VisibleChunk| v.chunk);
    if layer == 3 { chunks.reverse() } else { chunks }
}

/// Commands of a frame, layer after layer, with each layer's byte offset
/// into them and its command count.
pub struct ChunkIndirectBatch {
    pub commands: Vec<ChunkIndirectCommand>,
    pub layerOffsets: [u64; 4],
    pub layerCounts: [u32; 4],
}

/// Bytes of one command.
pub const INDIRECT_COMMAND_STRIDE: u64 = 20;

/// The commands of the layers from `l` on, layer by layer: the first
/// layer that fails, or that has more than `u32::MAX` commands, ends it.
pub open spec fn layers_from(visible: Seq<VisibleChunk>, l: nat) -> Result<Seq<Seq<ChunkIndirectCommand>>, DrawCommandError>
    decreases 4 - l,
{
    if l >= 4 {
        Ok(Seq::empty())
    } else {
        match layer_commands(layer_order(visible, l), l) {
            Err(e) => Err(e),
            Ok(c) => if c.len() > u32::MAX {
                Err(DrawCommandError::TooManyCommands)
            } else {
                match layers_from(visible, l + 1) {
                    Err(e) => Err(e),
                    Ok(rest) => Ok(seq![c] + rest),
                }
            },
        }
    }
}

/// The layers decoded so far, in front of what the rest gives.
pub open spec fn after_layers(
    done: Seq<Seq<ChunkIndirectCommand>>,
    r: Result<Seq<Seq<ChunkIndirectCommand>>, DrawCommandError>,
) -> Result<Seq<Seq<ChunkIndirectCommand>>, DrawCommandError> {
    match r {
        Ok(rest) => Ok(done + rest),
        Err(e) => Err(e),
    }
}

/// The command of one layer of a chunk; see [`layer_command`].
pub fn append_shared_chunk_command(chunk: &Option<ChunkDrawInfo>, layerIndex: usize) -> (r: Result<
    Option<ChunkIndirectCommand>,
    DrawCommandError,
>)
    requires
        layerIndex < 4,
    ensures
        r == layer_command(*chunk, layerIndex as nat),
{
    let info = match chunk {
        Some(info) => info,
        None => {
            return Ok(None);
        },
    };
    let range = info.layerRanges[layerIndex];
    if range.indexCount == 0 {
        return Ok(None);
    }
    match info.storage {
        ChunkStorage::Dedicated => Ok(None),
        ChunkStorage::Shared { firstVertex, firstIndex, .. } => {
            let globalFirstIndex = match firstIndex.checked_add(range.firstIndex) {
                Some(v) => v,
                None => {
                    return Err(DrawCommandError::IndexOffsetOverflow);
                },
            };
            if firstVertex > 0x7fff_ffff {
                return Err(DrawCommandError::VertexOffsetTooLarge);
            }
            Ok(
                Some(
                    ChunkIndirectCommand {
                        index_count: range.indexCount,
                        instance_count: 1,
                        first_index: globalFirstIndex,
                        vertex_offset: firstVertex as i32,
                        first_instance: 0,
                    },
                ),
            )
        },
    }
}

/// Appends the commands of one layer for the frame's chunks, in the layer's
/// draw order; see [`layer_commands`].
fn append_layer(out: &mut Vec<ChunkIndirectCommand>, visible: &Vec<VisibleChunk>, layerIndex: usize) -> (r: Result<
    (),
    DrawCommandError,
>)
    requires
        layerIndex < 4,
    ensures
        match layer_commands(layer_order(visible@, layerIndex as nat), layerIndex as nat) {
            Ok(cmds) => r is Ok && final(out)@ == old(out)@ + cmds,
            Err(e) => r == Err::<(), DrawCommandError>(e),
        },
{
    let ghost order = layer_order(visible@, layerIndex as nat);
    let ghost start = out@;
    let n = visible.len();
    let mut i: usize = 0;
    proof {
        assert(order.take(0) =~= Seq::<Option<ChunkDrawInfo>>::empty());
        assert(start + Seq::<ChunkIndirectCommand>::empty() =~= start);
    }
    while i < n
        invariant
            n == visible@.len(),
            order == layer_order(visible@, layerIndex as nat),
            order.len() == n,
            layerIndex < 4,
            i <= n,
            layer_commands(order.take(i as int), layerIndex as nat) matches Ok(done) && out@ == start + done,
        decreases n - i,
    {
        let idx = if layerIndex == 3 {
            n - 1 - i
        } else {
            i
        };
        let chunk = visible[idx].chunk;
        proof {
            assert(order[i as int] == chunk);
            assert(order.take(i + 1).drop_last() =~= order.take(i as int));
            assert(order.take(i + 1).last() == chunk);
        }
        match append_shared_chunk_command(&chunk, layerIndex) {
            Ok(Some(c)) => {
                let ghost done = layer_commands(order.take(i as int), layerIndex as nat)->Ok_0;
                out.push(c);
                proof {
                    assert(out@ =~= start + done.push(c));
                }
            },
            Ok(None) => {},
            Err(e) => {
                proof {
                    lemma_layer_commands_err_extends(order, layerIndex as nat, i as int + 1);
                }
                return Err(e);
            },
        }
        i = i + 1;
    }
    proof {
        assert(order.take(n as int) =~= order);
    }
    Ok(())
}

/// A failure among the first chunks is the failure of the whole.
proof fn lemma_layer_commands_err_extends(s: Seq<Option<ChunkDrawInfo>>, layer: nat, k: int)
    requires
        0 <= k <= s.len(),
        layer_commands(s.take(k), layer) is Err,
    ensures
        layer_commands(s, layer) == layer_commands(s.take(k), layer),
    decreases s.len() - k,
{
    if k < s.len() {
        assert(s.take(k + 1).drop_last() =~= s.take(k));
        lemma_layer_commands_err_extends(s, layer, k + 1);
    } else {
        assert(s.take(k) =~= s);
    }
}

/// Builds the commands of a frame: solid, cutout-mipped and cutout layers
/// front to back, then the translucent layer back to front, with each
/// layer's byte offset (at 20 bytes a command) and count; see
/// [`layers_from`].
pub fn buildChunkIndirectCommands(visible: &Vec<VisibleChunk>) -> (r: Result<ChunkIndirectBatch, DrawCommandError>)
    ensures
        match layers_from(visible@, 0) {
            Err(e) => r == Err::<ChunkIndirectBatch, DrawCommandError>(e),
            Ok(layers) => r is Ok && layers.len() == 4 && {
                let b = r->Ok_0;
                &&& b.commands@ == layers[0] + layers[1] + layers[2] + layers[3]
                &&& b.layerCounts@ == seq![
                    layers[0].len() as u32,
                    layers[1].len() as u32,
                    layers[2].len() as u32,
                    layers[3].len() as u32,
                ]
                &&& b.layerOffsets@ == seq![
                    0u64,
                    (layers[0].len() * 20) as u64,
                    ((layers[0].len() + layers[1].len()) * 20) as u64,
                    ((layers[0].len() + layers[1].len() + layers[2].len()) * 20) as u64,
                ]
            },
        },
{
    let mut commands: Vec<ChunkIndirectCommand> = Vec::new();
    let mut offsets: [u64; 4] = [0, 0, 0, 0];
    let mut counts: [u32; 4] = [0, 0, 0, 0];
    let mut layer: usize = 0;
    let ghost mut done: Seq<Seq<ChunkIndirectCommand>> = Seq::empty();
    proof {
        assert(after_layers(done, layers_from(visible@, 0)) == layers_from(visible@, 0)) by {
            match layers_from(visible@, 0) {
                Ok(rest) => {
                    assert(done + rest =~= rest);
                },
                Err(_) => {},
            }
        }
    }
    while layer < 4
        invariant
            layer <= 4,
            done.len() == layer,
            layers_from(visible@, 0) == after_layers(done, layers_from(visible@, layer as nat)),
            forall|l: int| 0 <= l < layer ==> (#[trigger] done[l]).len() <= u32::MAX,
            commands@ == flatten_layers(done),
            commands@.len() <= layer * 0xffff_ffff,
            forall|l: int| 0 <= l < layer ==> #[trigger] counts@[l] == done[l].len(),
            forall|l: int| 0 <= l < layer ==> #[trigger] offsets@[l] == flatten_layers(done.take(l)).len() * 20,
        decreases 4 - layer,
    {
        let before = commands.len();
        proof {
            assert(done.take(layer as int) =~= done);
        }
        offsets[layer] = (before as u64) * 20;
        match append_layer(&mut commands, visible, layer) {
            Ok(()) => {},
            Err(e) => {
                return Err(e);
            },
        }
        let added = commands.len() - before;
        if added > 0xffff_ffff {
            return Err(DrawCommandError::TooManyCommands);
        }
        counts[layer] = added as u32;
        proof {
            let cmds = layer_commands(layer_order(visible@, layer as nat), layer as nat)->Ok_0;
            assert(flatten_layers(done.push(cmds)) =~= flatten_layers(done) + cmds) by {
                assert(done.push(cmds).drop_last() =~= done);
            }
            assert forall|l: int| 0 <= l <= layer implies #[trigger] offsets@[l] == flatten_layers(
                done.push(cmds).take(l),
            ).len() * 20 by {
                assert(done.push(cmds).take(l) =~= done.take(l));
            }
            match layers_from(visible@, (layer + 1) as nat) {
                Ok(rest) => {
                    assert(done + (seq![cmds] + rest) =~= done.push(cmds) + rest);
                },
                Err(_) => {},
            }
            done = done.push(cmds);
        }
        layer = layer + 1;
    }
    proof {
        let layers = layers_from(visible@, 0)->Ok_0;
        assert(layers_from(visible@, 4) == Ok::<Seq<Seq<ChunkIndirectCommand>>, DrawCommandError>(Seq::empty()));
        assert(layers =~= done);
        let e = Seq::<Seq<ChunkIndirectCommand>>::empty();
        assert(done.take(0) =~= e);
        assert(done.take(1).drop_last() =~= done.take(0));
        assert(done.take(2).drop_last() =~= done.take(1));
        assert(done.take(3).drop_last() =~= done.take(2));
        assert(done.take(4) =~= done);
        assert(done.drop_last() =~= done.take(3));
        assert(flatten_layers(done.take(0)) =~= Seq::<ChunkIndirectCommand>::empty());
        assert(done.take(1).last() == done[0]);
        assert(done.take(2).last() == done[1]);
        assert(done.take(3).last() == done[2]);
        assert(flatten_layers(done.take(1)) == flatten_layers(done.take(0)) + done[0]);
        assert(flatten_layers(done.take(1)) =~= done[0]);
        assert(flatten_layers(done.take(2)) == flatten_layers(done.take(1)) + done[1]);
        assert(flatten_layers(done.take(3)) == flatten_layers(done.take(2)) + done[2]);
        assert(flatten_layers(done) == flatten_layers(done.take(3)) + done[3]);
        assert(flatten_layers(done.take(2)) =~= done[0] + done[1]);
        assert(flatten_layers(done.take(3)) =~= done[0] + done[1] + done[2]);
        assert(flatten_layers(done) =~= done[0] + done[1] + done[2] + done[3]);
        assert(offsets@ =~= seq![
            0u64,
            (done[0].len() * 20) as u64,
            ((done[0].len() + done[1].len()) * 20) as u64,
            ((done[0].len() + done[1].len() + done[2].len()) * 20) as u64,
        ]);
        assert(counts@ =~= seq![done[0].len() as u32, done[1].len() as u32, done[2].len() as u32, done[3].len() as u32]);
    }
    Ok(ChunkIndirectBatch { commands, layerOffsets: offsets, layerCounts: counts })
}

/// The layers' commands one after another.
pub open spec fn flatten_layers(layers: Seq<Seq<ChunkIndirectCommand>>) -> Seq<ChunkIndirectCommand>
    decreases layers.len(),
{
    if layers.len() == 0 {
        Seq::empty()
    } else {
        flatten_layers(layers.drop_last()) + layers.last()
    }
}

// ---------------------------------------------------------------------------
// Recording a layer: which submissions, in which order.
// ---------------------------------------------------------------------------

/// One submission while a layer is recorded.
#[derive(Debug, Clone, Copy, PartialEq, Eq, Structural)]
pub enum DrawStep {
    /// `commandCount` consecutive commands of the layer, from its
    /// `firstCommand`-th, drawn from the shared arenas.
    SharedRun { firstCommand: u32, commandCount: u32 },
    /// A chunk in buffers of its own, drawn in place with its layer range.
    Dedicated { firstIndex: u32, indexCount: u32 },
}

/// Where recording a layer stands: the submissions decided so far, the
/// position in the layer's commands, the open run of shared chunks, and the
/// chunks drawn so far.
pub struct LayerPlanState {
    pub steps: Seq<DrawStep>,
    pub cursor: u32,
    pub runStart: u32,
    pub runCount: u32,
    pub logical: u64,
}

/// `x + 1`, held at `u32::MAX`.
pub open spec fn inc_u32(x: u32) -> u32 {
    if x == u32::MAX { x } else { (x + 1) as u32 }
}

/// `x + 1`, held at `u64::MAX`.
pub open spec fn inc_u64(x: u64) -> u64 {
    if x == u64::MAX { x } else { (x + 1) as u64 }
}

/// Nothing recorded yet.
pub open spec fn plan_start() -> LayerPlanState {
    LayerPlanState { steps: Seq::empty(), cursor: 0, runStart: 0, runCount: 0, logical: 0 }
}

/// The submissions decided so far, with the open run closed.
pub open spec fn plan_steps_closed(st: LayerPlanState) -> Seq<DrawStep> {
    if st.runCount > 0 {
        st.steps.push(DrawStep::SharedRun { firstCommand: st.runStart, commandCount: st.runCount })
    } else {
        st.steps
    }
}

/// One chunk of the layer: a chunk without a mesh or with an empty layer is
/// passed over; a shared one joins the open run (opening one at the
/// cursor); a dedicated one closes the open run and is drawn in place.
pub open spec fn plan_step(st: LayerPlanState, chunk: Option<ChunkDrawInfo>, layer: nat) -> LayerPlanState {
    match chunk {
        None => st,
        Some(info) => {
            let range = info.layerRanges@[layer as int];
            if range.indexCount == 0 {
                st
            } else {
                match info.storage {
                    ChunkStorage::Shared { .. } => LayerPlanState {
                        steps: st.steps,
                        cursor: inc_u32(st.cursor),
                        runStart: if st.runCount == 0 { st.cursor } else { st.runStart },
                        runCount: inc_u32(st.runCount),
                        logical: inc_u64(st.logical),
                    },
                    ChunkStorage::Dedicated => LayerPlanState {
                        steps: plan_steps_closed(st).push(
                            DrawStep::Dedicated { firstIndex: range.firstIndex, indexCount: range.indexCount },
                        ),
                        cursor: st.cursor,
                        runStart: st.runStart,
                        runCount: 0,
                        logical: inc_u64(st.logical),
                    },
                }
            }
        },
    }
}

/// Recording state after the chunks given, in order.
pub open spec fn plan_prefix(chunks: Seq<Option<ChunkDrawInfo>>, layer: nat) -> LayerPlanState
    decreases chunks.len(),
{
    if chunks.len() == 0 {
        plan_start()
    } else {
        plan_step(plan_prefix(chunks.drop_last(), layer), chunks.last(), layer)
    }
}

/// How a layer is recorded: its submissions in order, and how many chunks
/// it draws.
pub struct LayerDrawPlan {
    pub steps: Vec<DrawStep>,
    pub logicalRanges: u64,
    /// Commands of the layer that the shared runs cover.
    pub sharedCommands: u32,
}

/// Plans the recording of one layer of a frame, in the layer's draw order:
/// consecutive shared chunks collapse into one run of commands, and a
/// dedicated chunk closes the run and is drawn in place, so the order of
/// the chunks is kept; see [`plan_step`].
pub fn planChunkLayer(visible: &Vec<VisibleChunk>, layerIndex: usize) -> (plan: LayerDrawPlan)
    requires
        layerIndex < 4,
    ensures
        ({
            let st = plan_prefix(layer_order(visible@, layerIndex as nat), layerIndex as nat);
            &&& plan.steps@ == plan_steps_closed(st)
            &&& plan.logicalRanges == st.logical
            &&& plan.sharedCommands == st.cursor
        }),
{
    let ghost order = layer_order(visible@, layerIndex as nat);
    let n = visible.len();
    let mut steps: Vec<DrawStep> = Vec::new();
    let mut cursor: u32 = 0;
    let mut runStart: u32 = 0;
    let mut runCount: u32 = 0;
    let mut logical: u64 = 0;
    let mut i: usize = 0;
    proof {
        assert(order.take(0) =~= Seq::<Option<ChunkDrawInfo>>::empty());
    }
    while i < n
        invariant
            n == visible@.len(),
            order == layer_order(visible@, layerIndex as nat),
            order.len() == n,
            layerIndex < 4,
            i <= n,
            plan_prefix(order.take(i as int), layerIndex as nat) == (LayerPlanState {
                steps: steps@,
                cursor,
                runStart,
                runCount,
                logical,
            }),
        decreases n - i,
    {
        let idx = if layerIndex == 3 {
            n - 1 - i
        } else {
            i
        };
        let chunk = visible[idx].chunk;
        proof {
            assert(order[i as int] == chunk);
            assert(order.take(i + 1).drop_last() =~= order.take(i as int));
            assert(order.take(i + 1).last() == chunk);
        }
        if let Some(info) = chunk {
            let range = info.layerRanges[layerIndex];
            if range.indexCount != 0 {
                match info.storage {
                    ChunkStorage::Shared { .. } => {
                        if runCount == 0 {
                            runStart = cursor;
                        }
                        runCount = runCount.saturating_add(1);
                        cursor = cursor.saturating_add(1);
                        logical = logical.saturating_add(1);
                    },
                    ChunkStorage::Dedicated => {
                        if runCount > 0 {
                            steps.push(DrawStep::SharedRun { firstCommand: runStart, commandCount: runCount });
                            runCount = 0;
                        }
                        steps.push(DrawStep::Dedicated { firstIndex: range.firstIndex, indexCount: range.indexCount });
                        logical = logical.saturating_add(1);
                    },
                }
            }
        }
        i = i + 1;
    }
    if runCount > 0 {
        steps.push(DrawStep::SharedRun { firstCommand: runStart, commandCount: runCount });
    }
    proof {
        assert(order.take(n as int) =~= order);
    }
    LayerDrawPlan { steps, logicalRanges: logical, sharedCommands: cursor }
}

/// Indices that the commands draw, summed.
pub open spec fn index_sum(cmds: Seq<ChunkIndirectCommand>) -> nat
    decreases cmds.len(),
{
    if cmds.len() == 0 {
        0
    } else {
        index_sum(cmds.drop_last()) + cmds.last().index_count as nat
    }
}

/// Position in the frame's commands of a run's first command: its byte
/// offset past the layer's, divided by the command size.
pub open spec fn run_first(layerOffset: u64, firstCommand: u32) -> usize {
    ((layerOffset + firstCommand * 20) / 20) as usize
}

/// One past a run's last command, held at `usize::MAX`.
pub open spec fn run_end(layerOffset: u64, firstCommand: u32, commandCount: u32) -> int {
    let first = run_first(layerOffset, firstCommand) as int;
    if first + commandCount > usize::MAX { usize::MAX as int } else { first + commandCount }
}

/// Indices that a run draws: none when it reaches past the commands.
pub open spec fn run_indices(
    commands: Seq<ChunkIndirectCommand>,
    layerOffset: u64,
    firstCommand: u32,
    commandCount: u32,
) -> nat {
    let first = run_first(layerOffset, firstCommand) as int;
    let end = run_end(layerOffset, firstCommand, commandCount);
    if end <= commands.len() { index_sum(commands.subrange(first, end)) } else { 0 }
}

/// A run can be submitted without an offset or a count past 64 bits.
pub open spec fn run_fits(
    commands: Seq<ChunkIndirectCommand>,
    layerOffset: u64,
    firstCommand: u32,
    commandCount: u32,
    hasIndirectBuffer: bool,
) -> bool {
    commandCount == 0 || !hasIndirectBuffer || (layerOffset + firstCommand * 20 <= u64::MAX && run_indices(
        commands,
        layerOffset,
        firstCommand,
        commandCount,
    ) <= u64::MAX)
}

/// Submissions and indices of a shared run: nothing for an empty run or
/// without an indirect buffer; else one submission with multi-draw, one
/// per command without it.
pub open spec fn run_counts(
    commands: Seq<ChunkIndirectCommand>,
    layerOffset: u64,
    firstCommand: u32,
    commandCount: u32,
    multiDrawIndirect: bool,
    hasIndirectBuffer: bool,
) -> (u64, u64) {
    if commandCount == 0 || !hasIndirectBuffer {
        (0, 0)
    } else {
        (
            if multiDrawIndirect { 1 } else { commandCount as u64 },
            run_indices(commands, layerOffset, firstCommand, commandCount) as u64,
        )
    }
}

proof fn lemma_index_sum_prefix(t: Seq<ChunkIndirectCommand>, k: int)
    requires
        0 <= k <= t.len(),
    ensures
        index_sum(t.take(k)) <= index_sum(t),
    decreases t.len(),
{
    if k < t.len() {
        assert(t.drop_last().take(k) =~= t.take(k));
        lemma_index_sum_prefix(t.drop_last(), k);
    } else {
        assert(t.take(k) =~= t);
    }
}

/// Submissions and indices of a shared run of a layer; see [`run_counts`].
pub fn shared_run_counts(
    commands: &Vec<ChunkIndirectCommand>,
    layerOffset: u64,
    firstCommand: u32,
    commandCount: u32,
    multiDrawIndirect: bool,
    hasIndirectBuffer: bool,
) -> (r: (u64, u64))
    requires
        run_fits(commands@, layerOffset, firstCommand, commandCount, hasIndirectBuffer),
    ensures
        r == run_counts(commands@, layerOffset, firstCommand, commandCount, multiDrawIndirect, hasIndirectBuffer),
{
    if commandCount == 0 || !hasIndirectBuffer {
        return (0, 0);
    }
    let offset = layerOffset + (firstCommand as u64) * 20;
    let first = (offset / 20) as usize;
    let last = first.saturating_add(commandCount as usize);
    let mut submitted: u64 = 0;
    if last <= commands.len() {
        let ghost run = commands@.subrange(first as int, last as int);
        let mut k: usize = first;
        proof {
            assert(run.take(0) =~= Seq::<ChunkIndirectCommand>::empty());
        }
        while k < last
            invariant
                first <= k <= last <= commands@.len(),
                run == commands@.subrange(first as int, last as int),
                index_sum(run) <= u64::MAX,
                submitted == index_sum(run.take(k - first)),
            decreases last - k,
        {
            proof {
                assert(run.take(k - first + 1).drop_last() =~= run.take(k - first));
                assert(run.take(k - first + 1).last() == commands@[k as int]);
                lemma_index_sum_prefix(run, k - first + 1);
            }
            submitted = submitted + commands[k].index_count as u64;
            k = k + 1;
        }
        proof {
            assert(run.take(k - first) =~= run);
        }
    }
    let calls: u64 = if multiDrawIndirect {
        1
    } else {
        commandCount as u64
    };
    (calls, submitted)
}

/// Submissions and indices of a layer's plan, each added in the plan's
/// order and held at `u64::MAX`: a shared run counts as [`run_counts`]
/// says, a dedicated chunk as one submission of its range.
pub open spec fn layer_counts(
    steps: Seq<DrawStep>,
    commands: Seq<ChunkIndirectCommand>,
    layerOffset: u64,
    multiDrawIndirect: bool,
    hasIndirectBuffer: bool,
) -> (u64, u64)
    decreases steps.len(),
{
    if steps.len() == 0 {
        (0, 0)
    } else {
        let before = layer_counts(steps.drop_last(), commands, layerOffset, multiDrawIndirect, hasIndirectBuffer);
        let (calls, indices) = match steps.last() {
            DrawStep::SharedRun { firstCommand, commandCount } => run_counts(
                commands,
                layerOffset,
                firstCommand,
                commandCount,
                multiDrawIndirect,
                hasIndirectBuffer,
            ),
            DrawStep::Dedicated { indexCount, .. } => (1u64, indexCount as u64),
        };
        (sat_add_u64(before.0, calls), sat_add_u64(before.1, indices))
    }
}

/// `a + b`, held at `u64::MAX`.
pub open spec fn sat_add_u64(a: u64, b: u64) -> u64 {
    if a + b > u64::MAX { u64::MAX } else { (a + b) as u64 }
}

/// Every shared run of the plan can be submitted; see [`run_fits`].
pub open spec fn plan_fits(
    steps: Seq<DrawStep>,
    commands: Seq<ChunkIndirectCommand>,
    layerOffset: u64,
    hasIndirectBuffer: bool,
) -> bool {
    forall|j: int|
        0 <= j < steps.len() ==> match #[trigger] steps[j] {
            DrawStep::SharedRun { firstCommand, commandCount } => run_fits(
                commands,
                layerOffset,
                firstCommand,
                commandCount,
                hasIndirectBuffer,
            ),
            DrawStep::Dedicated { .. } => true,
        }
}

/// What recording a layer by its plan submits: the submissions, the chunks
/// drawn and the indices drawn; see [`layer_counts`].
pub fn chunk_layer_counts(
    plan: &LayerDrawPlan,
    commands: &Vec<ChunkIndirectCommand>,
    layerOffset: u64,
    multiDrawIndirect: bool,
    hasIndirectBuffer: bool,
) -> (r: (u64, u64, u64))
    requires
        plan_fits(plan.steps@, commands@, layerOffset, hasIndirectBuffer),
    ensures
        ({
            let c = layer_counts(plan.steps@, commands@, layerOffset, multiDrawIndirect, hasIndirectBuffer);
            r == (c.0, plan.logicalRanges, c.1)
        }),
{
    let mut calls: u64 = 0;
    let mut indices: u64 = 0;
    let mut j: usize = 0;
    let ghost steps = plan.steps@;
    proof {
        assert(steps.take(0) =~= Seq::<DrawStep>::empty());
    }
    while j < plan.steps.len()
        invariant
            steps == plan.steps@,
            j <= steps.len(),
            plan_fits(steps, commands@, layerOffset, hasIndirectBuffer),
            (calls, indices) == layer_counts(
                steps.take(j as int),
                commands@,
                layerOffset,
                multiDrawIndirect,
                hasIndirectBuffer,
            ),
        decreases steps.len() - j,
    {
        proof {
            assert(steps.take(j + 1).drop_last() =~= steps.take(j as int));
            assert(steps.take(j + 1).last() == steps[j as int]);
        }
        let (c, i) = match plan.steps[j] {
            DrawStep::SharedRun { firstCommand, commandCount } => {
                proof {
                    assert(match steps[j as int] {
                        DrawStep::SharedRun { firstCommand, commandCount } => run_fits(
                            commands@,
                            layerOffset,
                            firstCommand,
                            commandCount,
                            hasIndirectBuffer,
                        ),
                        DrawStep::Dedicated { .. } => true,
                    });
                }
                shared_run_counts(commands, layerOffset, firstCommand, commandCount, multiDrawIndirect, hasIndirectBuffer)
            },
            DrawStep::Dedicated { indexCount, .. } => (1u64, indexCount as u64),
        };
        calls = calls.saturating_add(c);
        indices = indices.saturating_add(i);
        j = j + 1;
    }
    proof {
        assert(steps.take(j as int) =~= steps);
    }
    (calls, plan.logicalRanges, indices)
}

/// Commands that the shared runs among `steps` cover.
pub open spec fn shared_total(steps: Seq<DrawStep>) -> nat
    decreases steps.len(),
{
    if steps.len() == 0 {
        0
    } else {
        shared_total(steps.drop_last()) + match steps.last() {
            DrawStep::SharedRun { commandCount, .. } => commandCount as nat,
            DrawStep::Dedicated { .. } => 0,
        }
    }
}

/// Each shared run starts where the runs before it end.
pub open spec fn runs_back_to_back(steps: Seq<DrawStep>) -> bool {
    forall|j: int|
        0 <= j < steps.len() ==> match #[trigger] steps[j] {
            DrawStep::SharedRun { firstCommand, .. } => firstCommand == shared_total(steps.take(j)),
            DrawStep::Dedicated { .. } => true,
        }
}

/// What recording keeps while no counter is held at its limit.
pub open spec fn plan_consistent(st: LayerPlanState) -> bool {
    &&& runs_back_to_back(st.steps)
    &&& shared_total(st.steps) + st.runCount == st.cursor
    &&& st.runCount > 0 ==> st.runStart == shared_total(st.steps)
}

proof fn lemma_shared_total_push(steps: Seq<DrawStep>, d: DrawStep)
    ensures
        shared_total(steps.push(d)) == shared_total(steps) + match d {
            DrawStep::SharedRun { commandCount, .. } => commandCount as nat,
            DrawStep::Dedicated { .. } => 0,
        },
        runs_back_to_back(steps) && match d {
            DrawStep::SharedRun { firstCommand, .. } => firstCommand == shared_total(steps),
            DrawStep::Dedicated { .. } => true,
        } ==> runs_back_to_back(steps.push(d)),
{
    assert(steps.push(d).drop_last() =~= steps);
    if runs_back_to_back(steps) && match d {
        DrawStep::SharedRun { firstCommand, .. } => firstCommand == shared_total(steps),
        DrawStep::Dedicated { .. } => true,
    } {
        assert forall|j: int| 0 <= j < steps.push(d).len() implies match #[trigger] steps.push(d)[j] {
            DrawStep::SharedRun { firstCommand, .. } => firstCommand == shared_total(steps.push(d).take(j)),
            DrawStep::Dedicated { .. } => true,
        } by {
            if j < steps.len() {
                assert(steps.push(d).take(j) =~= steps.take(j));
                assert(steps.push(d)[j] == steps[j]);
            } else {
                assert(steps.push(d).take(j) =~= steps);
            }
        }
    }
}

/// While the layer is walked, the plan's shared runs follow one another and
/// its cursor counts the layer's commands so far.
proof fn lemma_plan_prefix_counts(s: Seq<Option<ChunkDrawInfo>>, layer: nat)
    requires
        layer < 4,
        s.len() < u32::MAX,
        layer_commands(s, layer) is Ok,
    ensures
        plan_consistent(plan_prefix(s, layer)),
        plan_prefix(s, layer).cursor == layer_commands(s, layer)->Ok_0.len(),
        layer_commands(s, layer)->Ok_0.len() <= s.len(),
    decreases s.len(),
{
    if s.len() == 0 {
        assert(runs_back_to_back(Seq::<DrawStep>::empty()));
    } else {
        let prev = s.drop_last();
        assert(layer_commands(prev, layer) is Ok);
        lemma_plan_prefix_counts(prev, layer);
        let st = plan_prefix(prev, layer);
        let done = layer_commands(prev, layer)->Ok_0;
        assert(plan_prefix(s, layer) == plan_step(st, s.last(), layer));
        match s.last() {
            None => {
                assert(layer_commands(s, layer)->Ok_0 == done);
            },
            Some(info) => {
                let range = info.layerRanges@[layer as int];
                if range.indexCount == 0 {
                    assert(layer_commands(s, layer)->Ok_0 == done);
                } else {
                    match info.storage {
                        ChunkStorage::Shared { .. } => {
                            let c = layer_command(s.last(), layer)->Ok_0->Some_0;
                            assert(layer_commands(s, layer)->Ok_0 == done.push(c));
                        },
                        ChunkStorage::Dedicated => {
                            assert(layer_commands(s, layer)->Ok_0 == done);
                            let closed = plan_steps_closed(st);
                            if st.runCount > 0 {
                                lemma_shared_total_push(
                                    st.steps,
                                    DrawStep::SharedRun { firstCommand: st.runStart, commandCount: st.runCount },
                                );
                            }
                            assert(shared_total(closed) == st.cursor);
                            assert(runs_back_to_back(closed));
                            lemma_shared_total_push(
                                closed,
                                DrawStep::Dedicated { firstIndex: range.firstIndex, indexCount: range.indexCount },
                            );
                        },
                    }
                }
            },
        }
    }
}

/// The layers of a frame whose commands build are the layers' own commands.
proof fn lemma_layers_from_parts(visible: Seq<VisibleChunk>, k: nat, l: nat)
    requires
        k <= l < 4,
        layers_from(visible, k) is Ok,
    ensures
        layer_commands(layer_order(visible, l), l) is Ok,
        layers_from(visible, k)->Ok_0.len() == 4 - k,
        layers_from(visible, k)->Ok_0[l - k] == layer_commands(layer_order(visible, l), l)->Ok_0,
    decreases 4 - k,
{
    lemma_layers_from_len(visible, k);
    if k < l {
        lemma_layers_from_parts(visible, k + 1, l);
    }
}

proof fn lemma_layers_from_len(visible: Seq<VisibleChunk>, k: nat)
    requires
        k <= 4,
        layers_from(visible, k) is Ok,
    ensures
        layers_from(visible, k)->Ok_0.len() == 4 - k,
    decreases 4 - k,
{
    if k < 4 {
        lemma_layers_from_len(visible, k + 1);
    }
}

/// Recording a layer walks the layer's commands once, in order: the shared
/// runs of its plan follow one another from the first command, and together
/// with the cursor they cover exactly the commands that the frame has for
/// that layer.
pub proof fn lemma_plan_covers_layer_commands(visible: Seq<VisibleChunk>, layer: nat)
    requires
        layer < 4,
        visible.len() < u32::MAX,
        layers_from(visible, 0) is Ok,
    ensures
        ({
            let st = plan_prefix(layer_order(visible, layer), layer);
            &&& runs_back_to_back(plan_steps_closed(st))
            &&& shared_total(plan_steps_closed(st)) == st.cursor
            &&& st.cursor == layers_from(visible, 0)->Ok_0[layer as int].len()
        }),
{
    let order = layer_order(visible, layer);
    lemma_layers_from_parts(visible, 0, layer);
    lemma_plan_prefix_counts(order, layer);
    let st = plan_prefix(order, layer);
    if st.runCount > 0 {
        lemma_shared_total_push(st.steps, DrawStep::SharedRun { firstCommand: st.runStart, commandCount: st.runCount });
    }
}

// ---------------------------------------------------------------------------
// The signature that tells whether a frame's commands changed.
// ---------------------------------------------------------------------------

/// FNV-1a offset basis.
pub const FNV_OFFSET: u64 = 0xcbf29ce484222325;
/// FNV-1a prime.
pub const FNV_PRIME: u64 = 0x100000001b3;

/// Byte `k` (little-endian) of `v`.
pub open spec fn le_byte(v: u64, k: nat) -> u64 {
    (v >> ((8 * k) as u64)) & 0xff
}

/// FNV-1a of the first `n` little-endian bytes of `v`, from `h`.
pub open spec fn mix_bytes(h: u64, v: u64, n: nat) -> u64
    decreases n,
{
    if n == 0 {
        h
    } else {
        vstd::wrapping::u64_specs::wrapping_mul(mix_bytes(h, v, (n - 1) as nat) ^ le_byte(v, (n - 1) as nat), FNV_PRIME)
    }
}

/// FNV-1a of the eight little-endian bytes of `v`, from `h`.
pub open spec fn mix(h: u64, v: u64) -> u64 {
    mix_bytes(h, v, 8)
}

/// FNV-1a of the words `ws`, in order, from `h`.
pub open spec fn mix_all(h: u64, ws: Seq<u64>) -> u64
    decreases ws.len(),
{
    if ws.len() == 0 {
        h
    } else {
        mix(mix_all(h, ws.drop_last()), ws.last())
    }
}

/// Words that describe how a chunk is drawn: its key, then `u64::MAX`
/// without a resident mesh, or its storage (1 and its arena position and
/// counts, or 2) and its four layer ranges.
pub open spec fn chunk_words(v: VisibleChunk) -> Seq<u64> {
    seq![v.key.x as u32 as u64, v.key.y as u32 as u64, v.key.z as u32 as u64] + match v.chunk {
        None => seq![u64::MAX],
        Some(info) => (match info.storage {
            ChunkStorage::Shared { firstVertex, vertexCount, firstIndex, indexCount } => seq![
                1u64,
                firstVertex as u64,
                vertexCount as u64,
                firstIndex as u64,
                indexCount as u64,
            ],
            ChunkStorage::Dedicated => seq![2u64],
        }) + seq![
            info.layerRanges@[0].firstIndex as u64,
            info.layerRanges@[0].indexCount as u64,
            info.layerRanges@[1].firstIndex as u64,
            info.layerRanges@[1].indexCount as u64,
            info.layerRanges@[2].firstIndex as u64,
            info.layerRanges@[2].indexCount as u64,
            info.layerRanges@[3].firstIndex as u64,
            info.layerRanges@[3].indexCount as u64,
        ],
    }
}

/// Words of all chunks, in order.
pub open spec fn chunks_words(vs: Seq<VisibleChunk>) -> Seq<u64>
    decreases vs.len(),
{
    if vs.len() == 0 {
        Seq::empty()
    } else {
        chunks_words(vs.drop_last()) + chunk_words(vs.last())
    }
}

/// Signature of a frame's draw commands: FNV-1a of the chunk count and
/// every chunk's words.
pub open spec fn frame_signature(vs: Seq<VisibleChunk>) -> u64 {
    mix_all(FNV_OFFSET, seq![vs.len() as u64] + chunks_words(vs))
}

/// Mixing a concatenation mixes one part after the other.
pub proof fn lemma_mix_all_concat(h: u64, a: Seq<u64>, b: Seq<u64>)
    ensures
        mix_all(h, a + b) == mix_all(mix_all(h, a), b),
    decreases b.len(),
{
    if b.len() == 0 {
        assert(a + b =~= a);
    } else {
        assert((a + b).drop_last() =~= a + b.drop_last());
        lemma_mix_all_concat(h, a, b.drop_last());
    }
}

/// FNV-1a of the little-endian bytes of `v`, from `h`.
fn mix_word(h: u64, v: u64) -> (r: u64)
    ensures
        r == mix(h, v),
{
    let mut acc = h;
    let mut k: u64 = 0;
    while k < 8
        invariant
            k <= 8,
            acc == mix_bytes(h, v, k as nat),
        decreases 8 - k,
    {
        let byte = (v >> (8 * k)) & 0xff;
        acc = (acc ^ byte).wrapping_mul(FNV_PRIME);
        k = k + 1;
    }
    acc
}

/// FNV-1a of the words `ws`, from `h`.
fn mix_words(h: u64, ws: &Vec<u64>) -> (r: u64)
    ensures
        r == mix_all(h, ws@),
{
    let mut acc = h;
    let mut i: usize = 0;
    while i < ws.len()
        invariant
            i <= ws@.len(),
            acc == mix_all(h, ws@.take(i as int)),
        decreases ws@.len() - i,
    {
        proof {
            assert(ws@.take(i + 1).drop_last() =~= ws@.take(i as int));
        }
        acc = mix_word(acc, ws[i]);
        i = i + 1;
    }
    proof {
        assert(ws@.take(i as int) =~= ws@);
    }
    acc
}

/// The words of one chunk; see [`chunk_words`].
fn chunk_word_list(v: &VisibleChunk) -> (ws: Vec<u64>)
    ensures
        ws@ == chunk_words(*v),
{
    let mut ws: Vec<u64> = Vec::new();
    ws.push(v.key.x as u32 as u64);
    ws.push(v.key.y as u32 as u64);
    ws.push(v.key.z as u32 as u64);
    match &v.chunk {
        None => {
            ws.push(u64::MAX);
        },
        Some(info) => {
            match info.storage {
                ChunkStorage::Shared { firstVertex, vertexCount, firstIndex, indexCount } => {
                    ws.push(1);
                    ws.push(firstVertex as u64);
                    ws.push(vertexCount as u64);
                    ws.push(firstIndex as u64);
                    ws.push(indexCount as u64);
                },
                ChunkStorage::Dedicated => {
                    ws.push(2);
                },
            }
            let mut l: usize = 0;
            let ghost head = ws@;
            while l < 4
                invariant
                    l <= 4,
                    ws@ == head + Seq::new((2 * l) as nat, |j: int| if j % 2 == 0 {
                        info.layerRanges@[j / 2].firstIndex as u64
                    } else {
                        info.layerRanges@[j / 2].indexCount as u64
                    }),
                decreases 4 - l,
            {
                let range = info.layerRanges[l];
                ws.push(range.firstIndex as u64);
                ws.push(range.indexCount as u64);
                l = l + 1;
                proof {
                    assert(ws@ =~= head + Seq::new((2 * l) as nat, |j: int| if j % 2 == 0 {
                        info.layerRanges@[j / 2].firstIndex as u64
                    } else {
                        info.layerRanges@[j / 2].indexCount as u64
                    }));
                }
            }
        },
    }
    proof {
        assert(ws@ =~= chunk_words(*v));
    }
    ws
}

/// Signature of a frame's draw commands; see [`frame_signature`].
pub fn chunk_indirect_signature(visible: &Vec<VisibleChunk>) -> (h: u64)
    ensures
        h == frame_signature(visible@),
{
    let mut hash = mix_word(FNV_OFFSET, visible.len() as u64);
    let mut i: usize = 0;
    proof {
        assert(mix_all(FNV_OFFSET, seq![visible@.len() as u64]) == hash) by {
            let one = seq![visible@.len() as u64];
            assert(one.drop_last() =~= Seq::<u64>::empty());
            assert(mix_all(FNV_OFFSET, one.drop_last()) == FNV_OFFSET);
            assert(one.last() == visible@.len() as u64);
            assert(mix_all(FNV_OFFSET, one) == mix(mix_all(FNV_OFFSET, one.drop_last()), one.last()));
        }
        assert(visible@.take(0) =~= Seq::<VisibleChunk>::empty());
        assert(seq![visible@.len() as u64] + chunks_words(visible@.take(0)) =~= seq![visible@.len() as u64]);
    }
    while i < visible.len()
        invariant
            i <= visible@.len(),
            hash == mix_all(FNV_OFFSET, seq![visible@.len() as u64] + chunks_words(visible@.take(i as int))),
        decreases visible@.len() - i,
    {
        let ws = chunk_word_list(&visible[i]);
        let ghost before = seq![visible@.len() as u64] + chunks_words(visible@.take(i as int));
        proof {
            assert(visible@.take(i + 1).drop_last() =~= visible@.take(i as int));
            assert(visible@.take(i + 1).last() == visible@[i as int]);
            assert(seq![visible@.len() as u64] + chunks_words(visible@.take(i + 1)) =~= before + ws@);
            lemma_mix_all_concat(FNV_OFFSET, before, ws@);
        }
        hash = mix_words(hash, &ws);
        i = i + 1;
    }
    proof {
        assert(visible@.take(i as int) =~= visible@);
    }
    hash
}

/// For each frame slot, the signature of the frame whose commands it holds.
pub struct IndirectSignatures {
    signatures: Vec<Option<u64>>,
}

impl IndirectSignatures {
    pub closed spec fn view(&self) -> Seq<Option<u64>> {
        self.signatures@
    }

    /// `slots` frame slots, none holding commands.
    pub fn new(slots: usize) -> (r: IndirectSignatures)
        ensures
            r@ == Seq::new(slots as nat, |i: int| None::<u64>),
    {
        let mut signatures: Vec<Option<u64>> = Vec::new();
        let mut i: usize = 0;
        while i < slots
            invariant
                i <= slots,
                signatures@ == Seq::new(i as nat, |j: int| None::<u64>),
            decreases slots - i,
        {
            signatures.push(None);
            i = i + 1;
            proof {
                assert(signatures@ =~= Seq::new(i as nat, |j: int| None::<u64>));
            }
        }
        IndirectSignatures { signatures }
    }

    /// Commands for a frame in frame slot `slot`: none when the slot
    /// already holds the commands of a frame with this signature; else the
    /// frame's commands, the slot then holding them. A missing slot and the
    /// failures of [`buildChunkIndirectCommands`] are refused, the slot kept.
    pub fn prepare(&mut self, slot: usize, visible: &Vec<VisibleChunk>) -> (r: Result<
        Option<ChunkIndirectBatch>,
        DrawCommandError,
    >)
        ensures
            slot >= old(self)@.len() ==> r == Err::<Option<ChunkIndirectBatch>, DrawCommandError>(
                DrawCommandError::FrameSlotOutOfRange,
            ) && final(self)@ == old(self)@,
            slot < old(self)@.len() ==> {
                let signature = frame_signature(visible@);
                if old(self)@[slot as int] == Some(signature) {
                    r == Ok::<Option<ChunkIndirectBatch>, DrawCommandError>(None) && final(self)@ == old(self)@
                } else {
                    match layers_from(visible@, 0) {
                        Err(e) => r == Err::<Option<ChunkIndirectBatch>, DrawCommandError>(e) && final(self)@ == old(self)@,
                        Ok(layers) => {
                            &&& r matches Ok(Some(b))
                            &&& b.commands@ == layers[0] + layers[1] + layers[2] + layers[3]
                            &&& final(self)@ == old(self)@.update(slot as int, Some(signature))
                        },
                    }
                }
            },
    {
        if slot >= self.signatures.len() {
            return Err(DrawCommandError::FrameSlotOutOfRange);
        }
        let signature = chunk_indirect_signature(visible);
        if let Some(held) = self.signatures[slot] {
            if held == signature {
                return Ok(None);
            }
        }
        let batch = match buildChunkIndirectCommands(visible) {
            Ok(b) => b,
            Err(e) => {
                return Err(e);
            },
        };
        self.signatures.set(slot, Some(signature));
        Ok(Some(batch))
    }
}

} // verus!
