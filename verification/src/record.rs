use vstd::prelude::*;

verus! {

/// A staged copy into a GPU buffer: the destination buffer's handle, the
/// region (offsets in the staging buffer and in the destination, and its
/// size) and the access that later reads it.
#[derive(Debug, Clone, Copy, PartialEq, Eq)]
pub struct PendingCopy {
    pub destination: u64,
    pub srcOffset: u64,
    pub dstOffset: u64,
    pub size: u64,
    pub access: u32,
}

/// A texture atlas waiting to be copied from its staging buffer into its
/// image (handles), of the given size.
#[derive(Debug, Clone, Copy, PartialEq, Eq)]
pub struct PendingTexture {
    pub staging: u64,
    pub image: u64,
    pub width: u32,
    pub height: u32,
}

/// One region of a copy.
#[derive(Debug, Clone, Copy, PartialEq, Eq)]
pub struct CopyRegion {
    pub srcOffset: u64,
    pub dstOffset: u64,
    pub size: u64,
}

/// The copies into one destination buffer, in staging order, and the
/// accesses that read it afterwards.
#[derive(Debug, Clone, PartialEq, Eq)]
pub struct CopyGroup {
    pub destination: u64,
    pub regions: Vec<CopyRegion>,
    pub access: u32,
}

/// What recording a frame's uploads does: the atlas to copy, if any, then
/// one copy command (and one barrier) per destination buffer.
#[derive(Debug, Clone, PartialEq, Eq)]
pub struct RecordPlan {
    pub atlasUpload: Option<PendingTexture>,
    pub copyGroups: Vec<CopyGroup>,
}

/// Why a frame could not be recorded.
#[derive(Debug, Clone, Copy, PartialEq, Eq)]
pub enum RecordError {
    /// The swapchain image has no framebuffer.
    FramebufferOutOfRange,
    /// The frame slot does not exist.
    FrameSlotOutOfRange,
    /// Copies are staged but the slot has no staging buffer.
    StagingMissing,
}

/// What one frame slot holds between frames: staged copies, a pending atlas
/// upload, buffers retired until the slot's fence signals, whether it has a
/// staging buffer, and the atlas revision its texture holds.
#[derive(Debug, Clone, PartialEq, Eq)]
pub struct SlotUploads {
    pub copies: Vec<PendingCopy>,
    pub texture: Option<PendingTexture>,
    pub retired: Vec<u64>,
    pub staging: bool,
    pub atlasRevision: u64,
}

/// The view of a slot.
pub struct SlotState {
    pub copies: Seq<PendingCopy>,
    pub texture: Option<PendingTexture>,
    pub retired: Seq<u64>,
    pub staging: bool,
    pub atlasRevision: u64,
}

pub open spec fn slot_view(s: SlotUploads) -> SlotState {
    SlotState {
        copies: s.copies@,
        texture: s.texture,
        retired: s.retired@,
        staging: s.staging,
        atlasRevision: s.atlasRevision,
    }
}

/// The slot after a new atlas revision is queued for its texture.
pub open spec fn queued_slot(s: SlotState, revision: u64, upload: PendingTexture) -> SlotState {
    SlotState { texture: Some(upload), atlasRevision: revision, ..s }
}

/// The slot after recording: copies and atlas taken, the atlas's staging
/// buffer retired to the slot.
pub open spec fn recorded_slot(s: SlotState) -> SlotState {
    SlotState {
        copies: Seq::empty(),
        texture: None,
        retired: match s.texture {
            Some(p) => s.retired.push(p.staging),
            None => s.retired,
        },
        ..s
    }
}

/// An atlas queued for a slot is the one that slot's next recording
/// uploads; its staging buffer then stays retired to the slot, and the
/// slot keeps the revision, until the slot is reused.
pub proof fn lemma_queued_atlas_is_recorded(s: SlotState, revision: u64, upload: PendingTexture)
    ensures
        queued_slot(s, revision, upload).texture == Some(upload),
        recorded_slot(queued_slot(s, revision, upload)).retired == s.retired.push(upload.staging),
        recorded_slot(queued_slot(s, revision, upload)).texture is None,
        recorded_slot(queued_slot(s, revision, upload)).atlasRevision == revision,
{
}

/// The view of a copy group.
pub struct GroupView {
    pub destination: u64,
    pub regions: Seq<CopyRegion>,
    pub access: u32,
}

pub open spec fn group_view(g: CopyGroup) -> GroupView {
    GroupView { destination: g.destination, regions: g.regions@, access: g.access }
}

/// The region of a copy.
pub open spec fn region_of(c: PendingCopy) -> CopyRegion {
    CopyRegion { srcOffset: c.srcOffset, dstOffset: c.dstOffset, size: c.size }
}

/// `k` is the first group into `d`.
pub open spec fn is_first_group(g: Seq<GroupView>, d: u64, k: int) -> bool {
    0 <= k < g.len() && g[k].destination == d && forall|j: int| 0 <= j < k ==> g[j].destination != d
}

/// Position of the first group into `d`, or `-1`.
pub open spec fn group_position(g: Seq<GroupView>, d: u64) -> int {
    if exists|k: int| is_first_group(g, d, k) {
        choose|k: int| is_first_group(g, d, k)
    } else {
        -1
    }
}

/// Groups after one more copy: it joins the group into its destination,
/// adding its region and its access, or starts a new group at the end.
pub open spec fn add_copy(g: Seq<GroupView>, c: PendingCopy) -> Seq<GroupView> {
    let k = group_position(g, c.destination);
    if k >= 0 {
        g.update(
            k,
            GroupView { destination: c.destination, regions: g[k].regions.push(region_of(c)), access: g[k].access | c.access },
        )
    } else {
        g.push(GroupView { destination: c.destination, regions: seq![region_of(c)], access: c.access })
    }
}

/// Copies grouped by destination, groups in the order their destinations
/// first appear, regions in staging order.
pub open spec fn group_copies(c: Seq<PendingCopy>) -> Seq<GroupView>
    decreases c.len(),
{
    if c.len() == 0 {
        Seq::empty()
    } else {
        add_copy(group_copies(c.drop_last()), c.last())
    }
}

proof fn lemma_first_group(g: Seq<GroupView>, d: u64, k: int)
    requires
        is_first_group(g, d, k),
    ensures
        group_position(g, d) == k,
{
    let q = choose|q: int| is_first_group(g, d, q);
    assert(is_first_group(g, d, q));
    if q < k {
        assert(g[q].destination != d);
    } else if k < q {
        assert(g[k].destination != d);
    }
}

/// No two groups share a destination.
pub open spec fn destinations_distinct(g: Seq<GroupView>) -> bool {
    forall|i: int, j: int| 0 <= i < j < g.len() ==> #[trigger] g[i].destination != #[trigger] g[j].destination
}

/// Grouping gives each destination buffer one group, so one copy command
/// and one barrier.
pub proof fn lemma_one_group_per_destination(c: Seq<PendingCopy>)
    ensures
        destinations_distinct(group_copies(c)),
    decreases c.len(),
{
    if c.len() > 0 {
        let g = group_copies(c.drop_last());
        lemma_one_group_per_destination(c.drop_last());
        let d = c.last().destination;
        if group_position(g, d) < 0 {
            assert forall|j: int| 0 <= j < g.len() implies g[j].destination != d by {
                if g[j].destination == d {
                    assert(is_first_group(g, d, j));
                }
            }
        } else {
            let k = choose|k: int| is_first_group(g, d, k);
            assert(is_first_group(g, d, k));
        }
    }
}

/// Groups the copies by destination; see [`group_copies`].
pub fn group_by_destination(copies: &Vec<PendingCopy>) -> (groups: Vec<CopyGroup>)
    ensures
        groups@.map_values(|g: CopyGroup| group_view(g)) == group_copies(copies@),
{
    let mut groups: Vec<CopyGroup> = Vec::new();
    let mut i: usize = 0;
    proof {
        assert(copies@.take(0) =~= Seq::<PendingCopy>::empty());
        assert(groups@.map_values(|g: CopyGroup| group_view(g)) =~= Seq::<GroupView>::empty());
    }
    while i < copies.len()
        invariant
            i <= copies@.len(),
            groups@.map_values(|g: CopyGroup| group_view(g)) == group_copies(copies@.take(i as int)),
        decreases copies@.len() - i,
    {
        let c = copies[i];
        let ghost before = groups@.map_values(|g: CopyGroup| group_view(g));
        proof {
            assert(copies@.take(i + 1).drop_last() =~= copies@.take(i as int));
            assert(copies@.take(i + 1).last() == c);
        }
        let mut k: usize = 0;
        let mut found = false;
        while k < groups.len()
            invariant_except_break
                !found,
            invariant
                k <= groups@.len(),
                before == groups@.map_values(|g: CopyGroup| group_view(g)),
                forall|j: int| 0 <= j < k ==> before[j].destination != c.destination,
            ensures
                found ==> k < groups@.len() && before[k as int].destination == c.destination,
                !found ==> k == groups@.len(),
            decreases groups@.len() - k,
        {
            if groups[k].destination == c.destination {
                found = true;
                break;
            }
            k = k + 1;
        }
        if found {
            proof {
                assert(is_first_group(before, c.destination, k as int));
                lemma_first_group(before, c.destination, k as int);
            }
            let mut g = groups.remove(k);
            g.regions.push(CopyRegion { srcOffset: c.srcOffset, dstOffset: c.dstOffset, size: c.size });
            g.access = g.access | c.access;
            groups.insert(k, g);
            proof {
                assert(groups@.map_values(|g: CopyGroup| group_view(g)) =~= add_copy(before, c));
            }
        } else {
            proof {
                assert forall|q: int| !is_first_group(before, c.destination, q) by {
                    if 0 <= q < before.len() {
                        assert(before[q].destination != c.destination);
                    }
                }
            }
            let mut regions: Vec<CopyRegion> = Vec::new();
            regions.push(CopyRegion { srcOffset: c.srcOffset, dstOffset: c.dstOffset, size: c.size });
            groups.push(CopyGroup { destination: c.destination, regions, access: c.access });
            proof {
                assert(groups@.map_values(|g: CopyGroup| group_view(g)) =~= add_copy(before, c));
            }
        }
        i = i + 1;
    }
    proof {
        assert(copies@.take(i as int) =~= copies@);
    }
    groups
}

/// Per frame slot, the uploads that the slot's next recording performs and
/// the buffers it keeps alive.
pub struct FrameUploads {
    slots: Vec<SlotUploads>,
}

impl FrameUploads {
    /// Number of frame slots.
    pub closed spec fn slot_count(&self) -> nat {
        self.slots@.len()
    }

    /// Slot `t`.
    pub closed spec fn slot(&self, t: int) -> SlotState {
        slot_view(self.slots@[t])
    }

    /// The slots other than `t` are those of `other`, and there are as many.
    pub open spec fn others_same(&self, other: &FrameUploads, t: int) -> bool {
        &&& self.slot_count() == other.slot_count()
        &&& forall|u: int| 0 <= u < self.slot_count() && u != t ==> #[trigger] self.slot(u) == other.slot(u)
    }

    /// Every slot as in `other`.
    pub open spec fn same_as(&self, other: &FrameUploads) -> bool {
        &&& self.slot_count() == other.slot_count()
        &&& forall|u: int| 0 <= u < self.slot_count() ==> #[trigger] self.slot(u) == other.slot(u)
    }

    /// `slots` frame slots holding nothing, with atlas revision `0`.
    pub fn new(slots: usize) -> (r: FrameUploads)
        ensures
            r.slot_count() == slots,
            forall|u: int|
                0 <= u < slots ==> #[trigger] r.slot(u) == (SlotState {
                    copies: Seq::empty(),
                    texture: None,
                    retired: Seq::empty(),
                    staging: false,
                    atlasRevision: 0,
                }),
    {
        let mut v: Vec<SlotUploads> = Vec::new();
        let mut i: usize = 0;
        while i < slots
            invariant
                i <= slots,
                v@.len() == i,
                forall|u: int|
                    0 <= u < i ==> #[trigger] slot_view(v@[u]) == (SlotState {
                        copies: Seq::empty(),
                        texture: None,
                        retired: Seq::empty(),
                        staging: false,
                        atlasRevision: 0,
                    }),
            decreases slots - i,
        {
            let s = SlotUploads {
                copies: Vec::new(),
                texture: None,
                retired: Vec::new(),
                staging: false,
                atlasRevision: 0,
            };
            proof {
                assert(s.copies@ =~= Seq::<PendingCopy>::empty());
                assert(s.retired@ =~= Seq::<u64>::empty());
            }
            v.push(s);
            i = i + 1;
        }
        FrameUploads { slots: v }
    }

    /// Takes slot `t` out, leaving an empty slot in its place.
    fn take_slot(&mut self, t: usize) -> (s: SlotUploads)
        requires
            t < old(self).slots@.len(),
        ensures
            s == old(self).slots@[t as int],
            final(self).slots@.len() == old(self).slots@.len(),
            forall|u: int| 0 <= u < old(self).slots@.len() && u != t ==> #[trigger] final(self).slots@[u] == old(
                self,
            ).slots@[u],
    {
        let mut all: Vec<SlotUploads> = Vec::new();
        std::mem::swap(&mut all, &mut self.slots);
        let s = all.remove(t);
        all.insert(
            t,
            SlotUploads { copies: Vec::new(), texture: None, retired: Vec::new(), staging: false, atlasRevision: 0 },
        );
        self.slots = all;
        s
    }

    /// Puts `s` in as slot `t`.
    fn put_slot(&mut self, t: usize, s: SlotUploads)
        requires
            t < old(self).slots@.len(),
        ensures
            final(self).slots@ == old(self).slots@.update(t as int, s),
    {
        let mut all: Vec<SlotUploads> = Vec::new();
        std::mem::swap(&mut all, &mut self.slots);
        all.set(t, s);
        self.slots = all;
    }

    /// Stages a copy in slot `t`.
    pub fn push_copy(&mut self, t: usize, copy: PendingCopy) -> (r: Result<(), RecordError>)
        ensures
            t >= old(self).slot_count() ==> r == Err::<(), RecordError>(RecordError::FrameSlotOutOfRange)
                && final(self).same_as(old(self)),
            t < old(self).slot_count() ==> r is Ok && final(self).others_same(old(self), t as int) && final(self).slot(
                t as int,
            ) == (SlotState { copies: old(self).slot(t as int).copies.push(copy), ..old(self).slot(t as int) }),
    {
        if t >= self.slots.len() {
            return Err(RecordError::FrameSlotOutOfRange);
        }
        let mut s = self.take_slot(t);
        s.copies.push(copy);
        self.put_slot(t, s);
        Ok(())
    }

    /// Records whether slot `t` has a staging buffer.
    pub fn set_staging(&mut self, t: usize, present: bool) -> (r: Result<(), RecordError>)
        ensures
            t >= old(self).slot_count() ==> r == Err::<(), RecordError>(RecordError::FrameSlotOutOfRange)
                && final(self).same_as(old(self)),
            t < old(self).slot_count() ==> r is Ok && final(self).others_same(old(self), t as int) && final(self).slot(
                t as int,
            ) == (SlotState { staging: present, ..old(self).slot(t as int) }),
    {
        if t >= self.slots.len() {
            return Err(RecordError::FrameSlotOutOfRange);
        }
        let mut s = self.take_slot(t);
        s.staging = present;
        self.put_slot(t, s);
        Ok(())
    }

    /// Whether slot `t`'s texture holds another atlas revision than
    /// `revision`, so that a new atlas must be uploaded for it.
    pub fn atlas_outdated(&self, t: usize, revision: u64) -> (r: Result<bool, RecordError>)
        ensures
            t >= self.slot_count() ==> r == Err::<bool, RecordError>(RecordError::FrameSlotOutOfRange),
            t < self.slot_count() ==> r == Ok::<bool, RecordError>(self.slot(t as int).atlasRevision != revision),
    {
        if t >= self.slots.len() {
            return Err(RecordError::FrameSlotOutOfRange);
        }
        Ok(self.slots[t].atlasRevision != revision)
    }

    /// Slot `t`'s texture now holds atlas `revision`, waiting in `upload`;
    /// returns the upload it replaces, whose staging buffer can go at once.
    pub fn queue_atlas(&mut self, t: usize, revision: u64, upload: PendingTexture) -> (r: Result<
        Option<PendingTexture>,
        RecordError,
    >)
        ensures
            t >= old(self).slot_count() ==> r == Err::<Option<PendingTexture>, RecordError>(
                RecordError::FrameSlotOutOfRange,
            ) && final(self).same_as(old(self)),
            t < old(self).slot_count() ==> r == Ok::<Option<PendingTexture>, RecordError>(old(self).slot(
                t as int,
            ).texture) && final(self).others_same(old(self), t as int) && final(self).slot(t as int)
                == queued_slot(old(self).slot(t as int), revision, upload),
    {
        if t >= self.slots.len() {
            return Err(RecordError::FrameSlotOutOfRange);
        }
        let mut s = self.take_slot(t);
        let previous = s.texture;
        s.texture = Some(upload);
        s.atlasRevision = revision;
        self.put_slot(t, s);
        Ok(previous)
    }

    /// Takes the buffers retired in slot `t`, once its fence has signalled,
    /// so that they can be destroyed.
    pub fn take_retired(&mut self, t: usize) -> (r: Result<Vec<u64>, RecordError>)
        ensures
            t >= old(self).slot_count() ==> r == Err::<Vec<u64>, RecordError>(RecordError::FrameSlotOutOfRange)
                && final(self).same_as(old(self)),
            t < old(self).slot_count() ==> (r matches Ok(v) && v@ == old(self).slot(t as int).retired)
                && final(self).others_same(old(self), t as int) && final(self).slot(t as int) == (SlotState {
                retired: Seq::empty(),
                ..old(self).slot(t as int)
            }),
    {
        if t >= self.slots.len() {
            return Err(RecordError::FrameSlotOutOfRange);
        }
        let mut s = self.take_slot(t);
        let mut retired: Vec<u64> = Vec::new();
        std::mem::swap(&mut retired, &mut s.retired);
        proof {
            assert(s.retired@ =~= Seq::<u64>::empty());
        }
        self.put_slot(t, s);
        Ok(retired)
    }

    /// The upload part of recording frame slot `frameSlot` into the
    /// framebuffer of swapchain image `imageIndex` (of `framebufferCount`):
    /// a missing framebuffer or slot is refused, changing nothing; else the
    /// slot's pending atlas upload is taken and its staging buffer retired
    /// to the slot, and the slot's staged copies are taken; copies without a
    /// staging buffer are refused, otherwise they are grouped by
    /// destination.
    pub fn plan_record(&mut self, frameSlot: usize, imageIndex: usize, framebufferCount: usize) -> (r: Result<
        RecordPlan,
        RecordError,
    >)
        ensures
            imageIndex >= framebufferCount ==> r == Err::<RecordPlan, RecordError>(RecordError::FramebufferOutOfRange)
                && final(self).same_as(old(self)),
            imageIndex < framebufferCount && frameSlot >= old(self).slot_count() ==> r == Err::<RecordPlan, RecordError>(
                RecordError::FrameSlotOutOfRange,
            ) && final(self).same_as(old(self)),
            imageIndex < framebufferCount && frameSlot < old(self).slot_count() ==> {
                let before = old(self).slot(frameSlot as int);
                &&& final(self).others_same(old(self), frameSlot as int)
                &&& final(self).slot(frameSlot as int) == recorded_slot(before)
                &&& if before.copies.len() > 0 && !before.staging {
                    r == Err::<RecordPlan, RecordError>(RecordError::StagingMissing)
                } else {
                    r matches Ok(p) && p.atlasUpload == before.texture && p.copyGroups@.map_values(
                        |g: CopyGroup| group_view(g),
                    ) == group_copies(before.copies)
                }
            },
    {
        if imageIndex >= framebufferCount {
            return Err(RecordError::FramebufferOutOfRange);
        }
        if frameSlot >= self.slots.len() {
            return Err(RecordError::FrameSlotOutOfRange);
        }
        let mut s = self.take_slot(frameSlot);
        let atlasUpload = s.texture;
        s.texture = None;
        match atlasUpload {
            Some(p) => s.retired.push(p.staging),
            None => {},
        }
        let mut copies: Vec<PendingCopy> = Vec::new();
        std::mem::swap(&mut copies, &mut s.copies);
        proof {
            assert(s.copies@ =~= Seq::<PendingCopy>::empty());
        }
        let staging = s.staging;
        self.put_slot(frameSlot, s);
        if copies.len() > 0 && !staging {
            return Err(RecordError::StagingMissing);
        }
        let copyGroups = group_by_destination(&copies);
        Ok(RecordPlan { atlasUpload, copyGroups })
    }
}

/// The entity meshes of a frame slot that entity draw ranges index into.
#[derive(Debug, Clone, Copy, PartialEq, Eq)]
pub enum EntityMesh {
    Dynamic,
    BlockEntities,
    StaticEntities,
}

/// A range of one entity mesh's indices, drawn in source order.
#[derive(Debug, Clone, Copy, PartialEq, Eq)]
pub struct EntityDrawRange {
    pub mesh: EntityMesh,
    pub firstIndex: u32,
    pub indexCount: u32,
}

/// One indexed draw of an entity mesh; `rebind` when the mesh's buffers
/// must be bound first because the previous draw used another mesh.
#[derive(Debug, Clone, Copy, PartialEq, Eq)]
pub struct EntityDraw {
    pub mesh: EntityMesh,
    pub rebind: bool,
    pub firstIndex: u32,
    pub indexCount: u32,
}

/// The index counts of the slot's three entity meshes, `None` where the
/// mesh is absent.
#[derive(Debug, Clone, Copy, PartialEq, Eq)]
pub struct EntityMeshCounts {
    pub dynamicMesh: Option<u32>,
    pub blockEntities: Option<u32>,
    pub staticEntities: Option<u32>,
}

pub open spec fn mesh_index_count(counts: EntityMeshCounts, m: EntityMesh) -> Option<u32> {
    match m {
        EntityMesh::Dynamic => counts.dynamicMesh,
        EntityMesh::BlockEntities => counts.blockEntities,
        EntityMesh::StaticEntities => counts.staticEntities,
    }
}

/// The end of a range, saturated at `u32::MAX`.
pub open spec fn range_end(r: EntityDrawRange) -> int {
    if r.firstIndex + r.indexCount > u32::MAX {
        u32::MAX as int
    } else {
        r.firstIndex + r.indexCount
    }
}

/// A range is drawn when it is not empty, its mesh is present and it ends
/// within the mesh's indices.
pub open spec fn range_drawn(r: EntityDrawRange, counts: EntityMeshCounts) -> bool {
    &&& r.indexCount > 0
    &&& mesh_index_count(counts, r.mesh) matches Some(n)
    &&& range_end(r) <= n
}

/// The draws for `ranges` when `bound` is the mesh bound before them: the
/// drawn ranges in order, each rebinding when its mesh is not the one bound.
pub open spec fn entity_draws(ranges: Seq<EntityDrawRange>, counts: EntityMeshCounts, bound: Option<EntityMesh>) -> Seq<
    EntityDraw,
>
    decreases ranges.len(),
{
    if ranges.len() == 0 {
        Seq::empty()
    } else {
        let r = ranges[0];
        if range_drawn(r, counts) {
            seq![EntityDraw { mesh: r.mesh, rebind: bound != Some(r.mesh), firstIndex: r.firstIndex, indexCount: r.indexCount }]
                + entity_draws(ranges.drop_first(), counts, Some(r.mesh))
        } else {
            entity_draws(ranges.drop_first(), counts, bound)
        }
    }
}

fn same_mesh(a: EntityMesh, b: EntityMesh) -> (r: bool)
    ensures
        r == (a == b),
{
    match (a, b) {
        (EntityMesh::Dynamic, EntityMesh::Dynamic) => true,
        (EntityMesh::BlockEntities, EntityMesh::BlockEntities) => true,
        (EntityMesh::StaticEntities, EntityMesh::StaticEntities) => true,
        _ => false,
    }
}

/// The entity draws of a frame: ranges that are empty, whose mesh is
/// absent or that reach past its indices are skipped; the mesh's buffers
/// are bound again only when the mesh changes.
pub fn plan_entity_draws(ranges: &Vec<EntityDrawRange>, counts: EntityMeshCounts) -> (draws: Vec<EntityDraw>)
    ensures
        draws@ == entity_draws(ranges@, counts, None),
{
    let mut draws: Vec<EntityDraw> = Vec::new();
    let mut bound: Option<EntityMesh> = None;
    let mut i: usize = 0;
    proof {
        assert(ranges@.skip(0) =~= ranges@);
        assert(draws@ + entity_draws(ranges@.skip(0), counts, bound) =~= entity_draws(ranges@, counts, None));
    }
    while i < ranges.len()
        invariant
            i <= ranges@.len(),
            draws@ + entity_draws(ranges@.skip(i as int), counts, bound) == entity_draws(ranges@, counts, None),
        decreases ranges@.len() - i,
    {
        let r = ranges[i];
        let ghost rest = ranges@.skip(i as int);
        proof {
            assert(rest[0] == r);
            assert(rest.drop_first() =~= ranges@.skip(i + 1));
        }
        let n: Option<u32> = match r.mesh {
            EntityMesh::Dynamic => counts.dynamicMesh,
            EntityMesh::BlockEntities => counts.blockEntities,
            EntityMesh::StaticEntities => counts.staticEntities,
        };
        let drawn = match n {
            Some(n) => r.indexCount > 0 && r.firstIndex.saturating_add(r.indexCount) <= n,
            None => false,
        };
        if drawn {
            let rebind = match bound {
                Some(b) => !same_mesh(b, r.mesh),
                None => true,
            };
            let d = EntityDraw { mesh: r.mesh, rebind, firstIndex: r.firstIndex, indexCount: r.indexCount };
            proof {
                assert(rebind == (bound != Some(r.mesh)));
                assert(draws@.push(d) + entity_draws(ranges@.skip(i + 1), counts, Some(r.mesh)) =~= draws@ + (seq![d]
                    + entity_draws(ranges@.skip(i + 1), counts, Some(r.mesh))));
            }
            draws.push(d);
            bound = Some(r.mesh);
        }
        i = i + 1;
    }
    proof {
        assert(ranges@.skip(i as int) =~= Seq::<EntityDrawRange>::empty());
        assert(draws@ + Seq::<EntityDraw>::empty() =~= draws@);
    }
    draws
}

/// How an overlay range is drawn.
#[derive(Debug, Clone, Copy, PartialEq, Eq)]
pub enum OverlayPipelineKind {
    ArmorGlint,
    TntFlash,
    BeaconCore,
    BeaconGlow,
    EndPortalAlpha,
    EndPortalAdditive,
}

/// The pipelines that overlay ranges are drawn with.
#[derive(Debug, Clone, Copy, PartialEq, Eq)]
pub enum OverlayPipeline {
    FirstPersonGlint,
    EntityOverlay,
    BeaconCore,
    BeaconGlow,
    Entity,
    EndPortalAdditive,
}

/// The pipeline and shader state of an overlay range: whether the texture
/// is sampled with the alpha test (else the texture is off), whether
/// lighting is off, whether fog is off too, and whether fog is black.
#[derive(Debug, Clone, Copy, PartialEq, Eq)]
pub struct OverlayPass {
    pub pipeline: OverlayPipeline,
    pub textured: bool,
    pub unlit: bool,
    pub noFog: bool,
    pub blackFog: bool,
}

pub open spec fn overlay_pass_spec(kind: OverlayPipelineKind) -> OverlayPass {
    match kind {
        OverlayPipelineKind::ArmorGlint => OverlayPass {
            pipeline: OverlayPipeline::FirstPersonGlint,
            textured: true,
            unlit: true,
            noFog: false,
            blackFog: true,
        },
        OverlayPipelineKind::TntFlash => OverlayPass {
            pipeline: OverlayPipeline::EntityOverlay,
            textured: false,
            unlit: false,
            noFog: false,
            blackFog: false,
        },
        OverlayPipelineKind::BeaconCore => OverlayPass {
            pipeline: OverlayPipeline::BeaconCore,
            textured: true,
            unlit: true,
            noFog: true,
            blackFog: false,
        },
        OverlayPipelineKind::BeaconGlow => OverlayPass {
            pipeline: OverlayPipeline::BeaconGlow,
            textured: true,
            unlit: true,
            noFog: true,
            blackFog: false,
        },
        OverlayPipelineKind::EndPortalAlpha => OverlayPass {
            pipeline: OverlayPipeline::Entity,
            textured: true,
            unlit: true,
            noFog: false,
            blackFog: false,
        },
        OverlayPipelineKind::EndPortalAdditive => OverlayPass {
            pipeline: OverlayPipeline::EndPortalAdditive,
            textured: true,
            unlit: true,
            noFog: false,
            blackFog: true,
        },
    }
}

/// Overlay passes: each kind has its own pipeline, the end portal's alpha
/// layers the ordinary entity pipeline; only the TNT flash is
/// untextured and lit; only beacon shafts drop fog; the armor glint and
/// the additive portal layers use black fog.
pub proof fn lemma_overlay_passes(a: OverlayPipelineKind, b: OverlayPipelineKind)
    ensures
        a != b ==> overlay_pass_spec(a).pipeline != overlay_pass_spec(b).pipeline,
        overlay_pass_spec(OverlayPipelineKind::EndPortalAlpha).pipeline == OverlayPipeline::Entity,
        overlay_pass_spec(OverlayPipelineKind::TntFlash).pipeline == OverlayPipeline::EntityOverlay,
        overlay_pass_spec(OverlayPipelineKind::ArmorGlint).pipeline == OverlayPipeline::FirstPersonGlint,
        overlay_pass_spec(OverlayPipelineKind::BeaconCore).pipeline == OverlayPipeline::BeaconCore,
        overlay_pass_spec(OverlayPipelineKind::BeaconGlow).pipeline == OverlayPipeline::BeaconGlow,
        overlay_pass_spec(OverlayPipelineKind::EndPortalAdditive).pipeline == OverlayPipeline::EndPortalAdditive,
        !overlay_pass_spec(a).textured <==> a == OverlayPipelineKind::TntFlash,
        !overlay_pass_spec(a).unlit <==> a == OverlayPipelineKind::TntFlash,
        overlay_pass_spec(a).noFog <==> (a == OverlayPipelineKind::BeaconCore || a == OverlayPipelineKind::BeaconGlow),
        overlay_pass_spec(a).blackFog <==> (a == OverlayPipelineKind::ArmorGlint
            || a == OverlayPipelineKind::EndPortalAdditive),
{
}

/// The pipeline and shader state an overlay range is drawn with.
pub fn overlay_pass(kind: OverlayPipelineKind) -> (p: OverlayPass)
    ensures
        p == overlay_pass_spec(kind),
{
    match kind {
        OverlayPipelineKind::ArmorGlint => OverlayPass {
            pipeline: OverlayPipeline::FirstPersonGlint,
            textured: true,
            unlit: true,
            noFog: false,
            blackFog: true,
        },
        OverlayPipelineKind::TntFlash => OverlayPass {
            pipeline: OverlayPipeline::EntityOverlay,
            textured: false,
            unlit: false,
            noFog: false,
            blackFog: false,
        },
        OverlayPipelineKind::BeaconCore => OverlayPass {
            pipeline: OverlayPipeline::BeaconCore,
            textured: true,
            unlit: true,
            noFog: true,
            blackFog: false,
        },
        OverlayPipelineKind::BeaconGlow => OverlayPass {
            pipeline: OverlayPipeline::BeaconGlow,
            textured: true,
            unlit: true,
            noFog: true,
            blackFog: false,
        },
        OverlayPipelineKind::EndPortalAlpha => OverlayPass {
            pipeline: OverlayPipeline::Entity,
            textured: true,
            unlit: true,
            noFog: false,
            blackFog: false,
        },
        OverlayPipelineKind::EndPortalAdditive => OverlayPass {
            pipeline: OverlayPipeline::EndPortalAdditive,
            textured: true,
            unlit: true,
            noFog: false,
            blackFog: true,
        },
    }
}

} // verus!
