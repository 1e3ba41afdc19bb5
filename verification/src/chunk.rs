use std::sync::Arc;
use vstd::prelude::*;
use crate::block_pos::IBlockState;
use crate::block_state_container::{
    BlockStateContainer, SECTION_VOLUME, block_index, clamp_state, set_outcome, lemma_set_then_get, lemma_set_keeps_other_blocks,
    lemma_set_outcome_same_content, lemma_block_index, lemma_set_reads_back,
};
use crate::section_storage::{ExtendedBlockStorage, NibbleArray};
use crate::bit_array::fits;
use vstd::arithmetic::power2::pow2;

verus! {

/// Number of 16-block-high sections in a chunk column.
pub const SECTION_COUNT: usize = 16;

/// Number of biome entries of a chunk column (one per x, z).
pub const BIOME_COUNT: usize = 256;

/// The revision that follows `r`, wrapping at the top of the range.
pub open spec fn bump(r: u64) -> u64 {
    if r == u64::MAX { 0 } else { (r + 1) as u64 }
}

/// Whether `(x, y, z)` lies in a chunk column.
pub open spec fn in_column(x: usize, y: usize, z: usize) -> bool {
    x < 16 && y < 256 && z < 16
}

/// The id in a `Result` of a block-state store.
pub open spec fn state_result(r: Result<IBlockState, String>) -> Result<i32, String> {
    match r {
        Ok(b) => Ok(b.spec_id()),
        Err(e) => Err(e),
    }
}

/// The value an `Arc` points to.
pub open spec fn arc_value<T>(a: Arc<T>) -> T {
    *a
}

/// Makes the `Arc` hold the only reference to its value, copying the value
/// with `clone` when it is shared, and hands out the value for changing.
#[verifier::external_body]
fn arc_make_mut<T: Clone>(a: &mut Arc<T>) -> (r: &mut T)
    ensures
        *r == **old(a) || cloned::<T>(**old(a), *r),
        **final(a) == *final(r),
{
    Arc::make_mut(a)
}

/// A second `Arc` pointing to the same value.
#[verifier::external_body]
fn arc_clone<T>(a: &Arc<T>) -> (r: Arc<T>)
    ensures
        r == *a,
{
    Arc::clone(a)
}

/// A chunk column: sixteen optional sections shared copy-on-write with
/// snapshots, the biome ids, and revision counters for the column and for
/// each section.
#[derive(Debug)]
pub struct Chunk {
    pub xPosition: i32,
    pub zPosition: i32,
    storageArrays: Vec<Option<Arc<ExtendedBlockStorage>>>,
    blockBiomeArray: [u8; 256],
    revision: u64,
    sectionRevisions: [u64; 16],
}

impl Chunk {
    /// Chunk x coordinate.
    pub closed spec fn x_position(&self) -> i32 {
        self.xPosition
    }

    /// Chunk z coordinate.
    pub closed spec fn z_position(&self) -> i32 {
        self.zPosition
    }

    /// The section slots, bottom first.
    pub closed spec fn slots(&self) -> Seq<Option<Arc<ExtendedBlockStorage>>> {
        self.storageArrays@
    }

    /// The section at height index `i`, if present.
    pub open spec fn section(&self, i: int) -> Option<ExtendedBlockStorage> {
        match self.slots()[i] {
            Some(a) => Some(*a),
            None => None,
        }
    }

    /// The biome ids.
    pub closed spec fn biomes(&self) -> Seq<u8> {
        self.blockBiomeArray@
    }

    /// The column's revision.
    pub closed spec fn spec_revision(&self) -> u64 {
        self.revision
    }

    /// The revisions of the sections.
    pub closed spec fn section_revisions(&self) -> Seq<u64> {
        self.sectionRevisions@
    }

    /// Sixteen slots, each present section well formed, and sixteen
    /// section revisions.
    pub open spec fn wf(&self) -> bool {
        &&& self.slots().len() == SECTION_COUNT
        &&& self.section_revisions().len() == SECTION_COUNT
        &&& forall|i: int|
            #![trigger self.slots()[i]]
            0 <= i < SECTION_COUNT ==> (self.section(i) matches Some(s) ==> s.wf())
    }

    /// Block-state id of block `(x, y, z)`: `0` outside the column or in a
    /// missing section.
    pub open spec fn state_at(&self, x: usize, y: usize, z: usize) -> i32 {
        if !in_column(x, y, z) {
            0
        } else {
            match self.section((y / 16) as int) {
                Some(s) => s.states().state_at(block_index(x, y % 16, z) as int),
                None => 0,
            }
        }
    }

    /// Revision of section `i`; `0` past the top.
    pub open spec fn section_revision(&self, i: int) -> u64 {
        if 0 <= i < SECTION_COUNT { self.section_revisions()[i] } else { 0 }
    }

    /// Same position, sections, biomes and revisions.
    pub open spec fn same_column(&self, other: &Chunk) -> bool {
        &&& self.x_position() == other.x_position()
        &&& self.z_position() == other.z_position()
        &&& self.slots() == other.slots()
        &&& self.biomes() == other.biomes()
        &&& self.spec_revision() == other.spec_revision()
        &&& self.section_revisions() == other.section_revisions()
    }

    /// An empty column at chunk coordinates `(x, z)`: no sections, biome
    /// ids and revisions zero.
    pub fn new(x: i32, z: i32) -> (c: Chunk)
        ensures
            c.wf(),
            c.x_position() == x,
            c.z_position() == z,
            forall|i: int| 0 <= i < SECTION_COUNT ==> #[trigger] c.section(i) is None,
            c.biomes() == Seq::new(BIOME_COUNT as nat, |i: int| 0u8),
            c.spec_revision() == 0,
            c.section_revisions() == Seq::new(SECTION_COUNT as nat, |i: int| 0u64),
    {
        let mut slots: Vec<Option<Arc<ExtendedBlockStorage>>> = Vec::new();
        let mut i: usize = 0;
        while i < SECTION_COUNT
            invariant
                i <= SECTION_COUNT,
                slots@.len() == i,
                forall|j: int| 0 <= j < i ==> #[trigger] slots@[j] is None,
            decreases SECTION_COUNT - i,
        {
            slots.push(None);
            i = i + 1;
        }
        let c = Chunk {
            xPosition: x,
            zPosition: z,
            storageArrays: slots,
            blockBiomeArray: [0u8; 256],
            revision: 0,
            sectionRevisions: [0u64; 16],
        };
        proof {
            assert(c.biomes() =~= Seq::new(BIOME_COUNT as nat, |i: int| 0u8));
            assert(c.section_revisions() =~= Seq::new(SECTION_COUNT as nat, |i: int| 0u64));
        }
        c
    }

    /// Replaces section `index` (no change past the top), advancing the
    /// column's and that section's revision.
    pub fn setStorage(&mut self, index: usize, storage: Option<ExtendedBlockStorage>)
        requires
            old(self).wf(),
            storage matches Some(s) ==> s.wf(),
        ensures
            final(self).wf(),
            index >= SECTION_COUNT ==> final(self).same_column(old(self)),
            index < SECTION_COUNT ==> {
                &&& final(self).x_position() == old(self).x_position()
                &&& final(self).z_position() == old(self).z_position()
                &&& final(self).section(index as int) == storage
                &&& forall|j: int| 0 <= j < SECTION_COUNT && j != index ==> #[trigger] final(self).slots()[j] == old(self).slots()[j]
                &&& final(self).biomes() == old(self).biomes()
                &&& final(self).spec_revision() == bump(old(self).spec_revision())
                &&& final(self).section_revisions() == old(self).section_revisions().update(
                    index as int,
                    bump(old(self).section_revisions()[index as int]),
                )
            },
    {
        if index < SECTION_COUNT {
            let slot = match storage {
                Some(s) => Some(Arc::new(s)),
                None => None,
            };
            self.storageArrays.set(index, slot);
            self.revision = self.revision.wrapping_add(1);
            self.sectionRevisions[index] = self.sectionRevisions[index].wrapping_add(1);
            proof {
                assert(final(self).section(index as int) == storage);
            }
        }
    }

    /// The section slots, bottom first.
    pub fn getBlockStorageArray(&self) -> (s: &[Option<Arc<ExtendedBlockStorage>>])
        ensures
            s@ == self.slots(),
    {
        self.storageArrays.as_slice()
    }

    /// Copies the first 256 bytes of `data` as biome ids and advances every
    /// revision; shorter data changes nothing.
    pub fn setBiomeArray(&mut self, data: &[u8])
        requires
            old(self).wf(),
        ensures
            final(self).wf(),
            data@.len() < BIOME_COUNT ==> final(self).same_column(old(self)),
            data@.len() >= BIOME_COUNT ==> {
                &&& final(self).x_position() == old(self).x_position()
                &&& final(self).z_position() == old(self).z_position()
                &&& final(self).slots() == old(self).slots()
                &&& final(self).biomes() == data@.take(BIOME_COUNT as int)
                &&& final(self).spec_revision() == bump(old(self).spec_revision())
                &&& final(self).section_revisions() == Seq::new(
                    SECTION_COUNT as nat,
                    |i: int| bump(old(self).section_revisions()[i]),
                )
            },
    {
        if data.len() >= BIOME_COUNT {
            let mut i: usize = 0;
            while i < BIOME_COUNT
                invariant
                    i <= BIOME_COUNT,
                    data@.len() >= BIOME_COUNT,
                    self.storageArrays@ == old(self).storageArrays@,
                    self.x_position() == old(self).x_position(),
                    self.z_position() == old(self).z_position(),
                    self.revision == old(self).revision,
                    self.sectionRevisions@ == old(self).sectionRevisions@,
                    forall|j: int| 0 <= j < i ==> #[trigger] self.blockBiomeArray@[j] == data@[j],
                decreases BIOME_COUNT - i,
            {
                self.blockBiomeArray[i] = data[i];
                i = i + 1;
            }
            self.revision = self.revision.wrapping_add(1);
            let mut k: usize = 0;
            while k < SECTION_COUNT
                invariant
                    k <= SECTION_COUNT,
                    self.storageArrays@ == old(self).storageArrays@,
                    self.x_position() == old(self).x_position(),
                    self.z_position() == old(self).z_position(),
                    self.revision == bump(old(self).revision),
                    self.blockBiomeArray@ =~= data@.take(BIOME_COUNT as int),
                    forall|j: int| 0 <= j < k ==> #[trigger] self.sectionRevisions@[j] == bump(
                        old(self).sectionRevisions@[j],
                    ),
                    forall|j: int| k <= j < SECTION_COUNT ==> #[trigger] self.sectionRevisions@[j]
                        == old(self).sectionRevisions@[j],
                decreases SECTION_COUNT - k,
            {
                self.sectionRevisions[k] = self.sectionRevisions[k].wrapping_add(1);
                k = k + 1;
            }
            proof {
                assert(self.section_revisions() =~= Seq::new(
                    SECTION_COUNT as nat,
                    |i: int| bump(old(self).section_revisions()[i]),
                ));
            }
        }
    }

    /// The biome ids.
    pub fn getBiomeArray(&self) -> (b: &[u8; 256])
        ensures
            b@ == self.biomes(),
    {
        &self.blockBiomeArray
    }

    /// Block-state id of block `(x, y, z)`.
    pub fn getGlobalStateId(&self, x: usize, y: usize, z: usize) -> (id: i32)
        requires
            self.wf(),
        ensures
            id == self.state_at(x, y, z),
    {
        if x >= 16 || z >= 16 || y >= 256 {
            return 0;
        }
        let si = y / 16;
        assert(self.slots()[si as int] == self.storageArrays@[si as int]);
        match &self.storageArrays[si] {
            Some(storage) => storage.getGlobalStateId(x, y % 16, z),
            None => 0,
        }
    }

    /// Block state of block `(x, y, z)`.
    pub fn getBlockState(&self, x: usize, y: usize, z: usize) -> (s: IBlockState)
        requires
            self.wf(),
        ensures
            s.spec_id() == self.state_at(x, y, z),
    {
        IBlockState::fromGlobalStateId(self.getGlobalStateId(x, y, z))
    }

    /// Stores `state` at block `(x, y, z)` and returns the state that was
    /// there. A missing section is first created as air, with a sky-light
    /// array when `hasSkyLight`; a section shared with a snapshot is copied
    /// before it changes. On success the column's and the section's
    /// revisions advance. Fails outside the column, or when the section
    /// refuses the id (see `BlockStateContainer::setGlobalStateIdAt`).
    pub fn setBlockState(
        &mut self,
        x: usize,
        y: usize,
        z: usize,
        state: IBlockState,
        hasSkyLight: bool,
    ) -> (res: Result<IBlockState, String>)
        requires
            old(self).wf(),
        ensures
            final(self).wf(),
            set_block_outcome(*old(self), *final(self), x, y, z, state.spec_id(), hasSkyLight, res),
    {
        if x >= 16 || z >= 16 || y >= 256 {
            return Err(String::from_str("block coordinate outside chunk"));
        }
        let si = y / 16;
        let ghost before = *self;
        let mut slot: Option<Arc<ExtendedBlockStorage>> = None;
        self.storageArrays.set_and_swap(si, &mut slot);
        let ghost fresh = slot is None;
        let mut arc = match slot {
            Some(a) => a,
            None => {
                let sky = if hasSkyLight {
                    Some(NibbleArray::new())
                } else {
                    None
                };
                Arc::new(
                    ExtendedBlockStorage::fromNetwork(
                        (si * 16) as i32,
                        BlockStateContainer::new(),
                        NibbleArray::new(),
                        sky,
                    ),
                )
            },
        };
        let ghost base = arc_value(arc);
        assert(base.wf());
        let storage = arc_make_mut(&mut arc);
        let ghost copy = *storage;
        assert(copy.same_content(&base) && copy.wf());
        let data = storage.getDataMut();
        let ghost c = *data;
        let r = data.setGlobalStateId(x, y % 16, z, state.getGlobalStateId());
        let ghost after = arc_value(arc);
        assert(set_outcome(c, after.states(), block_index(x, y % 16, z) as int, state.spec_id(), r));
        self.storageArrays.set(si, Some(arc));
        proof {
            let idx = block_index(x, y % 16, z) as int;
            lemma_block_index(x, y % 16, z);
            lemma_set_outcome_same_content(c, base.states(), after.states(), idx, state.spec_id(), r);
            if fresh {
                lemma_set_then_get(base.states(), after.states(), idx, state.spec_id(), r);
                assert(base.states().states() =~= Seq::new(SECTION_VOLUME as nat, |i: int| 0i32));
            }
        }
        match r {
            Ok(old) => {
                self.revision = self.revision.wrapping_add(1);
                self.sectionRevisions[si] = self.sectionRevisions[si].wrapping_add(1);
                Ok(IBlockState::fromGlobalStateId(old))
            },
            Err(e) => Err(e),
        }
    }

    /// Advances the column's and section `sectionIndex`'s revision, for a
    /// change that alters rendering but not block states; no change past
    /// the top.
    pub fn markSectionDirty(&mut self, sectionIndex: usize)
        requires
            old(self).wf(),
        ensures
            final(self).wf(),
            final(self).x_position() == old(self).x_position(),
            final(self).z_position() == old(self).z_position(),
            final(self).slots() == old(self).slots(),
            final(self).biomes() == old(self).biomes(),
            sectionIndex >= SECTION_COUNT ==> final(self).same_column(old(self)),
            sectionIndex < SECTION_COUNT ==> {
                &&& final(self).spec_revision() == bump(old(self).spec_revision())
                &&& final(self).section_revisions() == old(self).section_revisions().update(
                    sectionIndex as int,
                    bump(old(self).section_revisions()[sectionIndex as int]),
                )
            },
    {
        if sectionIndex < SECTION_COUNT {
            self.revision = self.revision.wrapping_add(1);
            self.sectionRevisions[sectionIndex] = self.sectionRevisions[sectionIndex].wrapping_add(1);
        }
    }

    /// The column's revision.
    pub fn revision(&self) -> (r: u64)
        ensures
            r == self.spec_revision(),
    {
        self.revision
    }

    /// Revision of section `sectionIndex`; `0` past the top.
    pub fn sectionRevision(&self, sectionIndex: usize) -> (r: u64)
        ensures
            r == self.section_revision(sectionIndex as int),
    {
        if sectionIndex < SECTION_COUNT {
            self.sectionRevisions[sectionIndex]
        } else {
            0
        }
    }
}

/// What storing block state `state` at `(x, y, z)` of column `c` does,
/// giving `n` and the result `res` (`sky`: whether a created section gets a
/// sky-light array).
pub open spec fn set_block_outcome(
    c: Chunk,
    n: Chunk,
    x: usize,
    y: usize,
    z: usize,
    state: i32,
    sky: bool,
    res: Result<IBlockState, String>,
) -> bool {
    if !in_column(x, y, z) {
        res is Err && n.same_column(&c)
    } else {
        let si = (y / 16) as int;
        let idx = block_index(x, y % 16, z) as int;
        &&& n.x_position() == c.x_position()
        &&& n.z_position() == c.z_position()
        &&& n.biomes() == c.biomes()
        &&& forall|j: int| 0 <= j < SECTION_COUNT && j != si ==> #[trigger] n.slots()[j] == c.slots()[j]
        &&& n.section(si) is Some
        &&& match c.section(si) {
            Some(s) => {
                &&& n.section(si)->Some_0.same_frame(&s)
                &&& set_outcome(s.states(), n.section(si)->Some_0.states(), idx, state, state_result(res))
            },
            None => {
                &&& n.section(si)->Some_0.fresh_frame((si * 16) as i32, sky)
                &&& n.section(si)->Some_0.states().canonical()
                &&& n.section(si)->Some_0.states().states() == Seq::new(
                    SECTION_VOLUME as nat,
                    |i: int| 0i32,
                ).update(idx, clamp_state(state))
                &&& res matches Ok(b) && b.spec_id() == 0
            },
        }
        &&& res is Ok ==> n.spec_revision() == bump(c.spec_revision())
        &&& res is Ok ==> n.section_revisions() == c.section_revisions().update(si, bump(c.section_revisions()[si]))
        &&& res is Err ==> n.spec_revision() == c.spec_revision()
        &&& res is Err ==> n.section_revisions() == c.section_revisions()
    }
}

impl Clone for Chunk {
    /// A snapshot sharing the sections: later stores into either column copy
    /// a shared section first, so they never show in the other.
    fn clone(&self) -> (res: Self)
        ensures
            res.same_column(self),
    {
        let mut slots: Vec<Option<Arc<ExtendedBlockStorage>>> = Vec::new();
        let mut i: usize = 0;
        while i < self.storageArrays.len()
            invariant
                i <= self.storageArrays@.len(),
                slots@ == self.storageArrays@.take(i as int),
            decreases self.storageArrays@.len() - i,
        {
            let slot = match &self.storageArrays[i] {
                Some(a) => Some(arc_clone(a)),
                None => None,
            };
            slots.push(slot);
            i = i + 1;
            proof {
                assert(slots@ =~= self.storageArrays@.take(i as int));
            }
        }
        proof {
            assert(slots@ =~= self.storageArrays@);
        }
        Chunk {
            xPosition: self.xPosition,
            zPosition: self.zPosition,
            storageArrays: slots,
            blockBiomeArray: self.blockBiomeArray,
            revision: self.revision,
            sectionRevisions: self.sectionRevisions,
        }
    }
}

/// A successful store reads back as the stored (non-negative) id; a store,
/// refused or not, leaves every other block of the column as it was where
/// the section it lands in was missing or its local palette names every
/// stored entry and holds no negative id; and a store inside the column
/// succeeds into a missing section, into one whose local palette fits its
/// width, or into a registry section wide enough for the id.
pub proof fn lemma_chunk_set_then_get(
    c: Chunk,
    n: Chunk,
    x: usize,
    y: usize,
    z: usize,
    state: i32,
    sky: bool,
    res: Result<IBlockState, String>,
)
    requires
        c.wf(),
        n.wf(),
        set_block_outcome(c, n, x, y, z, state, sky, res),
    ensures
        res is Ok ==> n.state_at(x, y, z) == clamp_state(state),
        in_column(x, y, z) ==> (c.section((y / 16) as int) matches Some(s)
            ==> s.states().palette_covers()) ==> forall|x2: usize, y2: usize, z2: usize|
            !(x2 == x && y2 == y && z2 == z) ==> #[trigger] n.state_at(x2, y2, z2) == c.state_at(x2, y2, z2),
        in_column(x, y, z) && (c.section((y / 16) as int) matches Some(s) ==> match s.states().palette_entries() {
            Some(e) => e.len() <= pow2(s.states().spec_bits()),
            None => fits(clamp_state(state) as u32, s.states().spec_bits()),
        }) ==> res is Ok,
{
    if in_column(x, y, z) {
        let si = (y / 16) as int;
        let idx = block_index(x, y % 16, z) as int;
        lemma_block_index(x, y % 16, z);
        assert(c.slots()[si] == c.slots()[si]);
        assert(n.slots()[si] == n.slots()[si]);
        let ns = n.section(si)->Some_0;
        match c.section(si) {
            Some(s) => {
                lemma_set_reads_back(s.states(), ns.states(), idx, state, state_result(res));
                if s.states().palette_covers() {
                    lemma_set_keeps_other_blocks(s.states(), ns.states(), idx, state, state_result(res));
                }
            },
            None => {
                assert(ns.states().states()[idx] == clamp_state(state));
            },
        }
        if c.section(si) matches Some(s) ==> s.states().palette_covers() {
            assert forall|x2: usize, y2: usize, z2: usize|
                !(x2 == x && y2 == y && z2 == z) implies #[trigger] n.state_at(x2, y2, z2) == c.state_at(
                    x2,
                    y2,
                    z2,
                ) by {
                if in_column(x2, y2, z2) {
                    let sj = (y2 / 16) as int;
                    lemma_block_index(x2, y2 % 16, z2);
                    if sj != si {
                        assert(n.slots()[sj] == c.slots()[sj]);
                    } else {
                        let j = block_index(x2, y2 % 16, z2) as int;
                        assert(j != idx);
                        match c.section(si) {
                            Some(s) => {
                                assert(ns.states().state_at(j) == s.states().state_at(j));
                            },
                            None => {
                                assert(ns.states().states()[j] == 0);
                            },
                        }
                    }
                }
            }
        }
    }
}

} // verus!
