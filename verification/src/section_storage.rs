use vstd::prelude::*;
use crate::block_state_container::{BlockStateContainer, block_index, SECTION_VOLUME};

verus! {

/// Number of bytes of a section's light array: two 4-bit values per byte.
pub const NIBBLE_BYTES: usize = 2048;

/// The 4-bit value at `index` of packed nibbles: even indices in the low
/// half of a byte, odd ones in the high half.
pub open spec fn nibble_at(data: Seq<u8>, index: int) -> u8 {
    if index % 2 == 0 { data[index / 2] & 0x0f } else { (data[index / 2] >> 4u8) & 0x0f }
}

/// One 4-bit value per block of a section (light levels).
#[derive(Debug)]
pub struct NibbleArray {
    data: Vec<u8>,
}

impl NibbleArray {
    /// The packed bytes.
    pub closed spec fn bytes(&self) -> Seq<u8> {
        self.data@
    }

    /// Exactly 2048 bytes.
    pub closed spec fn wf(&self) -> bool {
        self.data@.len() == NIBBLE_BYTES
    }

    /// The value of block `index`, `0` outside the section.
    pub open spec fn value_at(&self, index: int) -> u8 {
        if 0 <= index < SECTION_VOLUME { nibble_at(self.bytes(), index) } else { 0 }
    }

    /// All zero.
    pub fn new() -> (a: NibbleArray)
        ensures
            a.wf(),
            a.bytes() == Seq::new(NIBBLE_BYTES as nat, |i: int| 0u8),
    {
        let a = NibbleArray { data: vec![0u8; NIBBLE_BYTES] };
        proof {
            assert(a.data@ =~= Seq::new(NIBBLE_BYTES as nat, |i: int| 0u8));
        }
        a
    }

    /// The array packed in `data`; `None` unless it is exactly 2048 bytes.
    pub fn fromBytes(data: Vec<u8>) -> (res: Option<NibbleArray>)
        ensures
            res is Some <==> data@.len() == NIBBLE_BYTES,
            res matches Some(a) ==> a.wf() && a.bytes() == data@,
    {
        if data.len() == NIBBLE_BYTES {
            Some(NibbleArray { data })
        } else {
            None
        }
    }

    /// The value of block `(x, y, z)`.
    pub fn get(&self, x: usize, y: usize, z: usize) -> (v: u8)
        requires
            self.wf(),
        ensures
            v == self.value_at(block_index(x, y, z) as int),
            v < 16,
    {
        let index = BlockStateContainer::getIndex(x, y, z);
        if index >= SECTION_VOLUME {
            return 0;
        }
        let byte = self.data[index / 2];
        proof {
            assert(byte & 0x0f < 16u8) by (bit_vector);
            assert((byte >> 4u8) & 0x0f < 16u8) by (bit_vector);
        }
        if index % 2 == 0 {
            byte & 0x0f
        } else {
            (byte >> 4u8) & 0x0f
        }
    }
}

/// One 16-block-high section of a chunk: its block states and light.
#[derive(Debug)]
pub struct ExtendedBlockStorage {
    yBase: i32,
    data: BlockStateContainer,
    blocklightArray: NibbleArray,
    skylightArray: Option<NibbleArray>,
}

impl ExtendedBlockStorage {
    /// Height of the section's lowest block.
    pub closed spec fn y_base(&self) -> i32 {
        self.yBase
    }

    /// The section's block states.
    pub closed spec fn states(&self) -> BlockStateContainer {
        self.data
    }

    /// The emitted-light array.
    pub closed spec fn block_light(&self) -> NibbleArray {
        self.blocklightArray
    }

    /// The sky-light array, where the dimension has one.
    pub closed spec fn sky_light(&self) -> Option<NibbleArray> {
        self.skylightArray
    }

    /// Block states and light arrays are well formed.
    pub open spec fn wf(&self) -> bool {
        &&& self.states().wf()
        &&& self.block_light().wf()
        &&& (self.sky_light() matches Some(a) ==> a.wf())
    }

    /// A section assembled from network data.
    pub fn fromNetwork(
        y: i32,
        data: BlockStateContainer,
        blocklightArray: NibbleArray,
        skylightArray: Option<NibbleArray>,
    ) -> (s: ExtendedBlockStorage)
        ensures
            s.y_base() == y,
            s.states() == data,
            s.block_light() == blocklightArray,
            s.sky_light() == skylightArray,
    {
        ExtendedBlockStorage { yBase: y, data, blocklightArray, skylightArray }
    }

    /// Block-state id of block `(x, y, z)`.
    pub fn getGlobalStateId(&self, x: usize, y: usize, z: usize) -> (id: i32)
        requires
            self.wf(),
        ensures
            id == self.states().state_at(block_index(x, y, z) as int),
    {
        self.data.getGlobalStateId(x, y, z)
    }

    /// Emitted light at block `(x, y, z)`.
    pub fn getExtBlocklightValue(&self, x: usize, y: usize, z: usize) -> (v: u8)
        requires
            self.wf(),
        ensures
            v == self.block_light().value_at(block_index(x, y, z) as int),
    {
        self.blocklightArray.get(x, y, z)
    }

    /// Sky light at block `(x, y, z)`; `0` without a sky-light array.
    pub fn getExtSkylightValue(&self, x: usize, y: usize, z: usize) -> (v: u8)
        requires
            self.wf(),
        ensures
            v == match self.sky_light() {
                Some(a) => a.value_at(block_index(x, y, z) as int),
                None => 0u8,
            },
    {
        match &self.skylightArray {
            Some(a) => a.get(x, y, z),
            None => 0,
        }
    }

    /// Height of the section's lowest block.
    pub fn getYLocation(&self) -> (y: i32)
        ensures
            y == self.y_base(),
    {
        self.yBase
    }

    /// The section's block states.
    pub fn getData(&self) -> (d: &BlockStateContainer)
        ensures
            *d == self.states(),
    {
        &self.data
    }

    /// The section's block states, for changing them.
    pub fn getDataMut(&mut self) -> (d: &mut BlockStateContainer)
        ensures
            *d == old(self).states(),
            final(self).states() == *final(d),
            final(self).y_base() == old(self).y_base(),
            final(self).block_light() == old(self).block_light(),
            final(self).sky_light() == old(self).sky_light(),
    {
        &mut self.data
    }
}


/// A copy of `v`.
pub fn copy_bytes(v: &Vec<u8>) -> (res: Vec<u8>)
    ensures
        res@ == v@,
{
    let mut res: Vec<u8> = Vec::new();
    let mut i: usize = 0;
    while i < v.len()
        invariant
            i <= v@.len(),
            res@ == v@.take(i as int),
        decreases v@.len() - i,
    {
        res.push(v[i]);
        i = i + 1;
        proof {
            assert(res@ =~= v@.take(i as int));
        }
    }
    proof {
        assert(res@ =~= v@);
    }
    res
}

impl Clone for NibbleArray {
    /// A copy with the same bytes.
    fn clone(&self) -> (res: Self)
        ensures
            res.bytes() == self.bytes(),
    {
        NibbleArray { data: copy_bytes(&self.data) }
    }
}

impl Clone for ExtendedBlockStorage {
    /// A copy with the same height, block states and light.
    fn clone(&self) -> (res: Self)
        ensures
            res.same_content(self),
            self.wf() ==> res.wf(),
    {
        let sky = match &self.skylightArray {
            Some(a) => Some(a.clone()),
            None => None,
        };
        ExtendedBlockStorage {
            yBase: self.yBase,
            data: self.data.clone(),
            blocklightArray: self.blocklightArray.clone(),
            skylightArray: sky,
        }
    }
}

impl ExtendedBlockStorage {
    /// Same height and light.
    pub open spec fn same_frame(&self, other: &ExtendedBlockStorage) -> bool {
        &&& self.y_base() == other.y_base()
        &&& self.block_light().bytes() == other.block_light().bytes()
        &&& match (self.sky_light(), other.sky_light()) {
            (Some(a), Some(b)) => a.bytes() == b.bytes(),
            (None, None) => true,
            _ => false,
        }
    }

    /// Same height, block states and light.
    pub open spec fn same_content(&self, other: &ExtendedBlockStorage) -> bool {
        &&& self.same_frame(other)
        &&& self.states().same_content(&other.states())
    }

    /// Height `y`, all light zero, and a sky-light array exactly when `sky`.
    pub open spec fn fresh_frame(&self, y: i32, sky: bool) -> bool {
        &&& self.y_base() == y
        &&& self.block_light().bytes() == Seq::new(NIBBLE_BYTES as nat, |i: int| 0u8)
        &&& match self.sky_light() {
            Some(a) => sky && a.bytes() == Seq::new(NIBBLE_BYTES as nat, |i: int| 0u8),
            None => !sky,
        }
    }
}

} // verus!
