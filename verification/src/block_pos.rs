use vstd::prelude::*;

verus! {

/// A block position in the world.
#[derive(Debug, Clone, Copy, PartialEq, Eq, Hash)]
pub struct BlockPos {
    pub x: i32,
    pub y: i32,
    pub z: i32,
}

/// The packed `x` field (26 bits from bit 38), sign-extended.
pub open spec fn packed_x(v: i64) -> i32 {
    (v >> 38u64) as i32
}

/// The packed `y` field (12 bits from bit 26), sign-extended.
pub open spec fn packed_y(v: i64) -> i32 {
    ((v << 26u64) >> 52u64) as i32
}

/// The packed `z` field (26 bits from bit 0), sign-extended.
pub open spec fn packed_z(v: i64) -> i32 {
    ((v << 38u64) >> 38u64) as i32
}

/// The 64-bit packing of a position: `x` in the high 26 bits, `y` in the
/// next 12, `z` in the low 26.
pub open spec fn pack_pos(x: i32, y: i32, z: i32) -> i64 {
    ((((x as i64) & 0x3ff_ffff) << 38u64) | (((y as i64) & 0xfff) << 26u64) | ((z as i64) & 0x3ff_ffff)) as i64
}

/// Whether a position can be packed without loss: `x` and `z` fit 26
/// signed bits and `y` fits 12.
pub open spec fn packable(x: i32, y: i32, z: i32) -> bool {
    -0x200_0000 <= x < 0x200_0000 && -0x800 <= y < 0x800 && -0x200_0000 <= z < 0x200_0000
}

impl BlockPos {
    /// The origin.
    pub fn origin() -> (p: BlockPos)
        ensures
            p.x == 0 && p.y == 0 && p.z == 0,
    {
        BlockPos { x: 0, y: 0, z: 0 }
    }

    pub fn new(x: i32, y: i32, z: i32) -> (p: BlockPos)
        ensures
            p.x == x && p.y == y && p.z == z,
    {
        BlockPos { x, y, z }
    }

    /// Unpacks a position from its 64-bit packing.
    pub fn from_long(v: i64) -> (p: BlockPos)
        ensures
            p.x == packed_x(v),
            p.y == packed_y(v),
            p.z == packed_z(v),
    {
        proof {
            assert((v >> 38u64) >= -0x200_0000 && (v >> 38u64) < 0x200_0000) by (bit_vector);
            assert(((v << 26u64) >> 52u64) >= -0x800 && ((v << 26u64) >> 52u64) < 0x800) by (bit_vector);
            assert(((v << 38u64) >> 38u64) >= -0x200_0000 && ((v << 38u64) >> 38u64) < 0x200_0000) by (bit_vector);
        }
        BlockPos {
            x: (v >> 38u64) as i32,
            y: ((v << 26u64) >> 52u64) as i32,
            z: ((v << 38u64) >> 38u64) as i32,
        }
    }

    /// Packs the position into 64 bits (coordinates are truncated to their
    /// field widths).
    pub fn to_long(&self) -> (v: i64)
        ensures
            v == pack_pos(self.x, self.y, self.z),
    {
        (((self.x as i64) & 0x3ff_ffff) << 38u64) | (((self.y as i64) & 0xfff) << 26u64) | ((self.z as i64)
            & 0x3ff_ffff)
    }
}

/// Unpacking a packed position gives back every position whose
/// coordinates fit their fields.
pub proof fn lemma_pos_roundtrip(x: i32, y: i32, z: i32)
    requires
        packable(x, y, z),
    ensures
        packed_x(pack_pos(x, y, z)) == x,
        packed_y(pack_pos(x, y, z)) == y,
        packed_z(pack_pos(x, y, z)) == z,
{
    let xx = x as i64;
    let yy = y as i64;
    let zz = z as i64;
    assert({
        let v = ((xx & 0x3ff_ffff) << 38u64) | ((yy & 0xfff) << 26u64) | (zz & 0x3ff_ffff);
        &&& v >> 38u64 == xx
        &&& (v << 26u64) >> 52u64 == yy
        &&& (v << 38u64) >> 38u64 == zz
    }) by (bit_vector)
        requires
            -0x200_0000 <= xx < 0x200_0000,
            -0x800 <= yy < 0x800,
            -0x200_0000 <= zz < 0x200_0000,
    ;
}

/// A block state by its global id.
#[derive(Debug, Clone, Copy, PartialEq, Eq, Hash)]
pub struct IBlockState {
    id: i32,
}

impl IBlockState {
    /// Its global id.
    pub closed spec fn spec_id(&self) -> i32 {
        self.id
    }

    /// The state with global id `id`.
    pub fn fromGlobalStateId(id: i32) -> (s: IBlockState)
        ensures
            s.spec_id() == id,
    {
        IBlockState { id }
    }

    /// Its global id.
    pub fn getGlobalStateId(&self) -> (id: i32)
        ensures
            id == self.spec_id(),
    {
        self.id
    }

    /// Its block id: the id without its four metadata bits.
    pub fn getBlockId(&self) -> (b: i32)
        ensures
            b == self.spec_id() >> 4u32,
    {
        self.id >> 4u32
    }

    /// Whether it is air (block id `0`).
    pub fn isAir(&self) -> (b: bool)
        ensures
            b == (self.spec_id() >> 4u32 == 0),
    {
        (self.id >> 4u32) == 0
    }
}

/// Read-only block access by position: an implementation gives, at each
/// position, the state that [`IBlockAccess::block_state_at`] names.
pub trait IBlockAccess {
    /// The state of the block at `pos`.
    spec fn block_state_at(&self, pos: BlockPos) -> IBlockState;

    fn getBlockState(&self, pos: BlockPos) -> (s: IBlockState)
        ensures
            s == self.block_state_at(pos),
    ;

    /// Whether the block at `pos` is air.
    fn isAirBlock(&self, pos: BlockPos) -> (b: bool)
        ensures
            b == (self.block_state_at(pos).spec_id() >> 4u32 == 0),
    {
        self.getBlockState(pos).isAir()
    }
}

} // verus!
