use vstd::prelude::*;
use vstd::arithmetic::power2::{pow2, lemma_pow2_unfold, lemma2_to64, lemma_pow2_pos, lemma_pow2_strictly_increases};
use crate::bit_array::{lemma_entries_fit, BitArray, fits, lemma_fits_wider, backing_len, packed_entry, backing_error};
use crate::codec::{CodecError, PacketReader, read_u8, read_var_i32, read_var_list, read_long_list, parse_var_i32,
    parse_var_list, parse_long_list, lemma_var_scan_bound, var_list_taken, long_list_taken};

verus! {

/// Number of blocks in a 16x16x16 section.
pub const SECTION_VOLUME: usize = 4096;

/// How entries of a container map to global block-state ids: through a
/// local list of ids, or directly.
#[derive(Debug, PartialEq, Eq)]
pub enum Palette {
    Local(Vec<i32>),
    Registry,
}

/// The ids of a palette: `Some(list)` for a local palette, `None` for the
/// global registry.
pub open spec fn palette_view(p: &Palette) -> Option<Seq<i32>> {
    match p {
        Palette::Local(e) => Some(e@),
        Palette::Registry => None,
    }
}

/// The block-state id that a stored entry stands for: a local palette
/// entry, `0` for an entry past the local palette's end, or the entry
/// itself under the registry.
pub open spec fn decode_state(palette: Option<Seq<i32>>, value: u32) -> i32 {
    match palette {
        Some(e) => if (value as int) < e.len() { e[value as int] } else { 0 },
        None => value as i32,
    }
}

/// Index of block `(x, y, z)` in a section: `y << 8 | z << 4 | x`.
pub open spec fn block_index(x: usize, y: usize, z: usize) -> usize {
    (y << 8usize) | (z << 4usize) | x
}

/// The id stored for a request: negative ids become `0`.
pub open spec fn clamp_state(state: i32) -> i32 {
    if state < 0 { 0 } else { state }
}

/// Whether `p` is the first position of `v` in `e`.
pub open spec fn is_first_position(e: Seq<i32>, v: i32, p: int) -> bool {
    0 <= p < e.len() && e[p] == v && forall|j: int| 0 <= j < p ==> e[j] != v
}

/// First position of `v` in `e`, or `0` when `v` does not occur.
pub open spec fn position_or_zero(e: Seq<i32>, v: i32) -> int {
    if exists|p: int| is_first_position(e, v, p) {
        choose|p: int| is_first_position(e, v, p)
    } else {
        0
    }
}

/// Number of significant bits of `x`.
pub open spec fn bit_len(x: u32) -> nat
    decreases x,
{
    if x == 0 { 0 } else { 1 + bit_len(x / 2) }
}

/// Largest of `init` and the elements of `s`.
pub open spec fn seq_max(s: Seq<i32>, init: i32) -> i32
    decreases s.len(),
{
    if s.len() == 0 {
        init
    } else {
        let m = seq_max(s.drop_last(), init);
        if s.last() > m { s.last() } else { m }
    }
}

/// Entries after a local palette of width `bits` grows by one bit to make
/// room for `s`: every other entry is re-pointed at the first position of
/// its old id in the grown palette, and `index` points at the new id.
pub open spec fn grown_raw(e: Seq<i32>, raw: Seq<u32>, index: int, s: i32) -> Seq<u32> {
    Seq::new(SECTION_VOLUME as nat, |i: int|
        if i == index {
            e.len() as u32
        } else {
            position_or_zero(e.push(s), decode_state(Some(e), raw[i])) as u32
        })
}

/// Entries after a full local palette of width `bits` grows by one bit to
/// make room for `s`, before the new id is stored: every entry is
/// re-pointed at the first position of its old id in the grown palette.
pub open spec fn regrown_raw(e: Seq<i32>, raw: Seq<u32>, s: i32) -> Seq<u32> {
    Seq::new(SECTION_VOLUME as nat, |i: int| position_or_zero(e.push(s), decode_state(Some(e), raw[i])) as u32)
}

/// Entries after a full eight-bit local palette gives way to the registry:
/// every other block keeps its id (negative ids become `0`), and `index`
/// holds `s`.
pub open spec fn registry_raw(states: Seq<i32>, index: int, s: i32) -> Seq<u32> {
    Seq::new(SECTION_VOLUME as nat, |i: int| if i == index { s as u32 } else { clamp_state(states[i]) as u32 })
}

/// Width of entries after switching to the registry: enough bits for the
/// largest id, and at least nine.
pub open spec fn registry_bits(states: Seq<i32>, s: i32) -> nat {
    let b = bit_len(seq_max(states, s) as u32);
    if b < 9 { 9 } else { b }
}

/// What storing `state` at `index` does to a container `c`, giving `n` and
/// the result `res`.
pub open spec fn set_outcome(
    c: BlockStateContainer,
    n: BlockStateContainer,
    index: int,
    state: i32,
    res: Result<i32, String>,
) -> bool {
    let s = clamp_state(state);
    if !(0 <= index < SECTION_VOLUME) {
        res is Err && n.same_content(&c)
    } else {
        match c.palette_entries() {
            None => if fits(s as u32, c.spec_bits()) {
                &&& res == Ok::<i32, String>(c.state_at(index))
                &&& n.palette_entries() is None
                &&& n.spec_bits() == c.spec_bits()
                &&& n.raw() == c.raw().update(index, s as u32)
            } else {
                res is Err && n.same_content(&c)
            },
            Some(e) => {
                &&& if e.contains(s) {
                    if fits(position_or_zero(e, s) as u32, c.spec_bits()) {
                        &&& res == Ok::<i32, String>(c.state_at(index))
                        &&& n.palette_entries() == Some(e)
                        &&& n.spec_bits() == c.spec_bits()
                        &&& n.raw() == c.raw().update(index, position_or_zero(e, s) as u32)
                    } else {
                        res is Err && n.same_content(&c)
                    }
                } else if e.len() < pow2(c.spec_bits()) {
                    &&& res == Ok::<i32, String>(c.state_at(index))
                    &&& n.palette_entries() == Some(e.push(s))
                    &&& n.spec_bits() == c.spec_bits()
                    &&& n.raw() == c.raw().update(index, e.len() as u32)
                } else if c.spec_bits() < 8 {
                    &&& n.palette_entries() == Some(e.push(s))
                    &&& n.spec_bits() == c.spec_bits() + 1
                    &&& if fits(e.len() as u32, c.spec_bits() + 1) {
                        res == Ok::<i32, String>(c.state_at(index)) && n.raw() == grown_raw(e, c.raw(), index, s)
                    } else {
                        res is Err && n.raw() == regrown_raw(e, c.raw(), s)
                    }
                } else {
                    &&& res == Ok::<i32, String>(c.state_at(index))
                    &&& n.palette_entries() is None
                    &&& n.spec_bits() == registry_bits(c.states(), s)
                    &&& n.raw() == registry_raw(c.states(), index, s)
                }
            },
        }
    }
}


/// Decoding of a block-state palette of width `bits` at the start of `s`:
/// up to eight bits, a non-negative VarInt count of VarInt ids; above eight
/// bits, nothing (the registry).
pub open spec fn parse_palette(s: Seq<u8>, bits: nat) -> Result<(Option<Seq<i32>>, nat), CodecError> {
    if bits <= 8 {
        match parse_var_i32(s) {
            Err(e) => Err(e),
            Ok((count, n)) => if count < 0 {
                Err(CodecError::NegativeLength(count))
            } else {
                match parse_var_list(s.skip(n as int), count as nat) {
                    Err(e) => Err(e),
                    Ok((entries, m)) => Ok((Some(entries), n + m)),
                }
            },
        }
    } else {
        Ok((None, 0))
    }
}

/// Bytes a palette read of width `bits` has taken when it fails: the
/// count, when it was read, and the whole ids before the failing one.
pub open spec fn palette_taken(s: Seq<u8>, bits: nat) -> nat {
    if bits <= 8 {
        match parse_var_i32(s) {
            Err(_) => 0,
            Ok((count, n)) => if count < 0 {
                n
            } else {
                n + var_list_taken(s.skip(n as int), count as nat)
            },
        }
    } else {
        0
    }
}

/// Decoding of the packed words of a section: a VarInt count of
/// big-endian words.
pub open spec fn parse_backing(s: Seq<u8>) -> Result<(Seq<u64>, nat), CodecError> {
    match parse_var_i32(s) {
        Err(e) => Err(e),
        Ok((long_count, n)) => if long_count < 0 {
            Err(CodecError::NegativeLength(long_count))
        } else {
            match parse_long_list(s.skip(n as int), long_count as nat) {
                Err(e) => Err(e),
                Ok((longs, m)) => Ok((longs, n + m)),
            }
        },
    }
}

/// Bytes a read of packed words has taken when it fails: the count, when
/// it was read, and the whole words before the failing one.
pub open spec fn backing_taken(s: Seq<u8>) -> nat {
    match parse_var_i32(s) {
        Err(_) => 0,
        Ok((long_count, n)) => if long_count < 0 {
            n
        } else {
            n + long_list_taken(s.skip(n as int), long_count as nat)
        },
    }
}

/// Whether `len` words hold the 4096 entries of width `bits`.
pub open spec fn backing_fits(bits: nat, len: nat) -> bool {
    1 <= bits <= 32 && len == backing_len(bits, SECTION_VOLUME as nat)
}

/// Entry width named by a section's width byte: four bits at least.
pub open spec fn container_bits(packet_bits: u8) -> nat {
    if packet_bits <= 4 { 4 } else { packet_bits as nat }
}

/// Decoding of a section's block states at the start of `s`: its palette
/// (`None` for the registry), its entry width, its packed words, and the
/// number of bytes it took.
pub open spec fn parse_container(s: Seq<u8>) -> Result<(Option<Seq<i32>>, nat, Seq<u64>, nat), CodecError> {
    if s.len() == 0 {
        Err(CodecError::UnexpectedEof)
    } else {
        let bits = container_bits(s[0]);
        match parse_palette(s.skip(1), bits) {
            Err(e) => Err(e),
            Ok((p, used)) => match parse_backing(s.skip((1 + used) as int)) {
                Err(e) => Err(e),
                Ok((longs, m)) => Ok((p, bits, longs, 1 + used + m)),
            },
        }
    }
}

/// Bytes a section read has taken when it fails: the width byte, when it
/// was read, then what the failing palette or word read took.
pub open spec fn container_taken(s: Seq<u8>) -> nat {
    if s.len() == 0 {
        0
    } else {
        let bits = container_bits(s[0]);
        match parse_palette(s.skip(1), bits) {
            Err(_) => 1 + palette_taken(s.skip(1), bits),
            Ok((p, used)) => 1 + used + backing_taken(s.skip((1 + used) as int)),
        }
    }
}

/// The 4096 block-state ids of one chunk section, packed as palette indices.
#[derive(Debug)]
pub struct BlockStateContainer {
    storage: BitArray,
    palette: Palette,
    bits: usize,
}

impl BlockStateContainer {
    /// The stored entries, one per block.
    pub closed spec fn raw(&self) -> Seq<u32> {
        self.storage.entries()
    }

    /// The palette's ids (`None` under the registry).
    pub closed spec fn palette_entries(&self) -> Option<Seq<i32>> {
        palette_view(&self.palette)
    }

    /// Width of each stored entry.
    pub closed spec fn spec_bits(&self) -> nat {
        self.bits as nat
    }

    /// Storage holds one entry per block at the container's width; a local
    /// palette is four to eight bits wide, with no more ids than a decoded
    /// count and the growths since; the registry is nine to thirty-two bits
    /// wide.
    pub closed spec fn wf(&self) -> bool {
        &&& self.storage.wf()
        &&& self.storage.entries().len() == SECTION_VOLUME
        &&& self.storage.spec_bits() == self.bits
        &&& 4 <= self.bits <= 32
        &&& match self.palette {
            Palette::Local(e) => self.bits <= 8 && e@.len() <= 0x7fff_ffff + (self.bits - 4),
            Palette::Registry => self.bits >= 9,
        }
    }

    /// Block-state id at `index`; an index past the section reads entry `0`.
    pub open spec fn state_at(&self, index: int) -> i32 {
        decode_state(
            self.palette_entries(),
            if 0 <= index < SECTION_VOLUME { self.raw()[index] } else { 0 },
        )
    }

    /// The ids of all blocks, by index.
    pub open spec fn states(&self) -> Seq<i32> {
        Seq::new(SECTION_VOLUME as nat, |i: int| self.state_at(i))
    }

    /// A local palette fits its width, every entry names a palette id, and
    /// every id is non-negative.
    pub open spec fn canonical(&self) -> bool {
        match self.palette_entries() {
            Some(e) => e.len() <= pow2(self.spec_bits())
                && (forall|i: int| 0 <= i < SECTION_VOLUME ==> (#[trigger] self.raw()[i] as int) < e.len())
                && (forall|k: int| 0 <= k < e.len() ==> #[trigger] e[k] >= 0),
            None => forall|i: int| 0 <= i < SECTION_VOLUME ==> #[trigger] self.raw()[i] < 0x8000_0000u32,
        }
    }

    /// A local palette names every stored entry and holds no negative id.
    pub open spec fn palette_covers(&self) -> bool {
        match self.palette_entries() {
            Some(e) => (forall|i: int| 0 <= i < SECTION_VOLUME ==> (#[trigger] self.raw()[i] as int) < e.len())
                && (forall|k: int| 0 <= k < e.len() ==> #[trigger] e[k] >= 0),
            None => true,
        }
    }

    /// A section of air: a four-bit local palette holding only id `0`.
    pub fn new() -> (c: BlockStateContainer)
        ensures
            c.wf(),
            c.canonical(),
            c.spec_bits() == 4,
            c.palette_entries() == Some(seq![0i32]),
            c.raw() == Seq::new(SECTION_VOLUME as nat, |i: int| 0u32),
            c.states() == Seq::new(SECTION_VOLUME as nat, |i: int| 0i32),
    {
        let mut entries: Vec<i32> = Vec::new();
        entries.push(0);
        let c = BlockStateContainer {
            storage: BitArray::zeroed(4, SECTION_VOLUME),
            palette: Palette::Local(entries),
            bits: 4,
        };
        proof {
            lemma2_to64();
            assert(c.palette_entries() == Some(seq![0i32])) by {
                assert(entries@ =~= seq![0i32]);
            }
            assert(c.states() =~= Seq::new(SECTION_VOLUME as nat, |i: int| 0i32));
        }
        c
    }

    /// Reads a section's block states. The fields are read in turn, so a
    /// failure leaves read what was read before it; words that do not make
    /// an array of the section's width are refused with the array's error.
    #[verifier::spinoff_prover]
    #[verifier::rlimit(60)]
    pub fn read(buf: &mut PacketReader) -> (res: Result<BlockStateContainer, CodecError>)
        requires
            old(buf).wf(),
        ensures
            final(buf).wf(),
            final(buf).source() == old(buf).source(),
            match parse_container(old(buf).rest()) {
                Ok((palette, bits, longs, n)) => final(buf).rest() == old(buf).rest().skip(n as int) && if backing_fits(
                    bits,
                    longs.len(),
                ) {
                    res is Ok && {
                        let c = res->Ok_0;
                        &&& c.wf()
                        &&& c.palette_entries() == palette
                        &&& c.spec_bits() == bits
                        &&& c.raw() == Seq::new(SECTION_VOLUME as nat, |i: int| packed_entry(longs, bits, i as nat))
                    }
                } else {
                    res matches Err(CodecError::InvalidData(m)) && m@ == backing_error(bits, SECTION_VOLUME as nat)
                },
                Err(e) => res == Err::<BlockStateContainer, CodecError>(e) && final(buf).rest() == old(buf).rest().skip(
                    container_taken(old(buf).rest()) as int,
                ),
            },
    {
        let ghost s = buf.rest();
        let r = buf;
        let packet_bits = match read_u8(r) {
            Ok(b) => b,
            Err(e) => {
                return Err(e);
            },
        };
        let bits: usize = if packet_bits <= 4 { 4 } else { packet_bits as usize };
        proof {
            assert(r.rest() =~= s.skip(1));
        }
        let palette = match read_palette(r, bits) {
            Ok(p) => p,
            Err(e) => {
                proof {
                    lemma_palette_taken_bound(s.skip(1), bits as nat);
                    assert(r.rest() =~= s.skip((1 + palette_taken(s.skip(1), bits as nat)) as int));
                }
                return Err(e);
            },
        };
        let ghost used = parse_palette(s.skip(1), bits as nat)->Ok_0.1;
        proof {
            assert(r.rest() =~= s.skip((1 + used) as int));
        }
        let longs = match read_backing(r) {
            Ok(v) => v,
            Err(e) => {
                proof {
                    lemma_backing_taken_bound(s.skip((1 + used) as int));
                    assert(r.rest() =~= s.skip((1 + used + backing_taken(s.skip((1 + used) as int))) as int));
                }
                return Err(e);
            },
        };
        let ghost m = parse_backing(s.skip((1 + used) as int))->Ok_0.1;
        proof {
            assert(r.rest() =~= s.skip((1 + used + m) as int));
        }
        let storage = match BitArray::fromBacking(bits, SECTION_VOLUME, longs) {
            Ok(a) => a,
            Err(m) => {
                return Err(CodecError::InvalidData(m));
            },
        };
        proof {
            lemma2_to64();
        }
        Ok(BlockStateContainer { storage, palette, bits })
    }

    /// Index of block `(x, y, z)` in the section.
    pub fn getIndex(x: usize, y: usize, z: usize) -> (i: usize)
        ensures
            i == block_index(x, y, z),
    {
        (y << 8usize) | (z << 4usize) | x
    }

    /// Block-state id of block `(x, y, z)`.
    pub fn getGlobalStateId(&self, x: usize, y: usize, z: usize) -> (id: i32)
        requires
            self.wf(),
        ensures
            id == self.state_at(block_index(x, y, z) as int),
    {
        self.getGlobalStateIdAt(Self::getIndex(x, y, z))
    }

    /// Block-state id at `index`.
    pub fn getGlobalStateIdAt(&self, index: usize) -> (id: i32)
        requires
            self.wf(),
        ensures
            id == self.state_at(index as int),
    {
        let value: u32 = match self.storage.getAt(index) {
            Some(v) => v,
            None => 0,
        };
        match &self.palette {
            Palette::Local(entries) => {
                if (value as usize) < entries.len() {
                    entries[value as usize]
                } else {
                    0
                }
            },
            Palette::Registry => #[verifier::truncate] (value as i32),
        }
    }

    /// The ids of all blocks, read one by one.
    fn collect_states(&self) -> (v: Vec<i32>)
        requires
            self.wf(),
        ensures
            v@ == self.states(),
    {
        let mut v: Vec<i32> = Vec::new();
        let mut i: usize = 0;
        while i < SECTION_VOLUME
            invariant
                self.wf(),
                i <= SECTION_VOLUME,
                v@.len() == i,
                forall|j: int| 0 <= j < i ==> v@[j] == self.state_at(j),
            decreases SECTION_VOLUME - i,
        {
            v.push(self.getGlobalStateIdAt(i));
            i = i + 1;
        }
        proof {
            assert(v@ =~= self.states());
        }
        v
    }

    /// Makes room for `stateId` in a full local palette: below eight bits
    /// the palette grows by one bit and gains `stateId`; at eight bits the
    /// container switches to the registry. Every block keeps its id (under
    /// the registry negative ids become `0`). Returns the entry that stands
    /// for `stateId`.
    fn resizeForState(&mut self, stateId: i32) -> (entry: u32)
        requires
            old(self).wf(),
            stateId >= 0,
            old(self).palette_entries() matches Some(e) && !e.contains(stateId) && e.len() >= pow2(old(self).spec_bits()),
        ensures
            final(self).wf(),
            ({
                let e = old(self).palette_entries()->Some_0;
                let states = old(self).states();
                if old(self).spec_bits() < 8 {
                    &&& final(self).spec_bits() == old(self).spec_bits() + 1
                    &&& final(self).palette_entries() == Some(e.push(stateId))
                    &&& final(self).raw() == regrown_raw(e, old(self).raw(), stateId)
                    &&& entry == e.len()
                } else {
                    &&& final(self).spec_bits() == registry_bits(states, stateId)
                    &&& final(self).palette_entries() is None
                    &&& final(self).raw() == Seq::new(SECTION_VOLUME as nat, |i: int| clamp_state(states[i]) as u32)
                    &&& entry == stateId as u32
                    &&& fits(entry, final(self).spec_bits())
                }
            }),
    {
        let old_values = self.collect_states();
        let ghost e = self.palette_entries()->Some_0;
        let ghost states = self.states();
        let ghost raw0 = self.raw();
        let ghost b0 = self.spec_bits();
        proof {
            lemma_entries_fit(&self.storage);
        }
        if self.bits < 8 {
            let mut entries: Vec<i32> = Vec::new();
            match &self.palette {
                Palette::Local(current) => {
                    let mut k: usize = 0;
                    while k < current.len()
                        invariant
                            k <= current@.len(),
                            entries@ == current@.take(k as int),
                        decreases current@.len() - k,
                    {
                        entries.push(current[k]);
                        k = k + 1;
                        proof {
                            assert(entries@ =~= current@.take(k as int));
                        }
                    }
                    proof {
                        assert(entries@ =~= current@);
                    }
                },
                Palette::Registry => {},
            }
            entries.push(stateId);
            let new_bits = self.bits + 1;
            proof {
                lemma_pow2_unfold(new_bits as nat);
                lemma_pow2_pos(self.bits as nat);
                assert(entries@ == e.push(stateId));
            }
            let mut storage = BitArray::zeroed(new_bits, SECTION_VOLUME);
            let mut i: usize = 0;
            while i < SECTION_VOLUME
                invariant
                    i <= SECTION_VOLUME,
                    storage.wf(),
                    storage.spec_bits() == new_bits,
                    4 < new_bits <= 8,
                    new_bits == b0 + 1,
                    entries@ == e.push(stateId),
                    e.len() >= pow2(b0),
                    pow2(new_bits as nat) == 2 * pow2(b0),
                    raw0.len() == SECTION_VOLUME,
                    forall|j: int| 0 <= j < SECTION_VOLUME ==> fits(#[trigger] raw0[j], b0),
                    forall|j: int| 0 <= j < SECTION_VOLUME ==> #[trigger] states[j] == decode_state(Some(e), raw0[j]),
                    old_values@ == states,
                    states.len() == SECTION_VOLUME,
                    storage.entries().len() == SECTION_VOLUME,
                    forall|j: int| 0 <= j < i ==> storage.entries()[j] == position_or_zero(e.push(stateId), states[j]) as u32,
                decreases SECTION_VOLUME - i,
            {
                let position: usize = match position_of(&entries, old_values[i]) {
                    Some(p) => p,
                    None => 0,
                };
                proof {
                    if entries@.contains(old_values@[i as int]) {
                        lemma_first_position(entries@, old_values@[i as int], position as int);
                    } else {
                        assert(!exists|p: int| is_first_position(entries@, old_values@[i as int], p));
                    }
                    lemma_regrown_position(e, stateId, raw0[i as int], b0);
                    assert((position as nat) < pow2(new_bits as nat));
                }
                let r = storage.setAt(i, position as u32);
                assert(r is Ok);
                i = i + 1;
            }
            proof {
                assert(storage.entries() =~= regrown_raw(e, raw0, stateId));
            }
            let n = entries.len();
            proof {
                assert(n == e.len() + 1);
                assert(n <= 0x7fff_ffff + (new_bits - 4));
            }
            self.bits = new_bits;
            self.palette = Palette::Local(entries);
            self.storage = storage;
            #[verifier::truncate] ((n - 1) as u32)
        } else {
            let mut maximum: i32 = stateId;
            let mut i: usize = 0;
            while i < SECTION_VOLUME
                invariant
                    i <= SECTION_VOLUME,
                    old_values@ == states,
                    states.len() == SECTION_VOLUME,
                    maximum == seq_max(states.take(i as int), stateId),
                decreases SECTION_VOLUME - i,
            {
                proof {
                    assert(states.take((i + 1) as int).drop_last() =~= states.take(i as int));
                }
                if old_values[i] > maximum {
                    maximum = old_values[i];
                }
                i = i + 1;
            }
            proof {
                assert(states.take(SECTION_VOLUME as int) =~= states);
                lemma_seq_max(states, stateId);
            }
            let length = bit_length(maximum as u32);
            let new_bits: usize = if length < 9 { 9 } else { length };
            let mut storage = BitArray::zeroed(new_bits, SECTION_VOLUME);
            let mut i: usize = 0;
            while i < SECTION_VOLUME
                invariant
                    i <= SECTION_VOLUME,
                    storage.wf(),
                    storage.spec_bits() == new_bits,
                    9 <= new_bits <= 32,
                    new_bits >= bit_len(maximum as u32),
                    maximum >= stateId,
                    stateId >= 0,
                    forall|j: int| 0 <= j < SECTION_VOLUME ==> states[j] <= maximum,
                    old_values@ == states,
                    states.len() == SECTION_VOLUME,
                    storage.entries().len() == SECTION_VOLUME,
                    forall|j: int| 0 <= j < i ==> storage.entries()[j] == clamp_state(states[j]) as u32,
                decreases SECTION_VOLUME - i,
            {
                let value = old_values[i];
                let stored: u32 = if value < 0 { 0 } else { value as u32 };
                proof {
                    lemma_fits_bit_len(stored, maximum as u32);
                    lemma_fits_wider(stored, bit_len(maximum as u32), new_bits as nat);
                }
                let r = storage.setAt(i, stored);
                assert(r is Ok);
                i = i + 1;
            }
            proof {
                assert(storage.entries() =~= Seq::new(SECTION_VOLUME as nat, |j: int| clamp_state(states[j]) as u32));
                lemma_fits_bit_len(stateId as u32, maximum as u32);
                lemma_fits_wider(stateId as u32, bit_len(maximum as u32), new_bits as nat);
            }
            self.bits = new_bits;
            self.palette = Palette::Registry;
            self.storage = storage;
            assert(self.spec_bits() == registry_bits(states, stateId));
            assert(self.raw() == Seq::new(SECTION_VOLUME as nat, |i: int| clamp_state(states[i]) as u32));
            stateId as u32
        }
    }

    /// Stores `stateId` (negative ids become `0`) at block `(x, y, z)`;
    /// see [`Self::setGlobalStateIdAt`].
    pub fn setGlobalStateId(&mut self, x: usize, y: usize, z: usize, stateId: i32) -> (res: Result<i32, String>)
        requires
            old(self).wf(),
        ensures
            final(self).wf(),
            set_outcome(*old(self), *final(self), block_index(x, y, z) as int, stateId, res),
    {
        self.setGlobalStateIdAt(Self::getIndex(x, y, z), stateId)
    }

    /// Stores `stateId` (negative ids become `0`) at `index` and returns
    /// the id that was there. A local palette reuses the id's first entry,
    /// appends it while there is room, grows by one bit when full below
    /// eight bits, and gives way to the registry when full at eight bits.
    /// Fails, changing nothing, past the section's end or when the registry
    /// is too narrow for the id.
    pub fn setGlobalStateIdAt(&mut self, index: usize, stateId: i32) -> (res: Result<i32, String>)
        requires
            old(self).wf(),
        ensures
            final(self).wf(),
            set_outcome(*old(self), *final(self), index as int, stateId, res),
    {
        if index >= SECTION_VOLUME {
            return Err(String::from_str("index out of bounds"));
        }
        let stateId: i32 = if stateId < 0 { 0 } else { stateId };
        let old = self.getGlobalStateIdAt(index);
        let ghost before = *self;
        let ghost states = self.states();
        let mut resize = false;
        let mut palette_index: u32 = 0;
        match &mut self.palette {
            Palette::Registry => {
                palette_index = stateId as u32;
            },
            Palette::Local(entries) => {
                match position_of(entries, stateId) {
                    Some(existing) => {
                        palette_index = existing as u32;
                        proof {
                            lemma_first_position(entries@, stateId, existing as int);
                            lemma_pow2_pos(before.bits as nat);
                        }
                    },
                    None => {
                        if entries.len() < local_capacity(self.bits) {
                            entries.push(stateId);
                            palette_index = (entries.len() - 1) as u32;
                        } else {
                            resize = true;
                        }
                    },
                }
            },
        }
        if resize {
            palette_index = self.resizeForState(stateId);
        }
        let ghost mid = *self;
        proof {
            lemma2_to64();
            if before.palette_entries() is Some {
                let e = before.palette_entries()->Some_0;
                if before.bits < 32 {
                    lemma_pow2_strictly_increases(before.bits as nat, 32);
                }
                if !resize && !e.contains(stateId) {
                    assert(fits(palette_index, mid.spec_bits()));
                }
            }
        }
        match self.storage.setAt(index, palette_index) {
            Ok(()) => {
                proof {
                    if before.palette_entries() is Some && resize {
                        let e = before.palette_entries()->Some_0;
                        if before.bits < 8 {
                            assert(self.raw() =~= grown_raw(e, before.raw(), index as int, stateId));
                        } else {
                            assert(self.raw() =~= registry_raw(states, index as int, stateId));
                        }
                    }
                }
                Ok(old)
            },
            Err(e) => Err(e),
        }
    }

    /// Width of each stored entry.
    pub fn bits(&self) -> (b: usize)
        ensures
            b == self.spec_bits(),
    {
        self.bits
    }

    /// The palette.
    pub fn palette(&self) -> (p: &Palette)
        ensures
            palette_view(p) == self.palette_entries(),
    {
        &self.palette
    }
}


/// First position of `v` in `entries`.
pub fn position_of(entries: &Vec<i32>, v: i32) -> (res: Option<usize>)
    ensures
        res matches Some(p) ==> is_first_position(entries@, v, p as int),
        res is None ==> !entries@.contains(v),
{
    let mut i: usize = 0;
    while i < entries.len()
        invariant
            i <= entries@.len(),
            forall|j: int| 0 <= j < i ==> entries@[j] != v,
        decreases entries@.len() - i,
    {
        if entries[i] == v {
            return Some(i);
        }
        i = i + 1;
    }
    None
}

/// The first position of a value is unique, and `position_or_zero` names it.
pub proof fn lemma_first_position(e: Seq<i32>, v: i32, p: int)
    requires
        is_first_position(e, v, p),
    ensures
        position_or_zero(e, v) == p,
{
    let q = choose|q: int| is_first_position(e, v, q);
    assert(is_first_position(e, v, q));
    if q < p {
        assert(e[q] != v);
    } else if p < q {
        assert(e[p] != v);
    }
}

/// A value that occurs has a first position, holding that value.
pub proof fn lemma_position_of_member(e: Seq<i32>, v: i32)
    requires
        e.contains(v),
    ensures
        is_first_position(e, v, position_or_zero(e, v)),
        e[position_or_zero(e, v)] == v,
    decreases e.len(),
{
    let k = choose|k: int| 0 <= k < e.len() && e[k] == v;
    // the least index holding v
    let w = choose|w: int| 0 <= w <= k && e[w] == v && forall|j: int| 0 <= j < w ==> e[j] != v;
    assert(exists|w: int| 0 <= w <= k && e[w] == v && forall|j: int| 0 <= j < w ==> e[j] != v) by {
        lemma_least_index(e, v, k);
    }
    lemma_first_position(e, v, w);
}

proof fn lemma_least_index(e: Seq<i32>, v: i32, k: int)
    requires
        0 <= k < e.len(),
        e[k] == v,
    ensures
        exists|w: int| 0 <= w <= k && e[w] == v && forall|j: int| 0 <= j < w ==> e[j] != v,
    decreases k,
{
    if exists|j: int| 0 <= j < k && e[j] == v {
        let j = choose|j: int| 0 <= j < k && e[j] == v;
        lemma_least_index(e, v, j);
    } else {
        assert(forall|j: int| 0 <= j < k ==> e[j] != v);
    }
}

/// `x` is below two to the power of its bit length, which is at most 32.
pub proof fn lemma_bit_len(x: u32)
    ensures
        (x as nat) < pow2(bit_len(x)),
        bit_len(x) <= 32,
        x > 0 ==> pow2((bit_len(x) - 1) as nat) <= x,
    decreases x,
{
    if x == 0 {
        lemma_pow2_pos(0);
    } else {
        lemma_bit_len(x / 2);
        lemma_pow2_unfold(bit_len(x));
        if x / 2 > 0 {
            lemma_pow2_unfold(bit_len(x / 2));
        } else {
            lemma2_to64();
        }
        if bit_len(x / 2) == 32 {
            lemma2_to64();
            assert(false);
        }
    }
}

/// A value no larger than `x` fits the bit length of `x`.
pub proof fn lemma_fits_bit_len(y: u32, x: u32)
    requires
        y <= x,
    ensures
        fits(y, bit_len(x) as nat),
{
    lemma_bit_len(x);
}

/// `seq_max` bounds its initial value and every element.
pub proof fn lemma_seq_max(s: Seq<i32>, init: i32)
    ensures
        init <= seq_max(s, init),
        forall|i: int| 0 <= i < s.len() ==> s[i] <= seq_max(s, init),
    decreases s.len(),
{
    if s.len() > 0 {
        lemma_seq_max(s.drop_last(), init);
        assert forall|i: int| 0 <= i < s.len() implies s[i] <= seq_max(s, init) by {
            if i < s.len() - 1 {
                assert(s[i] == s.drop_last()[i]);
            }
        }
    }
}

/// Below a full palette's length, an entry's id first occurs in the grown
/// palette no later than at the entry itself.
proof fn lemma_regrown_position(e: Seq<i32>, s: i32, r: u32, b: nat)
    requires
        fits(r, b),
        b < 32,
        e.len() >= pow2(b),
    ensures
        position_or_zero(e.push(s), decode_state(Some(e), r)) < pow2(b),
        position_or_zero(e.push(s), decode_state(Some(e), r)) >= 0,
{
    let v = decode_state(Some(e), r);
    let g = e.push(s);
    assert(g[r as int] == v);
    assert(g.contains(v));
    lemma_position_of_member(g, v);
    let p = position_or_zero(g, v);
    if p > r {
        assert(g[r as int] != v);
    }
}

/// Two to the power of a local palette's width.
fn local_capacity(bits: usize) -> (n: usize)
    requires
        4 <= bits <= 8,
    ensures
        n == pow2(bits as nat),
{
    proof {
        lemma2_to64();
    }
    if bits == 4 {
        16
    } else if bits == 5 {
        32
    } else if bits == 6 {
        64
    } else if bits == 7 {
        128
    } else {
        256
    }
}

/// Bit length of `x`.
fn bit_length(x: u32) -> (n: usize)
    ensures
        n == bit_len(x),
        n <= 32,
{
    let mut v: u32 = x;
    let mut n: usize = 0;
    proof {
        lemma_bit_len(x);
    }
    while v > 0
        invariant
            bit_len(x) == n + bit_len(v),
            bit_len(x) <= 32,
        decreases v,
    {
        v = v / 2;
        n = n + 1;
    }
    n
}


/// Storing a block keeps a canonical container canonical, changes the id
/// of that block only, and reads back as the stored (non-negative) id; in a
/// canonical container with a local palette, storing within the section
/// never fails.
pub proof fn lemma_set_then_get(
    c: BlockStateContainer,
    n: BlockStateContainer,
    index: int,
    state: i32,
    res: Result<i32, String>,
)
    requires
        c.wf(),
        c.canonical(),
        set_outcome(c, n, index, state, res),
    ensures
        res is Ok ==> n.canonical() && n.states() == c.states().update(index, clamp_state(state)),
        res is Ok ==> n.state_at(index) == clamp_state(state),
        res is Ok ==> forall|j: int| j != index && 0 <= j < SECTION_VOLUME ==> n.state_at(j) == c.state_at(j),
        0 <= index < SECTION_VOLUME && c.palette_entries() is Some ==> res is Ok,
        res is Err ==> n.same_content(&c),
{
    let s = clamp_state(state);
    if 0 <= index < SECTION_VOLUME {
        if let Some(e) = c.palette_entries() {
            lemma2_to64();
            if c.spec_bits() < 8 {
                lemma_pow2_strictly_increases(c.spec_bits(), 8);
            }
            if e.contains(s) {
                lemma_position_of_member(e, s);
                assert(fits(position_or_zero(e, s) as u32, c.spec_bits()));
            } else if e.len() >= pow2(c.spec_bits()) && c.spec_bits() < 8 {
                lemma_pow2_unfold(c.spec_bits() + 1);
                assert(fits(e.len() as u32, c.spec_bits() + 1));
            }
        }
    }
    if res is Ok {
        assert(0 <= index < SECTION_VOLUME);
        let states = c.states();
        match c.palette_entries() {
            None => {
                assert(n.raw().len() == SECTION_VOLUME);
                assert forall|j: int| 0 <= j < SECTION_VOLUME implies #[trigger] n.raw()[j] < 0x8000_0000u32 by {
                    if j == index {
                        assert(n.raw()[j] == s as u32);
                    }
                }
                assert forall|j: int| 0 <= j < SECTION_VOLUME implies n.state_at(j) == states.update(index, s)[j] by {
                    if j == index {
                        lemma_nonneg_cast(s);
                    }
                }
            },
            Some(e) => {
                lemma2_to64();
                if c.spec_bits() < 8 {
                    lemma_pow2_strictly_increases(c.spec_bits(), 8);
                }
                assert(e.len() <= 256);
                if e.contains(s) {
                    lemma_position_of_member(e, s);
                    let p = position_or_zero(e, s);
                    assert forall|j: int| 0 <= j < SECTION_VOLUME implies n.state_at(j) == states.update(index, s)[j] by {
                        if j == index {
                            assert(n.raw()[j] == p as u32);
                            assert((p as u32) as int == p);
                        } else {
                            assert(n.raw()[j] == c.raw()[j]);
                        }
                    }
                } else if e.len() < pow2(c.spec_bits()) {
                    let e2 = e.push(s);
                    assert(n.raw().len() == SECTION_VOLUME);
                    assert forall|j: int| 0 <= j < SECTION_VOLUME implies (#[trigger] n.raw()[j] as int) < e2.len()
                        && n.state_at(j) == states.update(index, s)[j] by {
                        if j == index {
                            assert(n.raw()[j] == e.len() as u32);
                        } else {
                            assert(n.raw()[j] == c.raw()[j]);
                        }
                    }
                } else if c.spec_bits() < 8 {
                    let e2 = e.push(s);
                    assert forall|j: int| 0 <= j < SECTION_VOLUME implies (#[trigger] n.raw()[j] as int) < e2.len()
                        && n.state_at(j) == states.update(index, s)[j] by {
                        if j != index {
                            let v = e[c.raw()[j] as int];
                            assert(e2[c.raw()[j] as int] == v);
                            lemma_position_of_member(e2, v);
                        }
                    }
                } else {
                    assert forall|j: int| 0 <= j < SECTION_VOLUME implies #[trigger] n.raw()[j] < 0x8000_0000u32
                        && n.state_at(j) == states.update(index, s)[j] by {
                        if j == index {
                            lemma_nonneg_cast(s);
                        } else {
                            assert(states[j] >= 0);
                            lemma_nonneg_cast(states[j]);
                        }
                    }
                }
            },
        }
        assert(n.states() =~= states.update(index, s));
    }
}

/// Storing an id leaves every other block's id as it was, refused or not,
/// when the local palette covers every stored entry and holds no negative
/// id. (A negative id in the palette is read back as `0` once the palette
/// gives way to the registry.)
pub proof fn lemma_set_keeps_other_blocks(
    c: BlockStateContainer,
    n: BlockStateContainer,
    index: int,
    state: i32,
    res: Result<i32, String>,
)
    requires
        c.wf(),
        set_outcome(c, n, index, state, res),
        c.palette_covers(),
    ensures
        forall|j: int| 0 <= j < SECTION_VOLUME && j != index ==> #[trigger] n.state_at(j) == c.state_at(j),
{
    let s = clamp_state(state);
    if 0 <= index < SECTION_VOLUME {
        if let Some(e) = c.palette_entries() {
            assert forall|j: int| 0 <= j < SECTION_VOLUME && j != index implies #[trigger] n.state_at(j) == c.state_at(j) by {
                let v = e[c.raw()[j] as int];
                assert(c.state_at(j) == v);
                if !e.contains(s) && e.len() >= pow2(c.spec_bits()) {
                    if c.spec_bits() < 8 {
                        assert(e.push(s)[c.raw()[j] as int] == v);
                        assert(e.push(s).contains(v));
                        lemma_position_of_member(e.push(s), v);
                    } else {
                        assert(v >= 0);
                    }
                }
            }
        }
    }
}

/// In any well-formed container, storing never narrows the entries; a
/// successful store reads back as the stored (non-negative) id; and a
/// store within the section succeeds where the palette is local and fits
/// its width, or where the registry is wide enough for the id.
pub proof fn lemma_set_reads_back(
    c: BlockStateContainer,
    n: BlockStateContainer,
    index: int,
    state: i32,
    res: Result<i32, String>,
)
    requires
        c.wf(),
        set_outcome(c, n, index, state, res),
    ensures
        n.spec_bits() >= c.spec_bits(),
        res is Ok ==> n.state_at(index) == clamp_state(state),
        0 <= index < SECTION_VOLUME && (match c.palette_entries() {
            Some(e) => e.len() <= pow2(c.spec_bits()),
            None => fits(clamp_state(state) as u32, c.spec_bits()),
        }) ==> res is Ok,
{
    let s = clamp_state(state);
    lemma_nonneg_cast(s);
    if 0 <= index < SECTION_VOLUME {
        if let Some(e) = c.palette_entries() {
            lemma2_to64();
            if c.spec_bits() < 8 {
                lemma_pow2_strictly_increases(c.spec_bits(), 8);
            }
            if e.contains(s) {
                lemma_position_of_member(e, s);
                if e.len() <= pow2(c.spec_bits()) {
                    assert(fits(position_or_zero(e, s) as u32, c.spec_bits()));
                }
                if res is Ok {
                    assert(n.raw()[index] == position_or_zero(e, s) as u32);
                }
            } else if e.len() >= pow2(c.spec_bits()) && c.spec_bits() < 8 {
                lemma_pow2_unfold(c.spec_bits() + 1);
                if e.len() <= pow2(c.spec_bits()) {
                    assert(fits(e.len() as u32, c.spec_bits() + 1));
                }
                if res is Ok {
                    assert(n.raw()[index] == e.len() as u32);
                    assert(e.push(s)[e.len() as int] == s);
                }
            } else if e.len() < pow2(c.spec_bits()) {
                if res is Ok {
                    assert(n.raw()[index] == e.len() as u32);
                    assert(e.push(s)[e.len() as int] == s);
                }
            } else {
                if res is Ok {
                    assert(n.raw()[index] == s as u32);
                }
            }
        } else {
            if res is Ok {
                assert(n.raw()[index] == s as u32);
            }
        }
    }
}

/// Within a section, the block index is `y * 256 + z * 16 + x`.
pub proof fn lemma_block_index(x: usize, y: usize, z: usize)
    requires
        x < 16,
        y < 16,
        z < 16,
    ensures
        block_index(x, y, z) == y * 256 + z * 16 + x,
        block_index(x, y, z) < SECTION_VOLUME,
{
    assert((y << 8usize) | (z << 4usize) | x == y * 256 + z * 16 + x) by (bit_vector)
        requires
            x < 16,
            y < 16,
            z < 16,
    ;
}

/// What a store does depends only on the container's content.
pub proof fn lemma_set_outcome_same_content(
    c1: BlockStateContainer,
    c2: BlockStateContainer,
    n: BlockStateContainer,
    index: int,
    state: i32,
    res: Result<i32, String>,
)
    requires
        c1.same_content(&c2),
        set_outcome(c1, n, index, state, res),
    ensures
        set_outcome(c2, n, index, state, res),
{
    assert(c1.states() =~= c2.states());
}

proof fn lemma_nonneg_cast(v: i32)
    requires
        v >= 0,
    ensures
        (v as u32) as i32 == v,
        (v as u32) < 0x8000_0000u32,
{
    assert(v >= 0 ==> (v as u32) as i32 == v && (v as u32) < 0x8000_0000u32) by (bit_vector);
}


/// A successful list decoding stays within its input.
pub proof fn lemma_var_list_bound(s: Seq<u8>, count: nat)
    ensures
        parse_var_list(s, count) matches Ok((vs, n)) ==> n <= s.len() && vs.len() == count,
    decreases count,
{
    if count > 0 {
        lemma_var_list_bound(s, (count - 1) as nat);
        if let Ok((vs, n)) = parse_var_list(s, (count - 1) as nat) {
            lemma_var_scan_bound(s.skip(n as int), 0, 5);
        }
    }
}

/// A successful word-list decoding stays within its input.
pub proof fn lemma_long_list_bound(s: Seq<u8>, count: nat)
    ensures
        parse_long_list(s, count) matches Ok((vs, n)) ==> n <= s.len() && vs.len() == count,
    decreases count,
{
    if count > 0 {
        lemma_long_list_bound(s, (count - 1) as nat);
    }
}


/// What a failed VarInt list read takes stays within its input.
proof fn lemma_var_list_taken_bound(s: Seq<u8>, count: nat)
    ensures
        var_list_taken(s, count) <= s.len(),
    decreases count,
{
    if count > 0 {
        lemma_var_list_taken_bound(s, (count - 1) as nat);
        lemma_var_list_bound(s, (count - 1) as nat);
    }
}

/// What a failed word list read takes stays within its input.
proof fn lemma_long_list_taken_bound(s: Seq<u8>, count: nat)
    ensures
        long_list_taken(s, count) <= s.len(),
    decreases count,
{
    if count > 0 {
        lemma_long_list_taken_bound(s, (count - 1) as nat);
        lemma_long_list_bound(s, (count - 1) as nat);
    }
}

/// What a failed palette read takes stays within its input.
proof fn lemma_palette_taken_bound(s: Seq<u8>, bits: nat)
    ensures
        palette_taken(s, bits) <= s.len(),
{
    lemma_var_scan_bound(s, 0, 5);
    if let Ok((count, n)) = parse_var_i32(s) {
        if count >= 0 {
            lemma_var_list_taken_bound(s.skip(n as int), count as nat);
        }
    }
}

/// What a failed word read takes stays within its input.
proof fn lemma_backing_taken_bound(s: Seq<u8>)
    ensures
        backing_taken(s) <= s.len(),
{
    lemma_var_scan_bound(s, 0, 5);
    if let Ok((count, n)) = parse_var_i32(s) {
        if count >= 0 {
            lemma_long_list_taken_bound(s.skip(n as int), count as nat);
        }
    }
}

/// Reads a palette of width `bits`.
fn read_palette(r: &mut PacketReader, bits: usize) -> (res: Result<Palette, CodecError>)
    requires
        old(r).wf(),
        bits >= 4,
    ensures
        final(r).wf(),
        final(r).source() == old(r).source(),
        match parse_palette(old(r).rest(), bits as nat) {
            Ok((p, n)) => res is Ok && palette_view(&res->Ok_0) == p && final(r).rest() == old(r).rest().skip(n as int)
                && n <= old(r).rest().len()
                && (bits <= 8 ==> p is Some && p->Some_0.len() <= 0x7fff_ffff),
            Err(e) => res == Err::<Palette, CodecError>(e) && final(r).rest() == old(r).rest().skip(
                palette_taken(old(r).rest(), bits as nat) as int,
            ),
        },
{
    let ghost s = r.rest();
    if bits > 8 {
        assert(r.rest() =~= s.skip(0));
        return Ok(Palette::Registry);
    }
    let count = match read_var_i32(r) {
        Ok(c) => c,
        Err(e) => {
            return Err(e);
        },
    };
    let ghost n = parse_var_i32(s)->Ok_0.1;
    proof {
        lemma_var_scan_bound(s, 0, 5);
    }
    proof {
        assert(r.rest() =~= s.skip(n as int));
    }
    if count < 0 {
        return Err(CodecError::NegativeLength(count));
    }
    let entries = match read_var_list(r, count as usize) {
        Ok(v) => v,
        Err(e) => {
            proof {
                lemma_var_list_taken_bound(s.skip(n as int), count as nat);
                assert(r.rest() =~= s.skip((n + var_list_taken(s.skip(n as int), count as nat)) as int));
            }
            return Err(e);
        },
    };
    proof {
        let m = parse_var_list(s.skip(n as int), count as nat)->Ok_0.1;
        lemma_var_list_bound(s.skip(n as int), count as nat);
        assert(r.rest() =~= s.skip((n + m) as int));
    }
    Ok(Palette::Local(entries))
}

/// Reads the packed words of a section of width `bits`.
fn read_backing(r: &mut PacketReader) -> (res: Result<Vec<u64>, CodecError>)
    requires
        old(r).wf(),
    ensures
        final(r).wf(),
        final(r).source() == old(r).source(),
        match parse_backing(old(r).rest()) {
            Ok((longs, n)) => res is Ok && res->Ok_0@ == longs && final(r).rest() == old(r).rest().skip(n as int)
                && n <= old(r).rest().len(),
            Err(e) => res == Err::<Vec<u64>, CodecError>(e) && final(r).rest() == old(r).rest().skip(
                backing_taken(old(r).rest()) as int,
            ),
        },
{
    let ghost s = r.rest();
    let long_count = match read_var_i32(r) {
        Ok(c) => c,
        Err(e) => {
            return Err(e);
        },
    };
    let ghost n = parse_var_i32(s)->Ok_0.1;
    proof {
        lemma_var_scan_bound(s, 0, 5);
    }
    proof {
        assert(r.rest() =~= s.skip(n as int));
    }
    if long_count < 0 {
        return Err(CodecError::NegativeLength(long_count));
    }
    let longs = match read_long_list(r, long_count as usize) {
        Ok(v) => v,
        Err(e) => {
            proof {
                lemma_long_list_taken_bound(s.skip(n as int), long_count as nat);
                assert(r.rest() =~= s.skip((n + long_list_taken(s.skip(n as int), long_count as nat)) as int));
            }
            return Err(e);
        },
    };
    proof {
        let m = parse_long_list(s.skip(n as int), long_count as nat)->Ok_0.1;
        lemma_long_list_bound(s.skip(n as int), long_count as nat);
        assert(r.rest() =~= s.skip((n + m) as int));
    }
    Ok(longs)
}


/// A copy of `v`.
pub fn copy_i32s(v: &Vec<i32>) -> (res: Vec<i32>)
    ensures
        res@ == v@,
{
    let mut res: Vec<i32> = Vec::new();
    let mut i: usize = 0;
    while i < v.len()
        invariant
            i <= v@.len(),
            res@ == v@.take(i as int),
        decreases v@.len() - i,
    {
        res.push(v[i]);
        i = i + 1;
        proof {
            assert(res@ =~= v@.take(i as int));
        }
    }
    proof {
        assert(res@ =~= v@);
    }
    res
}

impl Clone for Palette {
    /// A copy with the same ids.
    fn clone(&self) -> (res: Self)
        ensures
            palette_view(&res) == palette_view(self),
    {
        match self {
            Palette::Local(e) => Palette::Local(copy_i32s(e)),
            Palette::Registry => Palette::Registry,
        }
    }
}

impl Default for BlockStateContainer {
    /// The same container as [`BlockStateContainer::new`]: every block air.
    fn default() -> (c: Self)
        ensures
            c.wf(),
            c.canonical(),
            c.spec_bits() == 4,
            c.palette_entries() == Some(seq![0i32]),
            c.raw() == Seq::new(SECTION_VOLUME as nat, |i: int| 0u32),
            c.states() == Seq::new(SECTION_VOLUME as nat, |i: int| 0i32),
    {
        BlockStateContainer::new()
    }
}

impl Clone for BlockStateContainer {
    /// A copy holding the same entries, palette and width.
    fn clone(&self) -> (res: Self)
        ensures
            res.same_content(self),
            self.wf() ==> res.wf(),
    {
        BlockStateContainer { storage: self.storage.clone(), palette: self.palette.clone(), bits: self.bits }
    }
}

impl BlockStateContainer {
    /// Same entries, palette and width.
    pub open spec fn same_content(&self, other: &BlockStateContainer) -> bool {
        &&& self.raw() == other.raw()
        &&& self.palette_entries() == other.palette_entries()
        &&& self.spec_bits() == other.spec_bits()
    }
}

} // verus!
