use vstd::prelude::*;
use crate::arena::{
    claimed, has_fit, is_best_fit, is_free, lemma_claimed_positive, lemma_recyclable_when_taken, lemma_recycled_positive,
    lemma_claimed_free, spans_positive, spans_wf, ElementArenaAllocator, FreeSpan,
};
use crate::indirect::{sat_add_u64, ChunkDrawInfo, ChunkLayerRange, ChunkStorage, RenderChunkKey, VisibleChunk};
use crate::upload::{round_up4, staged_end};
use crate::arena::{align_up, is_pow2_u64};
use vstd::arithmetic::power2::pow2;

verus! {

/// A render chunk's mesh on the GPU: where it lives, its layer ranges, its
/// vertex and index counts and the revision of the mesh it holds.
#[derive(Debug, Clone, Copy, PartialEq, Eq)]
pub struct GpuChunk {
    pub key: RenderChunkKey,
    pub storage: ChunkStorage,
    pub layerRanges: [ChunkLayerRange; 4],
    pub vertexCount: u32,
    pub indexCount: u32,
    pub meshRevision: u64,
}

/// Who holds an element of a shared arena: a resident chunk, or the storage
/// retired as entry `j` of frame slot `s`.
pub enum Holder {
    Resident(RenderChunkKey),
    Retired(int, int),
}

/// Vertices of the shared arena that a storage holds.
pub open spec fn holds_vertex(s: ChunkStorage, e: int) -> bool {
    match s {
        ChunkStorage::Shared { firstVertex, vertexCount, .. } => firstVertex <= e < firstVertex + vertexCount,
        ChunkStorage::Dedicated => false,
    }
}

/// Indices of the shared arena that a storage holds.
pub open spec fn holds_index(s: ChunkStorage, e: int) -> bool {
    match s {
        ChunkStorage::Shared { firstIndex, indexCount, .. } => firstIndex <= e < firstIndex + indexCount,
        ChunkStorage::Dedicated => false,
    }
}

/// A shared storage holds at least one vertex and one index, and its runs
/// end within the 32-bit range.
pub open spec fn storage_wf(s: ChunkStorage) -> bool {
    match s {
        ChunkStorage::Shared { firstVertex, vertexCount, firstIndex, indexCount } => {
            &&& vertexCount > 0
            &&& indexCount > 0
            &&& firstVertex + vertexCount <= u32::MAX
            &&& firstIndex + indexCount <= u32::MAX
        },
        ChunkStorage::Dedicated => true,
    }
}

/// The storage is held by `h`: none of its elements is free, and each is
/// recorded as `h`'s.
pub open spec fn storage_held(
    s: ChunkStorage,
    h: Holder,
    vspans: Seq<FreeSpan>,
    ispans: Seq<FreeSpan>,
    vowner: spec_fn(int) -> Holder,
    iowner: spec_fn(int) -> Holder,
) -> bool {
    &&& storage_wf(s)
    &&& forall|e: int| #[trigger] holds_vertex(s, e) ==> !is_free(vspans, e) && vowner(e) == h
    &&& forall|e: int| #[trigger] holds_index(s, e) ==> !is_free(ispans, e) && iowner(e) == h
}

/// Elements of the vertex arena (`vertex`) or of the index arena that a
/// storage holds.
pub open spec fn held_count(s: ChunkStorage, vertex: bool) -> nat {
    match s {
        ChunkStorage::Shared { vertexCount, indexCount, .. } => if vertex { vertexCount as nat } else { indexCount as nat },
        ChunkStorage::Dedicated => 0,
    }
}

/// Elements of an arena that the chunks hold.
pub open spec fn chunks_total(cs: Seq<GpuChunk>, vertex: bool) -> nat
    decreases cs.len(),
{
    if cs.len() == 0 {
        0
    } else {
        chunks_total(cs.drop_last(), vertex) + held_count(cs.last().storage, vertex)
    }
}

/// Elements of an arena that the storages hold.
pub open spec fn storages_total(ss: Seq<ChunkStorage>, vertex: bool) -> nat
    decreases ss.len(),
{
    if ss.len() == 0 {
        0
    } else {
        storages_total(ss.drop_last(), vertex) + held_count(ss.last(), vertex)
    }
}

/// Elements of an arena that the storage retired in all frame slots holds.
pub open spec fn slots_total(rs: Seq<Vec<ChunkStorage>>, vertex: bool) -> nat
    decreases rs.len(),
{
    if rs.len() == 0 {
        0
    } else {
        slots_total(rs.drop_last(), vertex) + storages_total(rs.last()@, vertex)
    }
}

proof fn lemma_chunks_total_remove(s: Seq<GpuChunk>, i: int, vertex: bool)
    requires
        0 <= i < s.len(),
    ensures
        chunks_total(s.remove(i), vertex) + held_count(s[i].storage, vertex) == chunks_total(s, vertex),
    decreases s.len(),
{
    if i == s.len() - 1 {
        assert(s.remove(i) =~= s.drop_last());
    } else {
        assert(s.remove(i).drop_last() =~= s.drop_last().remove(i));
        lemma_chunks_total_remove(s.drop_last(), i, vertex);
    }
}

proof fn lemma_chunks_total_update(s: Seq<GpuChunk>, i: int, c: GpuChunk, vertex: bool)
    requires
        0 <= i < s.len(),
        c.storage == s[i].storage,
    ensures
        chunks_total(s.update(i, c), vertex) == chunks_total(s, vertex),
    decreases s.len(),
{
    if i < s.len() - 1 {
        assert(s.update(i, c).drop_last() =~= s.drop_last().update(i, c));
        lemma_chunks_total_update(s.drop_last(), i, c, vertex);
    } else {
        assert(s.update(i, c).drop_last() =~= s.drop_last());
    }
}

proof fn lemma_storages_total_take(ss: Seq<ChunkStorage>, j: int, vertex: bool)
    requires
        0 <= j < ss.len(),
    ensures
        storages_total(ss.take(j + 1), vertex) == storages_total(ss.take(j), vertex) + held_count(ss[j], vertex),
{
    assert(ss.take(j + 1).drop_last() =~= ss.take(j));
}

/// Changing one slot's storage changes the total by the difference.
proof fn lemma_slots_total_change(r1: Seq<Vec<ChunkStorage>>, r2: Seq<Vec<ChunkStorage>>, t: int, vertex: bool)
    requires
        r1.len() == r2.len(),
        0 <= t < r1.len(),
        forall|u: int| 0 <= u < r1.len() && u != t ==> #[trigger] r1[u]@ == r2[u]@,
    ensures
        slots_total(r2, vertex) + storages_total(r1[t]@, vertex) == slots_total(r1, vertex) + storages_total(
            r2[t]@,
            vertex,
        ),
    decreases r1.len(),
{
    if t == r1.len() - 1 {
        assert forall|u: int| 0 <= u < r1.drop_last().len() implies #[trigger] r1.drop_last()[u]@ == r2.drop_last()[u]@ by {
            assert(r1.drop_last()[u] == r1[u] && r2.drop_last()[u] == r2[u]);
        }
        lemma_slots_total_same(r1.drop_last(), r2.drop_last(), vertex);
    } else {
        assert forall|u: int| 0 <= u < r1.drop_last().len() && u != t implies #[trigger] r1.drop_last()[u]@
            == r2.drop_last()[u]@ by {
            assert(r1.drop_last()[u] == r1[u] && r2.drop_last()[u] == r2[u]);
        }
        lemma_slots_total_change(r1.drop_last(), r2.drop_last(), t, vertex);
        assert(r1.last()@ == r2.last()@);
        assert(r1.drop_last()[t] == r1[t] && r2.drop_last()[t] == r2[t]);
    }
}

proof fn lemma_slots_total_same(r1: Seq<Vec<ChunkStorage>>, r2: Seq<Vec<ChunkStorage>>, vertex: bool)
    requires
        r1.len() == r2.len(),
        forall|u: int| 0 <= u < r1.len() ==> #[trigger] r1[u]@ == r2[u]@,
    ensures
        slots_total(r1, vertex) == slots_total(r2, vertex),
    decreases r1.len(),
{
    if r1.len() > 0 {
        assert forall|u: int| 0 <= u < r1.drop_last().len() implies #[trigger] r1.drop_last()[u]@ == r2.drop_last()[u]@ by {
            assert(r1.drop_last()[u] == r1[u] && r2.drop_last()[u] == r2[u]);
        }
        lemma_slots_total_same(r1.drop_last(), r2.drop_last(), vertex);
    }
}

proof fn lemma_slots_total_empty(rs: Seq<Vec<ChunkStorage>>, vertex: bool)
    requires
        forall|u: int| 0 <= u < rs.len() ==> (#[trigger] rs[u])@.len() == 0,
    ensures
        slots_total(rs, vertex) == 0,
    decreases rs.len(),
{
    if rs.len() > 0 {
        assert forall|u: int| 0 <= u < rs.drop_last().len() implies (#[trigger] rs.drop_last()[u])@.len() == 0 by {
            assert(rs.drop_last()[u] == rs[u]);
        }
        lemma_slots_total_empty(rs.drop_last(), vertex);
        assert(rs.last()@.len() == 0);
    }
}

/// Chunk meshes resident on the GPU, the free runs of the two shared arenas
/// they are placed in, and, per frame slot, the storage that chunks gave up
/// while that slot's commands may still read it.
pub struct ChunkResidency {
    chunks: Vec<GpuChunk>,
    vertexRanges: ElementArenaAllocator,
    indexRanges: ElementArenaAllocator,
    retired: Vec<Vec<ChunkStorage>>,
    vertexOwner: Ghost<spec_fn(int) -> Holder>,
    indexOwner: Ghost<spec_fn(int) -> Holder>,
    vertexCapacity: u32,
    indexCapacity: u32,
}

/// The position of `key` among the chunks, if it is there.
pub open spec fn key_index(s: Seq<GpuChunk>, key: RenderChunkKey) -> int {
    choose|i: int| 0 <= i < s.len() && s[i].key == key
}

/// The chunk resident under `key`.
pub open spec fn lookup(s: Seq<GpuChunk>, key: RenderChunkKey) -> Option<GpuChunk> {
    if exists|i: int| 0 <= i < s.len() && s[i].key == key {
        Some(s[key_index(s, key)])
    } else {
        None
    }
}

/// No two chunks share a key.
pub open spec fn keys_distinct(s: Seq<GpuChunk>) -> bool {
    forall|i: int, j: int| 0 <= i < s.len() && 0 <= j < s.len() && i != j ==> (#[trigger] s[i]).key != (#[trigger] s[j]).key
}

/// The chunk at `i` is the one resident under its key.
proof fn lemma_lookup_at(s: Seq<GpuChunk>, i: int)
    requires
        keys_distinct(s),
        0 <= i < s.len(),
    ensures
        lookup(s, s[i].key) == Some(s[i]),
{
    let k = key_index(s, s[i].key);
    assert(0 <= k < s.len() && s[k].key == s[i].key);
}

/// Dropping the chunk at `i` leaves its key without a chunk and every other
/// key's chunk where it was.
proof fn lemma_lookup_remove(s: Seq<GpuChunk>, i: int)
    requires
        keys_distinct(s),
        0 <= i < s.len(),
    ensures
        keys_distinct(s.remove(i)),
        lookup(s.remove(i), s[i].key) is None,
        forall|k: RenderChunkKey| k != s[i].key ==> lookup(s.remove(i), k) == lookup(s, k),
{
    let n = s.remove(i);
    assert forall|a: int, b: int| 0 <= a < n.len() && 0 <= b < n.len() && a != b implies (#[trigger] n[a]).key
        != (#[trigger] n[b]).key by {
        let a0 = if a < i { a } else { a + 1 };
        let b0 = if b < i { b } else { b + 1 };
        assert(n[a] == s[a0] && n[b] == s[b0]);
    }
    if exists|a: int| 0 <= a < n.len() && n[a].key == s[i].key {
        let a = choose|a: int| 0 <= a < n.len() && n[a].key == s[i].key;
        let a0 = if a < i { a } else { a + 1 };
        assert(n[a] == s[a0]);
    }
    assert forall|k: RenderChunkKey| k != s[i].key implies lookup(n, k) == lookup(s, k) by {
        if exists|a: int| 0 <= a < s.len() && s[a].key == k {
            let a = choose|a: int| 0 <= a < s.len() && s[a].key == k;
            let an = if a < i { a } else { a - 1 };
            assert(a != i);
            assert(n[an] == s[a]);
            lemma_lookup_at(s, a);
            lemma_lookup_at(n, an);
        } else {
            if exists|a: int| 0 <= a < n.len() && n[a].key == k {
                let a = choose|a: int| 0 <= a < n.len() && n[a].key == k;
                let a0 = if a < i { a } else { a + 1 };
                assert(n[a] == s[a0]);
            }
        }
    }
}

/// Replacing the chunk at `i` by one of the same key makes it the key's
/// chunk and leaves every other key's.
proof fn lemma_lookup_set(s: Seq<GpuChunk>, i: int, c: GpuChunk)
    requires
        keys_distinct(s),
        0 <= i < s.len(),
        c.key == s[i].key,
    ensures
        keys_distinct(s.update(i, c)),
        lookup(s.update(i, c), c.key) == Some(c),
        forall|k: RenderChunkKey| k != c.key ==> lookup(s.update(i, c), k) == lookup(s, k),
{
    let n = s.update(i, c);
    assert forall|a: int, b: int| 0 <= a < n.len() && 0 <= b < n.len() && a != b implies (#[trigger] n[a]).key
        != (#[trigger] n[b]).key by {
        assert(n[a].key == s[a].key && n[b].key == s[b].key);
    }
    lemma_lookup_at(n, i);
    assert forall|k: RenderChunkKey| k != c.key implies lookup(n, k) == lookup(s, k) by {
        if exists|a: int| 0 <= a < s.len() && s[a].key == k {
            let a = choose|a: int| 0 <= a < s.len() && s[a].key == k;
            assert(n[a] == s[a]);
            lemma_lookup_at(s, a);
            lemma_lookup_at(n, a);
        } else {
            if exists|a: int| 0 <= a < n.len() && n[a].key == k {
                let a = choose|a: int| 0 <= a < n.len() && n[a].key == k;
                assert(n[a] == s[a]);
            }
        }
    }
}

/// Adding a chunk under a key without one makes it the key's chunk and
/// leaves every other key's.
proof fn lemma_lookup_push(s: Seq<GpuChunk>, c: GpuChunk)
    requires
        keys_distinct(s),
        lookup(s, c.key) is None,
    ensures
        keys_distinct(s.push(c)),
        lookup(s.push(c), c.key) == Some(c),
        forall|k: RenderChunkKey| k != c.key ==> lookup(s.push(c), k) == lookup(s, k),
{
    let n = s.push(c);
    assert forall|a: int, b: int| 0 <= a < n.len() && 0 <= b < n.len() && a != b implies (#[trigger] n[a]).key
        != (#[trigger] n[b]).key by {
        if a < s.len() && b < s.len() {
            assert(n[a] == s[a] && n[b] == s[b]);
        } else if a < s.len() {
            assert(n[a] == s[a]);
            assert(!(0 <= a < s.len() && s[a].key == c.key));
        } else if b < s.len() {
            assert(n[b] == s[b]);
            assert(!(0 <= b < s.len() && s[b].key == c.key));
        }
    }
    lemma_lookup_at(n, s.len() as int);
    assert forall|k: RenderChunkKey| k != c.key implies lookup(n, k) == lookup(s, k) by {
        if exists|a: int| 0 <= a < s.len() && s[a].key == k {
            let a = choose|a: int| 0 <= a < s.len() && s[a].key == k;
            assert(n[a] == s[a]);
            lemma_lookup_at(s, a);
            lemma_lookup_at(n, a);
        } else {
            if exists|a: int| 0 <= a < n.len() && n[a].key == k {
                let a = choose|a: int| 0 <= a < n.len() && n[a].key == k;
                if a < s.len() {
                    assert(n[a] == s[a]);
                }
            }
        }
    }
}

/// A storage stays held when none of its elements became free and none
/// changed holder.
proof fn lemma_held_kept(
    st: ChunkStorage,
    h: Holder,
    v1: Seq<FreeSpan>,
    i1: Seq<FreeSpan>,
    vo1: spec_fn(int) -> Holder,
    io1: spec_fn(int) -> Holder,
    v2: Seq<FreeSpan>,
    i2: Seq<FreeSpan>,
    vo2: spec_fn(int) -> Holder,
    io2: spec_fn(int) -> Holder,
)
    requires
        storage_held(st, h, v1, i1, vo1, io1),
        forall|e: int| #[trigger] holds_vertex(st, e) ==> (is_free(v2, e) ==> is_free(v1, e)) && vo2(e) == vo1(e),
        forall|e: int| #[trigger] holds_index(st, e) ==> (is_free(i2, e) ==> is_free(i1, e)) && io2(e) == io1(e),
    ensures
        storage_held(st, h, v2, i2, vo2, io2),
{
}

/// Storage given up by a chunk, added to what a frame slot retired.
pub open spec fn retired_with(r: Seq<ChunkStorage>, previous: Option<GpuChunk>) -> Seq<ChunkStorage> {
    match previous {
        Some(c) => r.push(c.storage),
        None => r,
    }
}

impl ChunkResidency {
    pub closed spec fn chunks_view(&self) -> Seq<GpuChunk> {
        self.chunks@
    }

    /// The chunk resident under `key`.
    pub closed spec fn resident(&self, key: RenderChunkKey) -> Option<GpuChunk> {
        lookup(self.chunks@, key)
    }

    /// Number of frame slots.
    pub closed spec fn slots(&self) -> nat {
        self.retired@.len()
    }

    /// Storage retired in frame slot `s`, oldest first.
    pub closed spec fn retired_at(&self, s: int) -> Seq<ChunkStorage> {
        self.retired@[s]@
    }

    /// Free runs of the vertex arena.
    pub closed spec fn vertex_spans(&self) -> Seq<FreeSpan> {
        self.vertexRanges.spans()
    }

    /// Free runs of the index arena.
    pub closed spec fn index_spans(&self) -> Seq<FreeSpan> {
        self.indexRanges.spans()
    }

    /// Number of elements of the vertex arena (`vertex`) or of the index
    /// arena.
    pub closed spec fn capacity(&self, vertex: bool) -> nat {
        if vertex { self.vertexCapacity as nat } else { self.indexCapacity as nat }
    }

    /// Elements of the vertex arena (`vertex`) or of the index arena that
    /// resident chunks and retired storage hold.
    pub closed spec fn held_elements(&self, vertex: bool) -> nat {
        chunks_total(self.chunks@, vertex) + slots_total(self.retired@, vertex)
    }

    /// The residency is consistent: every element of a shared arena that a
    /// resident chunk or a retired storage holds is not free and is held by
    /// that one alone, and the free elements and the held ones make up each
    /// arena.
    pub closed spec fn wf(&self) -> bool {
        self.sets_wf() && self.accounted()
    }

    /// Free elements and held ones make up each arena.
    closed spec fn accounted(&self) -> bool {
        &&& crate::arena::free_total(self.vertexRanges.spans()) + self.held_elements(true) == self.vertexCapacity
        &&& crate::arena::free_total(self.indexRanges.spans()) + self.held_elements(false) == self.indexCapacity
    }

    /// The arenas' free runs are ordered and non-empty; keys are distinct;
    /// and every element of a shared arena that a resident chunk or a
    /// retired storage holds is not free and is held by that one alone.
    closed spec fn sets_wf(&self) -> bool {
        &&& self.vertexRanges.wf()
        &&& self.indexRanges.wf()
        &&& spans_positive(self.vertexRanges.spans())
        &&& spans_positive(self.indexRanges.spans())
        &&& keys_distinct(self.chunks@)
        &&& forall|i: int|
            0 <= i < self.chunks@.len() ==> storage_held(
                (#[trigger] self.chunks@[i]).storage,
                Holder::Resident(self.chunks@[i].key),
                self.vertexRanges.spans(),
                self.indexRanges.spans(),
                self.vertexOwner@,
                self.indexOwner@,
            )
        &&& forall|s: int, j: int|
            0 <= s < self.retired@.len() && 0 <= j < self.retired@[s]@.len() ==> storage_held(
                #[trigger] self.retired@[s]@[j],
                Holder::Retired(s, j),
                self.vertexRanges.spans(),
                self.indexRanges.spans(),
                self.vertexOwner@,
                self.indexOwner@,
            )
    }

    /// No chunk and no retired storage; both arenas free, of the given
    /// numbers of elements; `slots` frame slots.
    pub fn new(vertexCapacity: u32, indexCapacity: u32, slots: usize) -> (r: ChunkResidency)
        requires
            vertexCapacity > 0,
            indexCapacity > 0,
        ensures
            r.wf(),
            forall|key: RenderChunkKey| r.resident(key) is None,
            r.slots() == slots,
            r.capacity(true) == vertexCapacity,
            r.capacity(false) == indexCapacity,
            forall|s: int| 0 <= s < slots ==> r.retired_at(s).len() == 0,
            r.vertex_spans() == seq![FreeSpan { start: 0, count: vertexCapacity }],
            r.index_spans() == seq![FreeSpan { start: 0, count: indexCapacity }],
    {
        let mut retired: Vec<Vec<ChunkStorage>> = Vec::new();
        let mut s: usize = 0;
        while s < slots
            invariant
                s <= slots,
                retired@.len() == s,
                forall|t: int| 0 <= t < s ==> (#[trigger] retired@[t])@.len() == 0,
            decreases slots - s,
        {
            retired.push(Vec::new());
            s = s + 1;
        }
        let r = ChunkResidency {
            chunks: Vec::new(),
            vertexRanges: ElementArenaAllocator::new(vertexCapacity),
            indexRanges: ElementArenaAllocator::new(indexCapacity),
            retired,
            vertexOwner: Ghost(|e: int| Holder::Retired(-1, -1)),
            indexOwner: Ghost(|e: int| Holder::Retired(-1, -1)),
            vertexCapacity,
            indexCapacity,
        };
        proof {
            assert(forall|key: RenderChunkKey| r.resident(key) is None);
            lemma_slots_total_empty(r.retired@, true);
            lemma_slots_total_empty(r.retired@, false);
            let vs = r.vertexRanges.spans();
            let is = r.indexRanges.spans();
            assert(vs.drop_last() =~= Seq::<FreeSpan>::empty());
            assert(is.drop_last() =~= Seq::<FreeSpan>::empty());
            assert(crate::arena::free_total(Seq::<FreeSpan>::empty()) == 0);
            assert(crate::arena::free_total(vs) == vertexCapacity);
            assert(crate::arena::free_total(is) == indexCapacity);
        }
        r
    }

    /// Position of `key` among the chunks.
    fn find(&self, key: RenderChunkKey) -> (r: Option<usize>)
        requires
            keys_distinct(self.chunks@),
        ensures
            match r {
                Some(i) => i < self.chunks@.len() && self.chunks@[i as int].key == key && lookup(self.chunks@, key)
                    == Some(self.chunks@[i as int]),
                None => lookup(self.chunks@, key) is None,
            },
    {
        let mut i: usize = 0;
        while i < self.chunks.len()
            invariant
                keys_distinct(self.chunks@),
                i <= self.chunks@.len(),
                forall|j: int| 0 <= j < i ==> (#[trigger] self.chunks@[j]).key != key,
            decreases self.chunks@.len() - i,
        {
            if self.chunks[i].key == key {
                proof {
                    let k = key_index(self.chunks@, key);
                    assert(0 <= k < self.chunks@.len() && self.chunks@[k].key == key);
                    assert(k == i);
                }
                return Some(i);
            }
            i = i + 1;
        }
        None
    }

    /// The chunk resident under `key`.
    pub fn get(&self, key: RenderChunkKey) -> (r: Option<GpuChunk>)
        requires
            self.wf(),
        ensures
            r == self.resident(key),
    {
        match self.find(key) {
            Some(i) => Some(self.chunks[i]),
            None => None,
        }
    }

    /// What drawing the chunk under `key` needs, if it is resident.
    pub fn draw_info(&self, key: RenderChunkKey) -> (r: Option<ChunkDrawInfo>)
        requires
            self.wf(),
        ensures
            r == match self.resident(key) {
                Some(c) => Some(ChunkDrawInfo { storage: c.storage, layerRanges: c.layerRanges }),
                None => None,
            },
    {
        match self.get(key) {
            Some(c) => Some(ChunkDrawInfo { storage: c.storage, layerRanges: c.layerRanges }),
            None => None,
        }
    }

    /// The visible chunks of a frame, each with its resident mesh if it has
    /// one.
    pub fn visibleChunks(&self, keys: &Vec<RenderChunkKey>) -> (r: Vec<VisibleChunk>)
        requires
            self.wf(),
        ensures
            r@.len() == keys@.len(),
            forall|i: int|
                0 <= i < keys@.len() ==> (#[trigger] r@[i]).key == keys@[i] && r@[i].chunk == match self.resident(
                    keys@[i],
                ) {
                    Some(c) => Some(ChunkDrawInfo { storage: c.storage, layerRanges: c.layerRanges }),
                    None => None,
                },
    {
        let mut r: Vec<VisibleChunk> = Vec::new();
        let mut i: usize = 0;
        while i < keys.len()
            invariant
                self.wf(),
                i <= keys@.len(),
                r@.len() == i,
                forall|j: int|
                    0 <= j < i ==> (#[trigger] r@[j]).key == keys@[j] && r@[j].chunk == match self.resident(keys@[j]) {
                        Some(c) => Some(ChunkDrawInfo { storage: c.storage, layerRanges: c.layerRanges }),
                        None => None,
                    },
            decreases keys@.len() - i,
        {
            let key = keys[i];
            let chunk = self.draw_info(key);
            r.push(VisibleChunk { key, chunk });
            i = i + 1;
        }
        r
    }
}

impl ChunkResidency {
    /// Appends `storage` to what frame slot `slot` retired.
    fn push_retired(&mut self, storage: ChunkStorage, slot: usize)
        requires
            slot < old(self).retired@.len(),
        ensures
            final(self).retired@.len() == old(self).retired@.len(),
            final(self).retired@[slot as int]@ == old(self).retired@[slot as int]@.push(storage),
            forall|t: int| 0 <= t < old(self).retired@.len() && t != slot ==> #[trigger] final(self).retired@[t]@ == old(
                self,
            ).retired@[t]@,
            final(self).chunks@ == old(self).chunks@,
            final(self).vertexRanges == old(self).vertexRanges,
            final(self).indexRanges == old(self).indexRanges,
            final(self).vertexOwner == old(self).vertexOwner,
            final(self).indexOwner == old(self).indexOwner,
            final(self).vertexCapacity == old(self).vertexCapacity,
            final(self).indexCapacity == old(self).indexCapacity,
    {
        let mut all: Vec<Vec<ChunkStorage>> = Vec::new();
        std::mem::swap(&mut all, &mut self.retired);
        let mut inner = all.remove(slot);
        inner.push(storage);
        all.insert(slot, inner);
        self.retired = all;
    }

    /// Drops the chunk at `i` and retires its storage in frame slot `slot`.
    fn retire_at(&mut self, i: usize, slot: usize)
        requires
            old(self).wf(),
            i < old(self).chunks@.len(),
            slot < old(self).retired@.len(),
        ensures
            final(self).wf(),
            final(self).chunks@ == old(self).chunks@.remove(i as int),
            final(self).retired@.len() == old(self).retired@.len(),
            final(self).retired@[slot as int]@ == old(self).retired@[slot as int]@.push(old(self).chunks@[i as int].storage),
            forall|t: int| 0 <= t < old(self).retired@.len() && t != slot ==> #[trigger] final(self).retired@[t]@ == old(
                self,
            ).retired@[t]@,
            final(self).vertexRanges.spans() == old(self).vertexRanges.spans(),
            final(self).indexRanges.spans() == old(self).indexRanges.spans(),
            final(self).vertexCapacity == old(self).vertexCapacity,
            final(self).indexCapacity == old(self).indexCapacity,
    {
        let ghost s0 = self.chunks@;
        let ghost r0 = self.retired@;
        let ghost vo = self.vertexOwner@;
        let ghost io = self.indexOwner@;
        let ghost j = self.retired@[slot as int]@.len() as int;
        proof {
            lemma_chunks_total_remove(s0, i as int, true);
            lemma_chunks_total_remove(s0, i as int, false);
        }
        let chunk = self.chunks.remove(i);
        let st = chunk.storage;
        let ghost tag = Holder::Retired(slot as int, j);
        proof {
            assert(storage_held(s0[i as int].storage, Holder::Resident(s0[i as int].key), self.vertexRanges.spans(),
                self.indexRanges.spans(), vo, io));
            lemma_lookup_remove(s0, i as int);
        }
        self.push_retired(st, slot);
        self.vertexOwner = Ghost(|e: int| if holds_vertex(st, e) { tag } else { vo(e) });
        self.indexOwner = Ghost(|e: int| if holds_index(st, e) { tag } else { io(e) });
        proof {
            let vs = self.vertexRanges.spans();
            let is = self.indexRanges.spans();
            let k0 = s0[i as int].key;
            assert forall|a: int| 0 <= a < self.chunks@.len() implies storage_held(
                (#[trigger] self.chunks@[a]).storage,
                Holder::Resident(self.chunks@[a].key),
                vs,
                is,
                self.vertexOwner@,
                self.indexOwner@,
            ) by {
                let a0 = if a < i { a } else { a + 1 };
                assert(self.chunks@[a] == s0[a0]);
                assert(s0[a0].key != k0);
                let c = s0[a0];
                assert(storage_held(c.storage, Holder::Resident(c.key), vs, is, vo, io));
                assert forall|e: int| #[trigger] holds_vertex(c.storage, e) implies !holds_vertex(st, e) by {
                    if holds_vertex(st, e) {
                        assert(vo(e) == Holder::Resident(k0));
                    }
                }
                assert forall|e: int| #[trigger] holds_index(c.storage, e) implies !holds_index(st, e) by {
                    if holds_index(st, e) {
                        assert(io(e) == Holder::Resident(k0));
                    }
                }
                lemma_held_kept(c.storage, Holder::Resident(c.key), vs, is, vo, io, vs, is, self.vertexOwner@,
                    self.indexOwner@);
            }
            assert forall|t: int, b: int|
                0 <= t < self.retired@.len() && 0 <= b < self.retired@[t]@.len() implies storage_held(
                #[trigger] self.retired@[t]@[b],
                Holder::Retired(t, b),
                vs,
                is,
                self.vertexOwner@,
                self.indexOwner@,
            ) by {
                if t == slot && b == j {
                    assert(self.retired@[t]@[b] == st);
                } else {
                    assert(b < r0[t]@.len());
                    assert(self.retired@[t]@[b] == r0[t]@[b]);
                    let x = r0[t]@[b];
                    assert(storage_held(x, Holder::Retired(t, b), vs, is, vo, io));
                    assert forall|e: int| #[trigger] holds_vertex(x, e) implies !holds_vertex(st, e) by {
                        if holds_vertex(st, e) {
                            assert(vo(e) == Holder::Resident(k0));
                        }
                    }
                    assert forall|e: int| #[trigger] holds_index(x, e) implies !holds_index(st, e) by {
                        if holds_index(st, e) {
                            assert(io(e) == Holder::Resident(k0));
                        }
                    }
                    lemma_held_kept(x, Holder::Retired(t, b), vs, is, vo, io, vs, is, self.vertexOwner@,
                        self.indexOwner@);
                }
            }
            let pushed = r0[slot as int]@.push(st);
            assert(pushed.drop_last() =~= r0[slot as int]@);
            lemma_slots_total_change(r0, self.retired@, slot as int, true);
            lemma_slots_total_change(r0, self.retired@, slot as int, false);
        }
    }

    /// Drops the chunk under `key`, if one is resident, and retires its
    /// storage in frame slot `slot`; a missing frame slot is refused,
    /// changing nothing.
    pub fn remove_chunk(&mut self, key: RenderChunkKey, slot: usize) -> (r: Result<(), ResidencyError>)
        requires
            old(self).wf(),
        ensures
            final(self).wf(),
            slot >= old(self).slots() ==> r == Err::<(), ResidencyError>(ResidencyError::FrameSlotOutOfRange)
                && final(self).same_as(old(self)),
            slot < old(self).slots() ==> {
                &&& r is Ok
                &&& final(self).resident(key) is None
                &&& forall|k: RenderChunkKey| k != key ==> final(self).resident(k) == old(self).resident(k)
                &&& final(self).slots() == old(self).slots()
                &&& final(self).retired_at(slot as int) == retired_with(
                    old(self).retired_at(slot as int),
                    old(self).resident(key),
                )
                &&& forall|t: int|
                    0 <= t < old(self).slots() && t != slot ==> #[trigger] final(self).retired_at(t) == old(
                        self,
                    ).retired_at(t)
                &&& final(self).vertex_spans() == old(self).vertex_spans()
                &&& final(self).index_spans() == old(self).index_spans()
            },
    {
        if slot >= self.retired.len() {
            return Err(ResidencyError::FrameSlotOutOfRange);
        }
        match self.find(key) {
            Some(i) => {
                let ghost s0 = self.chunks@;
                proof {
                    lemma_lookup_remove(s0, i as int);
                }
                self.retire_at(i, slot);
            },
            None => {},
        }
        Ok(())
    }
}

/// Some storage among `r` holds vertex `e` of the shared arena.
pub open spec fn any_holds_vertex(r: Seq<ChunkStorage>, e: int) -> bool {
    exists|j: int| 0 <= j < r.len() && #[trigger] holds_vertex(r[j], e)
}

/// Some storage among `r` holds index `e` of the shared arena.
pub open spec fn any_holds_index(r: Seq<ChunkStorage>, e: int) -> bool {
    exists|j: int| 0 <= j < r.len() && #[trigger] holds_index(r[j], e)
}

impl ChunkResidency {
    /// Releases what frame slot `slot` retired, once that slot's commands
    /// have completed: the runs of shared storage go back to the arenas,
    /// and the storage is returned, oldest first, so that buffers of its
    /// own can be destroyed.
    pub fn collect_retired(&mut self, slot: usize) -> (r: Result<Vec<ChunkStorage>, ResidencyError>)
        requires
            old(self).wf(),
        ensures
            final(self).wf(),
            slot >= old(self).slots() ==> r == Err::<Vec<ChunkStorage>, ResidencyError>(
                ResidencyError::FrameSlotOutOfRange,
            ) && final(self).same_as(old(self)),
            slot < old(self).slots() ==> (r matches Ok(v) && {
                &&& v@ == old(self).retired_at(slot as int)
                &&& final(self).retired_at(slot as int).len() == 0
                &&& final(self).slots() == old(self).slots()
                &&& forall|t: int|
                    0 <= t < old(self).slots() && t != slot ==> #[trigger] final(self).retired_at(t) == old(
                        self,
                    ).retired_at(t)
                &&& forall|k: RenderChunkKey| #[trigger] final(self).resident(k) == old(self).resident(k)
                &&& forall|e: int|
                    is_free(final(self).vertex_spans(), e) <==> (is_free(old(self).vertex_spans(), e)
                        || any_holds_vertex(v@, e))
                &&& forall|e: int|
                    is_free(final(self).index_spans(), e) <==> (is_free(old(self).index_spans(), e)
                        || any_holds_index(v@, e))
            }),
    {
        if slot >= self.retired.len() {
            return Err(ResidencyError::FrameSlotOutOfRange);
        }
        let ghost vs0 = self.vertex_spans();
        let ghost is0 = self.index_spans();
        let v = self.collect_slot(slot);
        proof {
            assert forall|e: int|
                is_free(self.vertex_spans(), e) <==> (is_free(vs0, e) || any_holds_vertex(v@, e)) by {}
            assert forall|e: int|
                is_free(self.index_spans(), e) <==> (is_free(is0, e) || any_holds_index(v@, e)) by {}
        }
        Ok(v)
    }

    /// Releases what frame slot `slot` retired; see [`Self::collect_retired`].
    fn collect_slot(&mut self, slot: usize) -> (r: Vec<ChunkStorage>)
        requires
            old(self).wf(),
            slot < old(self).slots(),
        ensures
            final(self).wf(),
            r@ == old(self).retired_at(slot as int),
            final(self).retired_at(slot as int).len() == 0,
            final(self).slots() == old(self).slots(),
            forall|t: int| 0 <= t < old(self).slots() && t != slot ==> #[trigger] final(self).retired_at(t) == old(
                self,
            ).retired_at(t),
            forall|k: RenderChunkKey| #[trigger] final(self).resident(k) == old(self).resident(k),
            forall|e: int|
                #![trigger is_free(final(self).vertex_spans(), e)]
                is_free(final(self).vertex_spans(), e) <==> (is_free(old(self).vertex_spans(), e) || any_holds_vertex(
                    r@,
                    e,
                )),
            forall|e: int|
                #![trigger is_free(final(self).index_spans(), e)]
                is_free(final(self).index_spans(), e) <==> (is_free(old(self).index_spans(), e) || any_holds_index(
                    r@,
                    e,
                )),
    {
        let ghost r0 = self.retired@;
        let ghost c0 = self.chunks@;
        let ghost vcap = self.vertexCapacity;
        let ghost icap = self.indexCapacity;
        let ghost v0 = self.vertexRanges.spans();
        let ghost i0 = self.indexRanges.spans();
        let ghost vo = self.vertexOwner@;
        let ghost io = self.indexOwner@;
        let mut all: Vec<Vec<ChunkStorage>> = Vec::new();
        std::mem::swap(&mut all, &mut self.retired);
        let storages = all.remove(slot);
        all.insert(slot, Vec::new());
        self.retired = all;
        proof {
            assert(storages@ == r0[slot as int]@);
            assert forall|t: int| 0 <= t < r0.len() && t != slot implies #[trigger] self.retired@[t] == r0[t] by {}
            assert(storages@.take(0) =~= Seq::<ChunkStorage>::empty());
        }
        let mut j: usize = 0;
        while j < storages.len()
            invariant
                j <= storages@.len(),
                storages@ == r0[slot as int]@,
                self.retired@.len() == r0.len(),
                slot < r0.len(),
                self.retired@[slot as int]@.len() == 0,
                forall|t: int| 0 <= t < r0.len() && t != slot ==> #[trigger] self.retired@[t] == r0[t],
                self.vertexOwner@ == vo,
                self.indexOwner@ == io,
                self.chunks@ == c0,
                self.vertexCapacity == vcap,
                self.indexCapacity == icap,
                crate::arena::free_total(self.vertexRanges.spans()) == crate::arena::free_total(v0) + storages_total(
                    storages@.take(j as int),
                    true,
                ),
                crate::arena::free_total(self.indexRanges.spans()) == crate::arena::free_total(i0) + storages_total(
                    storages@.take(j as int),
                    false,
                ),
                self.vertexRanges.wf(),
                self.indexRanges.wf(),
                spans_positive(self.vertexRanges.spans()),
                spans_positive(self.indexRanges.spans()),
                keys_distinct(self.chunks@),
                forall|a: int|
                    0 <= a < self.chunks@.len() ==> storage_held(
                        (#[trigger] self.chunks@[a]).storage,
                        Holder::Resident(self.chunks@[a].key),
                        self.vertexRanges.spans(),
                        self.indexRanges.spans(),
                        vo,
                        io,
                    ),
                forall|t: int, b: int|
                    0 <= t < r0.len() && t != slot && 0 <= b < r0[t]@.len() ==> storage_held(
                        #[trigger] r0[t]@[b],
                        Holder::Retired(t, b),
                        self.vertexRanges.spans(),
                        self.indexRanges.spans(),
                        vo,
                        io,
                    ),
                forall|b: int|
                    j <= b < storages@.len() ==> storage_held(
                        #[trigger] storages@[b],
                        Holder::Retired(slot as int, b),
                        self.vertexRanges.spans(),
                        self.indexRanges.spans(),
                        vo,
                        io,
                    ),
                forall|e: int|
                    is_free(self.vertexRanges.spans(), e) <==> (is_free(v0, e) || any_holds_vertex(
                        storages@.take(j as int),
                        e,
                    )),
                forall|e: int|
                    is_free(self.indexRanges.spans(), e) <==> (is_free(i0, e) || any_holds_index(
                        storages@.take(j as int),
                        e,
                    )),
            decreases storages@.len() - j,
        {
            let st = storages[j];
            let ghost vs = self.vertexRanges.spans();
            let ghost is = self.indexRanges.spans();
            let ghost tag = Holder::Retired(slot as int, j as int);
            proof {
                assert(storage_held(st, tag, vs, is, vo, io));
            }
            match st {
                ChunkStorage::Shared { firstVertex, vertexCount, firstIndex, indexCount } => {
                    proof {
                        assert forall|e: int| firstVertex <= e < firstVertex + vertexCount implies !is_free(vs, e) by {
                            assert(holds_vertex(st, e));
                        }
                        assert forall|e: int| firstIndex <= e < firstIndex + indexCount implies !is_free(is, e) by {
                            assert(holds_index(st, e));
                        }
                        lemma_recyclable_when_taken(vs, firstVertex, vertexCount);
                        lemma_recyclable_when_taken(is, firstIndex, indexCount);
                        lemma_recycled_positive(vs, firstVertex, vertexCount);
                        lemma_recycled_positive(is, firstIndex, indexCount);
                    }
                    self.vertexRanges.recycle(firstVertex, vertexCount);
                    self.indexRanges.recycle(firstIndex, indexCount);
                },
                ChunkStorage::Dedicated => {},
            }
            proof {
                let vn = self.vertexRanges.spans();
                let inn = self.indexRanges.spans();
                lemma_storages_total_take(storages@, j as int, true);
                lemma_storages_total_take(storages@, j as int, false);
                // freed elements belong to this storage alone
                assert forall|e: int| is_free(vn, e) implies is_free(vs, e) || #[trigger] holds_vertex(st, e) by {}
                assert forall|e: int| is_free(inn, e) implies is_free(is, e) || #[trigger] holds_index(st, e) by {}
                assert forall|e: int| #[trigger] holds_vertex(st, e) implies is_free(vn, e) by {}
                assert forall|e: int| #[trigger] holds_index(st, e) implies is_free(inn, e) by {}
                assert forall|e: int| is_free(vs, e) implies is_free(vn, e) by {}
                assert forall|e: int| is_free(is, e) implies is_free(inn, e) by {}
                assert forall|a: int| 0 <= a < self.chunks@.len() implies storage_held(
                    (#[trigger] self.chunks@[a]).storage,
                    Holder::Resident(self.chunks@[a].key),
                    vn,
                    inn,
                    vo,
                    io,
                ) by {
                    let c = self.chunks@[a];
                    assert(storage_held(c.storage, Holder::Resident(c.key), vs, is, vo, io));
                    assert forall|e: int| #[trigger] holds_vertex(c.storage, e) implies !holds_vertex(st, e) by {
                        if holds_vertex(st, e) {
                            assert(vo(e) == tag);
                        }
                    }
                    assert forall|e: int| #[trigger] holds_index(c.storage, e) implies !holds_index(st, e) by {
                        if holds_index(st, e) {
                            assert(io(e) == tag);
                        }
                    }
                    lemma_held_kept(c.storage, Holder::Resident(c.key), vs, is, vo, io, vn, inn, vo, io);
                }
                assert forall|t: int, b: int|
                    0 <= t < r0.len() && t != slot && 0 <= b < r0[t]@.len() implies storage_held(
                    #[trigger] r0[t]@[b],
                    Holder::Retired(t, b),
                    vn,
                    inn,
                    vo,
                    io,
                ) by {
                    let x = r0[t]@[b];
                    assert(storage_held(x, Holder::Retired(t, b), vs, is, vo, io));
                    assert forall|e: int| #[trigger] holds_vertex(x, e) implies !holds_vertex(st, e) by {
                        if holds_vertex(st, e) {
                            assert(vo(e) == tag);
                        }
                    }
                    assert forall|e: int| #[trigger] holds_index(x, e) implies !holds_index(st, e) by {
                        if holds_index(st, e) {
                            assert(io(e) == tag);
                        }
                    }
                    lemma_held_kept(x, Holder::Retired(t, b), vs, is, vo, io, vn, inn, vo, io);
                }
                assert forall|b: int| j + 1 <= b < storages@.len() implies storage_held(
                    #[trigger] storages@[b],
                    Holder::Retired(slot as int, b),
                    vn,
                    inn,
                    vo,
                    io,
                ) by {
                    let x = storages@[b];
                    assert(storage_held(x, Holder::Retired(slot as int, b), vs, is, vo, io));
                    assert forall|e: int| #[trigger] holds_vertex(x, e) implies !holds_vertex(st, e) by {
                        if holds_vertex(st, e) {
                            assert(vo(e) == tag);
                        }
                    }
                    assert forall|e: int| #[trigger] holds_index(x, e) implies !holds_index(st, e) by {
                        if holds_index(st, e) {
                            assert(io(e) == tag);
                        }
                    }
                    lemma_held_kept(x, Holder::Retired(slot as int, b), vs, is, vo, io, vn, inn, vo, io);
                }
                let before = storages@.take(j as int);
                let after = storages@.take(j + 1);
                assert(after =~= before.push(st));
                assert forall|e: int| any_holds_vertex(after, e) <==> (any_holds_vertex(before, e) || holds_vertex(st, e)) by {
                    if holds_vertex(st, e) {
                        assert(after[j as int] == st);
                    }
                    if any_holds_vertex(before, e) {
                        let b = choose|b: int| 0 <= b < before.len() && #[trigger] holds_vertex(before[b], e);
                        assert(after[b] == before[b]);
                    }
                    if any_holds_vertex(after, e) {
                        let b = choose|b: int| 0 <= b < after.len() && #[trigger] holds_vertex(after[b], e);
                        if b < j {
                            assert(after[b] == before[b]);
                        }
                    }
                }
                assert forall|e: int| is_free(vn, e) <==> (is_free(v0, e) || any_holds_vertex(after, e)) by {
                    assert(is_free(vs, e) <==> (is_free(v0, e) || any_holds_vertex(before, e)));
                    assert(any_holds_vertex(after, e) <==> (any_holds_vertex(before, e) || holds_vertex(st, e)));
                    if is_free(vn, e) {
                        assert(is_free(vs, e) || holds_vertex(st, e));
                    }
                    if is_free(vs, e) || holds_vertex(st, e) {
                        assert(is_free(vn, e));
                    }
                }
                assert forall|e: int| any_holds_index(after, e) <==> (any_holds_index(before, e) || holds_index(st, e)) by {
                    if holds_index(st, e) {
                        assert(after[j as int] == st);
                    }
                    if any_holds_index(before, e) {
                        let b = choose|b: int| 0 <= b < before.len() && #[trigger] holds_index(before[b], e);
                        assert(after[b] == before[b]);
                    }
                    if any_holds_index(after, e) {
                        let b = choose|b: int| 0 <= b < after.len() && #[trigger] holds_index(after[b], e);
                        if b < j {
                            assert(after[b] == before[b]);
                        }
                    }
                }
                assert forall|e: int| is_free(inn, e) <==> (is_free(i0, e) || any_holds_index(after, e)) by {
                    assert(is_free(is, e) <==> (is_free(i0, e) || any_holds_index(before, e)));
                    assert(any_holds_index(after, e) <==> (any_holds_index(before, e) || holds_index(st, e)));
                    if is_free(inn, e) {
                        assert(is_free(is, e) || holds_index(st, e));
                    }
                    if is_free(is, e) || holds_index(st, e) {
                        assert(is_free(inn, e));
                    }
                }
            }
            j = j + 1;
        }
        proof {
            assert(storages@.take(j as int) =~= storages@);
            assert(self.retired@[slot as int]@ =~= Seq::<ChunkStorage>::empty());
            lemma_slots_total_change(r0, self.retired@, slot as int, true);
            lemma_slots_total_change(r0, self.retired@, slot as int, false);
            assert forall|t: int, b: int|
                0 <= t < self.retired@.len() && 0 <= b < self.retired@[t]@.len() implies storage_held(
                #[trigger] self.retired@[t]@[b],
                Holder::Retired(t, b),
                self.vertexRanges.spans(),
                self.indexRanges.spans(),
                self.vertexOwner@,
                self.indexOwner@,
            ) by {
                assert(t != slot);
                assert(self.retired@[t] == r0[t]);
            }
        }
        storages
    }
}

/// The two storages hold no element in common.
pub open spec fn storages_apart(a: ChunkStorage, b: ChunkStorage) -> bool {
    &&& forall|e: int| #[trigger] holds_vertex(a, e) ==> !holds_vertex(b, e)
    &&& forall|e: int| #[trigger] holds_index(a, e) ==> !holds_index(b, e)
}

/// Where a mesh of `vertexCount` vertices and `indexCount` indices went,
/// given the arenas' free runs before and after: runs taken from the front
/// of the best-fitting free span of each arena when both have one;
/// otherwise buffers of its own, with the arenas' free elements as they
/// were.
pub open spec fn placement(
    st: ChunkStorage,
    v0: Seq<FreeSpan>,
    i0: Seq<FreeSpan>,
    v1: Seq<FreeSpan>,
    i1: Seq<FreeSpan>,
    vertexCount: u32,
    indexCount: u32,
) -> bool {
    match st {
        ChunkStorage::Shared { firstVertex, vertexCount: vc, firstIndex, indexCount: ic } => {
            &&& vc == vertexCount
            &&& ic == indexCount
            &&& exists|k: int| #[trigger] is_best_fit(v0, vertexCount, k) && v0[k].start == firstVertex && v1 == claimed(v0, k, vertexCount)
            &&& exists|k: int| #[trigger] is_best_fit(i0, indexCount, k) && i0[k].start == firstIndex && i1 == claimed(i0, k, indexCount)
        },
        ChunkStorage::Dedicated => {
            &&& !(has_fit(v0, vertexCount) && has_fit(i0, indexCount))
            &&& i1 == i0
            &&& forall|e: int| is_free(v1, e) <==> is_free(v0, e)
        },
    }
}

impl ChunkResidency {
    /// `st` holds only elements that are taken and that no chunk or retired
    /// storage holds.
    closed spec fn fresh_for(&self, st: ChunkStorage) -> bool {
        &&& forall|a: int| 0 <= a < self.chunks@.len() ==> storages_apart(st, (#[trigger] self.chunks@[a]).storage)
        &&& forall|t: int, b: int|
            0 <= t < self.retired@.len() && 0 <= b < self.retired@[t]@.len() ==> storages_apart(
                st,
                #[trigger] self.retired@[t]@[b],
            )
        &&& forall|e: int| #[trigger] holds_vertex(st, e) ==> !is_free(self.vertexRanges.spans(), e)
        &&& forall|e: int| #[trigger] holds_index(st, e) ==> !is_free(self.indexRanges.spans(), e)
    }

    /// Takes runs for a mesh from both arenas, or gives back the vertex run
    /// and settles for buffers of its own when the index arena has no room;
    /// see [`placement`].
    fn claim_storage(&mut self, vertexCount: u32, indexCount: u32) -> (st: ChunkStorage)
        requires
            old(self).wf(),
            vertexCount > 0,
            indexCount > 0,
        ensures
            final(self).sets_wf(),
            final(self).chunks@ == old(self).chunks@,
            final(self).retired@ == old(self).retired@,
            final(self).vertexOwner == old(self).vertexOwner,
            final(self).indexOwner == old(self).indexOwner,
            final(self).vertexCapacity == old(self).vertexCapacity,
            final(self).indexCapacity == old(self).indexCapacity,
            crate::arena::free_total(final(self).vertexRanges.spans()) + held_count(st, true) == crate::arena::free_total(
                old(self).vertexRanges.spans(),
            ),
            crate::arena::free_total(final(self).indexRanges.spans()) + held_count(st, false) == crate::arena::free_total(
                old(self).indexRanges.spans(),
            ),
            storage_wf(st),
            final(self).fresh_for(st),
            placement(
                st,
                old(self).vertexRanges.spans(),
                old(self).indexRanges.spans(),
                final(self).vertexRanges.spans(),
                final(self).indexRanges.spans(),
                vertexCount,
                indexCount,
            ),
    {
        let ghost v0 = self.vertexRanges.spans();
        let ghost i0 = self.indexRanges.spans();
        let ghost vo = self.vertexOwner@;
        let ghost io = self.indexOwner@;
        let vclaim = self.vertexRanges.claim(vertexCount);
        let st = match vclaim {
            Some(firstVertex) => {
                let ghost v1 = self.vertexRanges.spans();
                proof {
                    let k = choose|k: int| #![trigger v0[k]] is_best_fit(v0, vertexCount, k) && firstVertex == v0[k].start
                        && v1 == claimed(v0, k, vertexCount);
                    lemma_claimed_positive(v0, k, vertexCount);
                }
                let iclaim = self.indexRanges.claim(indexCount);
                match iclaim {
                    Some(firstIndex) => {
                        proof {
                            let k = choose|k: int| #![trigger i0[k]] is_best_fit(i0, indexCount, k) && firstIndex
                                == i0[k].start && self.indexRanges.spans() == claimed(i0, k, indexCount);
                            lemma_claimed_positive(i0, k, indexCount);
                        }
                        ChunkStorage::Shared { firstVertex, vertexCount, firstIndex, indexCount }
                    },
                    None => {
                        proof {
                            assert forall|e: int| firstVertex <= e < firstVertex + vertexCount implies !is_free(v1, e) by {}
                            lemma_recyclable_when_taken(v1, firstVertex, vertexCount);
                            lemma_recycled_positive(v1, firstVertex, vertexCount);
                        }
                        self.vertexRanges.recycle(firstVertex, vertexCount);
                        proof {
                            assert forall|e: int| is_free(self.vertexRanges.spans(), e) <==> is_free(v0, e) by {}
                        }
                        ChunkStorage::Dedicated
                    },
                }
            },
            None => ChunkStorage::Dedicated,
        };
        proof {
            let vn = self.vertexRanges.spans();
            let inn = self.indexRanges.spans();
            assert forall|e: int| is_free(vn, e) implies is_free(v0, e) by {}
            assert forall|e: int| is_free(inn, e) implies is_free(i0, e) by {}
            assert forall|e: int| #[trigger] holds_vertex(st, e) implies is_free(v0, e) && !is_free(vn, e) by {}
            assert forall|e: int| #[trigger] holds_index(st, e) implies is_free(i0, e) && !is_free(inn, e) by {}
            assert forall|a: int| 0 <= a < self.chunks@.len() implies storage_held(
                (#[trigger] self.chunks@[a]).storage,
                Holder::Resident(self.chunks@[a].key),
                vn,
                inn,
                vo,
                io,
            ) && storages_apart(st, self.chunks@[a].storage) by {
                let c = self.chunks@[a];
                assert(storage_held(c.storage, Holder::Resident(c.key), v0, i0, vo, io));
                lemma_held_kept(c.storage, Holder::Resident(c.key), v0, i0, vo, io, vn, inn, vo, io);
            }
            assert forall|t: int, b: int|
                0 <= t < self.retired@.len() && 0 <= b < self.retired@[t]@.len() implies storage_held(
                #[trigger] self.retired@[t]@[b],
                Holder::Retired(t, b),
                vn,
                inn,
                vo,
                io,
            ) && storages_apart(st, self.retired@[t]@[b]) by {
                let x = self.retired@[t]@[b];
                assert(storage_held(x, Holder::Retired(t, b), v0, i0, vo, io));
                lemma_held_kept(x, Holder::Retired(t, b), v0, i0, vo, io, vn, inn, vo, io);
            }
        }
        st
    }

    /// Makes `c` resident; its key has no chunk, and its storage is taken
    /// and held by no one else.
    fn add_resident(&mut self, c: GpuChunk)
        requires
            old(self).sets_wf(),
            crate::arena::free_total(old(self).vertexRanges.spans()) + old(self).held_elements(true) + held_count(
                c.storage,
                true,
            ) == old(self).vertexCapacity,
            crate::arena::free_total(old(self).indexRanges.spans()) + old(self).held_elements(false) + held_count(
                c.storage,
                false,
            ) == old(self).indexCapacity,
            lookup(old(self).chunks@, c.key) is None,
            storage_wf(c.storage),
            old(self).fresh_for(c.storage),
        ensures
            final(self).wf(),
            final(self).chunks@ == old(self).chunks@.push(c),
            final(self).retired@ == old(self).retired@,
            final(self).vertexRanges == old(self).vertexRanges,
            final(self).indexRanges == old(self).indexRanges,
    {
        let ghost s0 = self.chunks@;
        let ghost vo = self.vertexOwner@;
        let ghost io = self.indexOwner@;
        let ghost st = c.storage;
        let ghost tag = Holder::Resident(c.key);
        proof {
            lemma_lookup_push(s0, c);
        }
        self.chunks.push(c);
        self.vertexOwner = Ghost(|e: int| if holds_vertex(st, e) { tag } else { vo(e) });
        self.indexOwner = Ghost(|e: int| if holds_index(st, e) { tag } else { io(e) });
        proof {
            assert(self.chunks@.drop_last() =~= s0);
            let vs = self.vertexRanges.spans();
            let is = self.indexRanges.spans();
            assert forall|a: int| 0 <= a < self.chunks@.len() implies storage_held(
                (#[trigger] self.chunks@[a]).storage,
                Holder::Resident(self.chunks@[a].key),
                vs,
                is,
                self.vertexOwner@,
                self.indexOwner@,
            ) by {
                if a < s0.len() {
                    let x = s0[a];
                    assert(self.chunks@[a] == x);
                    assert(storage_held(x.storage, Holder::Resident(x.key), vs, is, vo, io));
                    assert(storages_apart(st, x.storage));
                    lemma_held_kept(x.storage, Holder::Resident(x.key), vs, is, vo, io, vs, is, self.vertexOwner@,
                        self.indexOwner@);
                } else {
                    assert(self.chunks@[a] == c);
                }
            }
            assert forall|t: int, b: int|
                0 <= t < self.retired@.len() && 0 <= b < self.retired@[t]@.len() implies storage_held(
                #[trigger] self.retired@[t]@[b],
                Holder::Retired(t, b),
                vs,
                is,
                self.vertexOwner@,
                self.indexOwner@,
            ) by {
                let x = self.retired@[t]@[b];
                assert(storage_held(x, Holder::Retired(t, b), vs, is, vo, io));
                assert(storages_apart(st, x));
                lemma_held_kept(x, Holder::Retired(t, b), vs, is, vo, io, vs, is, self.vertexOwner@, self.indexOwner@);
            }
        }
    }
}

/// A render chunk's new mesh: its counts, layer ranges and revision, and
/// whether only its indices differ from the mesh before (a translucency
/// re-sort).
#[derive(Debug, Clone, Copy, PartialEq, Eq)]
pub struct ChunkUpload {
    pub key: RenderChunkKey,
    pub vertexCount: usize,
    pub indexCount: usize,
    pub layerRanges: [ChunkLayerRange; 4],
    pub meshRevision: u64,
    pub verticesUnchanged: bool,
}

/// What an upload did.
#[derive(Debug, Clone, Copy, PartialEq, Eq)]
pub enum UploadOutcome {
    /// The chunk already holds this revision.
    Unchanged,
    /// The mesh is empty: the chunk, if it was resident, is dropped.
    Removed,
    /// Only the indices are new: they go over the chunk's own, at this
    /// storage.
    IndexOnly { storage: ChunkStorage },
    /// The mesh goes to this storage; the chunk's previous one is retired.
    Placed { storage: ChunkStorage },
}

/// Why an upload was refused.
#[derive(Debug, Clone, Copy, PartialEq, Eq)]
pub enum ResidencyError {
    /// The frame slot does not exist.
    FrameSlotOutOfRange,
    /// The mesh has more vertices than 32 bits count.
    VertexCountTooLarge,
    /// The mesh has more indices than 32 bits count.
    IndexCountTooLarge,
}

/// The chunk already holds the upload's revision.
pub open spec fn upload_current(previous: Option<GpuChunk>, u: ChunkUpload) -> bool {
    previous matches Some(c) && c.meshRevision == u.meshRevision
}

/// Only the upload's indices need writing: its vertices are unchanged and
/// the resident mesh has its counts.
pub open spec fn upload_index_only(previous: Option<GpuChunk>, u: ChunkUpload) -> bool {
    u.verticesUnchanged && (previous matches Some(c) && c.vertexCount == u.vertexCount && c.indexCount
        == u.indexCount)
}

impl ChunkResidency {
    /// The two residencies hold the same chunks, retired storage and free
    /// runs.
    pub open spec fn same_as(&self, other: &ChunkResidency) -> bool {
        &&& forall|k: RenderChunkKey| #[trigger] self.resident(k) == other.resident(k)
        &&& self.slots() == other.slots()
        &&& forall|t: int| #[trigger] self.retired_at(t) == other.retired_at(t)
        &&& self.vertex_spans() == other.vertex_spans()
        &&& self.index_spans() == other.index_spans()
    }

    /// Applies a chunk's new mesh: nothing when the chunk holds its
    /// revision; an empty mesh drops the chunk; counts past 32 bits are
    /// refused; new indices for unchanged vertices go over the chunk's own;
    /// any other mesh is placed anew ([`placement`]) and the chunk's
    /// previous storage retired in frame slot `slot`.
    pub fn upload_chunk(&mut self, upload: &ChunkUpload, slot: usize) -> (r: Result<UploadOutcome, ResidencyError>)
        requires
            old(self).wf(),
        ensures
            final(self).wf(),
            final(self).slots() == old(self).slots(),
            ({
                let u = *upload;
                let previous = old(self).resident(u.key);
                if slot >= old(self).slots() {
                    r == Err::<UploadOutcome, ResidencyError>(ResidencyError::FrameSlotOutOfRange)
                        && final(self).same_as(old(self))
                } else if upload_current(previous, u) {
                    r == Ok::<UploadOutcome, ResidencyError>(UploadOutcome::Unchanged) && final(self).same_as(old(self))
                } else if u.vertexCount == 0 || u.indexCount == 0 {
                    &&& r == Ok::<UploadOutcome, ResidencyError>(UploadOutcome::Removed)
                    &&& final(self).resident(u.key) is None
                    &&& forall|k: RenderChunkKey| k != u.key ==> final(self).resident(k) == old(self).resident(k)
                    &&& final(self).retired_at(slot as int) == retired_with(old(self).retired_at(slot as int), previous)
                    &&& forall|t: int|
                        0 <= t < old(self).slots() && t != slot ==> #[trigger] final(self).retired_at(t) == old(
                            self,
                        ).retired_at(t)
                    &&& final(self).vertex_spans() == old(self).vertex_spans()
                    &&& final(self).index_spans() == old(self).index_spans()
                } else if u.vertexCount > u32::MAX {
                    r == Err::<UploadOutcome, ResidencyError>(ResidencyError::VertexCountTooLarge) && final(self).same_as(
                        old(self),
                    )
                } else if u.indexCount > u32::MAX {
                    r == Err::<UploadOutcome, ResidencyError>(ResidencyError::IndexCountTooLarge) && final(self).same_as(
                        old(self),
                    )
                } else if upload_index_only(previous, u) {
                    &&& r == Ok::<UploadOutcome, ResidencyError>(UploadOutcome::IndexOnly { storage: previous->0.storage })
                    &&& final(self).resident(u.key) == Some(
                        GpuChunk { layerRanges: u.layerRanges, meshRevision: u.meshRevision, ..previous->0 },
                    )
                    &&& forall|k: RenderChunkKey| k != u.key ==> final(self).resident(k) == old(self).resident(k)
                    &&& forall|t: int| #[trigger] final(self).retired_at(t) == old(self).retired_at(t)
                    &&& final(self).vertex_spans() == old(self).vertex_spans()
                    &&& final(self).index_spans() == old(self).index_spans()
                } else {
                    &&& r matches Ok(UploadOutcome::Placed { storage })
                    &&& placement(
                        storage,
                        old(self).vertex_spans(),
                        old(self).index_spans(),
                        final(self).vertex_spans(),
                        final(self).index_spans(),
                        u.vertexCount as u32,
                        u.indexCount as u32,
                    )
                    &&& final(self).resident(u.key) == Some(
                        GpuChunk {
                            key: u.key,
                            storage,
                            layerRanges: u.layerRanges,
                            vertexCount: u.vertexCount as u32,
                            indexCount: u.indexCount as u32,
                            meshRevision: u.meshRevision,
                        },
                    )
                    &&& forall|k: RenderChunkKey| k != u.key ==> final(self).resident(k) == old(self).resident(k)
                    &&& final(self).retired_at(slot as int) == retired_with(old(self).retired_at(slot as int), previous)
                    &&& forall|t: int|
                        0 <= t < old(self).slots() && t != slot ==> #[trigger] final(self).retired_at(t) == old(
                            self,
                        ).retired_at(t)
                }
            }),
    {
        if slot >= self.retired.len() {
            return Err(ResidencyError::FrameSlotOutOfRange);
        }
        let key = upload.key;
        let found = self.find(key);
        if let Some(i) = found {
            if self.chunks[i].meshRevision == upload.meshRevision {
                return Ok(UploadOutcome::Unchanged);
            }
        }
        if upload.vertexCount == 0 || upload.indexCount == 0 {
            if let Some(i) = found {
                proof {
                    lemma_lookup_remove(self.chunks@, i as int);
                }
                self.retire_at(i, slot);
            }
            return Ok(UploadOutcome::Removed);
        }
        if upload.vertexCount > 0xffff_ffff {
            return Err(ResidencyError::VertexCountTooLarge);
        }
        if upload.indexCount > 0xffff_ffff {
            return Err(ResidencyError::IndexCountTooLarge);
        }
        let vertexCount = upload.vertexCount as u32;
        let indexCount = upload.indexCount as u32;
        if upload.verticesUnchanged {
            if let Some(i) = found {
                let c = self.chunks[i];
                if c.vertexCount == vertexCount && c.indexCount == indexCount {
                    let updated = GpuChunk { layerRanges: upload.layerRanges, meshRevision: upload.meshRevision, ..c };
                    let ghost s0 = self.chunks@;
                    proof {
                        lemma_lookup_set(s0, i as int, updated);
                        lemma_chunks_total_update(s0, i as int, updated, true);
                        lemma_chunks_total_update(s0, i as int, updated, false);
                    }
                    self.chunks.set(i, updated);
                    proof {
                        assert forall|a: int| 0 <= a < self.chunks@.len() implies storage_held(
                            (#[trigger] self.chunks@[a]).storage,
                            Holder::Resident(self.chunks@[a].key),
                            self.vertexRanges.spans(),
                            self.indexRanges.spans(),
                            self.vertexOwner@,
                            self.indexOwner@,
                        ) by {
                            assert(self.chunks@[a].storage == s0[a].storage && self.chunks@[a].key == s0[a].key);
                        }
                    }
                    return Ok(UploadOutcome::IndexOnly { storage: c.storage });
                }
            }
        }
        let ghost before = self.chunks@;
        match found {
            Some(i) => {
                proof {
                    lemma_lookup_remove(before, i as int);
                }
                self.retire_at(i, slot);
            },
            None => {},
        }
        let ghost mid = self.chunks@;
        let storage = self.claim_storage(vertexCount, indexCount);
        let replacement = GpuChunk {
            key,
            storage,
            layerRanges: upload.layerRanges,
            vertexCount,
            indexCount,
            meshRevision: upload.meshRevision,
        };
        proof {
            assert forall|k: RenderChunkKey| k != key implies lookup(mid, k) == lookup(before, k) by {
                if let Some(i) = found {
                    assert(mid == before.remove(i as int));
                }
            }
            lemma_lookup_push(mid, replacement);
        }
        self.add_resident(replacement);
        Ok(UploadOutcome::Placed { storage })
    }
}

impl ChunkResidency {
    /// Free elements of the vertex arena.
    pub fn free_vertices(&self) -> (n: u64)
        requires
            self.wf(),
        ensures
            n == crate::arena::free_total(self.vertex_spans()),
    {
        self.vertexRanges.free_count()
    }

    /// Free elements of the index arena.
    pub fn free_indices(&self) -> (n: u64)
        requires
            self.wf(),
        ensures
            n == crate::arena::free_total(self.index_spans()),
    {
        self.indexRanges.free_count()
    }

    /// Number of elements of the vertex arena.
    pub fn vertex_capacity(&self) -> (n: u32)
        ensures
            n == self.capacity(true),
    {
        self.vertexCapacity
    }

    /// Number of elements of the index arena.
    pub fn index_capacity(&self) -> (n: u32)
        ensures
            n == self.capacity(false),
    {
        self.indexCapacity
    }

    /// Number of frame slots.
    pub fn slot_count(&self) -> (n: usize)
        ensures
            n == self.slots(),
    {
        self.retired.len()
    }

    /// Staging bytes after a chunk's new mesh of `vertexBytes` vertex bytes:
    /// unchanged for an empty mesh or one the chunk already holds; its
    /// indices alone from the next multiple of four for an index-only
    /// update; else its vertices and then its indices, as
    /// [`staged_end`](crate::upload::staged_end) places them.
    pub fn chunk_upload_bytes(&self, total: u64, upload: &ChunkUpload, vertexBytes: u64) -> (r: u64)
        requires
            self.wf(),
            upload.indexCount * 4 <= usize::MAX,
            total + 3 <= u64::MAX,
            sat_add_u64(round_up4(total) as u64, vertexBytes) + 3 <= u64::MAX,
        ensures
            ({
                let u = *upload;
                let previous = self.resident(u.key);
                let indexBytes = (u.indexCount * 4) as u64;
                r == if u.vertexCount == 0 || u.indexCount == 0 || upload_current(previous, u) {
                    total
                } else if upload_index_only(previous, u) {
                    sat_add_u64(round_up4(total) as u64, indexBytes)
                } else {
                    staged_end(total, vertexBytes, indexBytes)
                }
            }),
    {
        let previous = self.get(upload.key);
        if upload.vertexCount == 0 || upload.indexCount == 0 {
            return total;
        }
        if let Some(c) = previous {
            if c.meshRevision == upload.meshRevision {
                return total;
            }
        }
        let indexBytes = (upload.indexCount * 4) as u64;
        proof {
            assert(is_pow2_u64(4)) by {
                vstd::arithmetic::power2::lemma2_to64();
                assert(4 == pow2(2));
            }
        }
        let indexOnly = upload.verticesUnchanged && match previous {
            Some(c) => c.vertexCount as usize == upload.vertexCount && c.indexCount as usize == upload.indexCount,
            None => false,
        };
        if indexOnly {
            align_up(total, 4).saturating_add(indexBytes)
        } else {
            let afterVertices = align_up(total, 4).saturating_add(vertexBytes);
            align_up(afterVertices, 4).saturating_add(indexBytes)
        }
    }
}

/// Storage retired in a frame slot is not free until that slot is
/// collected, so the arenas, which hand out free elements only, cannot give
/// it to another chunk while the slot's commands may still read it.
pub proof fn lemma_retired_storage_stays_taken(r: &ChunkResidency, t: int, j: int)
    requires
        r.wf(),
        0 <= t < r.slots(),
        0 <= j < r.retired_at(t).len(),
    ensures
        forall|e: int| #[trigger] holds_vertex(r.retired_at(t)[j], e) ==> !is_free(r.vertex_spans(), e),
        forall|e: int| #[trigger] holds_index(r.retired_at(t)[j], e) ==> !is_free(r.index_spans(), e),
{
    assert(storage_held(r.retired@[t]@[j], Holder::Retired(t, j), r.vertexRanges.spans(), r.indexRanges.spans(),
        r.vertexOwner@, r.indexOwner@));
}

/// Resident chunks hold arena elements that are not free, and no element
/// is held twice: two resident chunks, or a resident chunk and a retired
/// storage, never share a vertex or an index of the shared arenas.
pub proof fn lemma_storage_never_shared(r: &ChunkResidency, k1: RenderChunkKey, k2: RenderChunkKey, t: int, j: int)
    requires
        r.wf(),
    ensures
        r.resident(k1) matches Some(c) ==> (forall|e: int| #[trigger] holds_vertex(c.storage, e) ==> !is_free(
            r.vertex_spans(),
            e,
        )) && (forall|e: int| #[trigger] holds_index(c.storage, e) ==> !is_free(r.index_spans(), e)),
        k1 != k2 ==> (r.resident(k1) matches Some(c1) ==> (r.resident(k2) matches Some(c2) ==> storages_apart(
            c1.storage,
            c2.storage,
        ))),
        0 <= t < r.slots() && 0 <= j < r.retired_at(t).len() ==> (r.resident(k1) matches Some(c) ==> storages_apart(
            c.storage,
            r.retired_at(t)[j],
        )),
{
    let s = r.chunks@;
    let vo = r.vertexOwner@;
    let io = r.indexOwner@;
    if let Some(c1) = r.resident(k1) {
        let a = key_index(s, k1);
        assert(storage_held(s[a].storage, Holder::Resident(k1), r.vertexRanges.spans(), r.indexRanges.spans(), vo, io));
        if k1 != k2 {
            if let Some(c2) = r.resident(k2) {
                let b = key_index(s, k2);
                assert(storage_held(s[b].storage, Holder::Resident(k2), r.vertexRanges.spans(), r.indexRanges.spans(), vo,
                    io));
                assert forall|e: int| #[trigger] holds_vertex(c1.storage, e) implies !holds_vertex(c2.storage, e) by {
                    if holds_vertex(c2.storage, e) {
                        assert(vo(e) == Holder::Resident(k1) && vo(e) == Holder::Resident(k2));
                    }
                }
                assert forall|e: int| #[trigger] holds_index(c1.storage, e) implies !holds_index(c2.storage, e) by {
                    if holds_index(c2.storage, e) {
                        assert(io(e) == Holder::Resident(k1) && io(e) == Holder::Resident(k2));
                    }
                }
            }
        }
        if 0 <= t < r.slots() && 0 <= j < r.retired_at(t).len() {
            let x = r.retired@[t]@[j];
            assert(storage_held(x, Holder::Retired(t, j), r.vertexRanges.spans(), r.indexRanges.spans(), vo, io));
            assert forall|e: int| #[trigger] holds_vertex(c1.storage, e) implies !holds_vertex(x, e) by {
                if holds_vertex(x, e) {
                    assert(vo(e) == Holder::Resident(k1) && vo(e) == Holder::Retired(t, j));
                }
            }
            assert forall|e: int| #[trigger] holds_index(c1.storage, e) implies !holds_index(x, e) by {
                if holds_index(x, e) {
                    assert(io(e) == Holder::Resident(k1) && io(e) == Holder::Retired(t, j));
                }
            }
        }
    }
}

/// A mesh placed in the shared arenas, once its storage is collected,
/// gives back exactly the elements it took: the arenas' free elements are
/// those from before the placement.
pub proof fn lemma_place_then_collect(
    st: ChunkStorage,
    v0: Seq<FreeSpan>,
    i0: Seq<FreeSpan>,
    v1: Seq<FreeSpan>,
    i1: Seq<FreeSpan>,
    v2: Seq<FreeSpan>,
    i2: Seq<FreeSpan>,
    vertexCount: u32,
    indexCount: u32,
)
    requires
        spans_wf(v0),
        spans_wf(i0),
        vertexCount > 0,
        indexCount > 0,
        placement(st, v0, i0, v1, i1, vertexCount, indexCount),
        forall|e: int| is_free(v2, e) <==> (is_free(v1, e) || holds_vertex(st, e)),
        forall|e: int| is_free(i2, e) <==> (is_free(i1, e) || holds_index(st, e)),
    ensures
        forall|e: int| is_free(v2, e) <==> is_free(v0, e),
        forall|e: int| is_free(i2, e) <==> is_free(i0, e),
{
    match st {
        ChunkStorage::Shared { firstVertex, firstIndex, .. } => {
            let kv = choose|k: int| #[trigger] is_best_fit(v0, vertexCount, k) && v0[k].start == firstVertex && v1
                == claimed(v0, k, vertexCount);
            let ki = choose|k: int| #[trigger] is_best_fit(i0, indexCount, k) && i0[k].start == firstIndex && i1
                == claimed(i0, k, indexCount);
            lemma_claimed_free(v0, kv, vertexCount);
            lemma_claimed_free(i0, ki, indexCount);
        },
        ChunkStorage::Dedicated => {},
    }
}

/// No arena element is ever lost: the free elements and those that
/// resident chunks and retired storage hold make up each arena, so that
/// with no chunk resident and nothing retired the arenas are wholly free.
pub proof fn lemma_nothing_lost(r: &ChunkResidency)
    requires
        r.wf(),
    ensures
        crate::arena::free_total(r.vertex_spans()) + r.held_elements(true) == r.capacity(true),
        crate::arena::free_total(r.index_spans()) + r.held_elements(false) == r.capacity(false),
        (forall|k: RenderChunkKey| #[trigger] r.resident(k) is None) && (forall|t: int|
            0 <= t < r.slots() ==> #[trigger] r.retired_at(t).len() == 0) ==> crate::arena::free_total(r.vertex_spans())
            == r.capacity(true) && crate::arena::free_total(r.index_spans()) == r.capacity(false),
{
    if (forall|k: RenderChunkKey| #[trigger] r.resident(k) is None) && (forall|t: int|
        0 <= t < r.slots() ==> #[trigger] r.retired_at(t).len() == 0) {
        if r.chunks@.len() > 0 {
            lemma_lookup_at(r.chunks@, 0);
            assert(r.resident(r.chunks@[0].key) is Some);
        }
        assert(r.chunks@ =~= Seq::<GpuChunk>::empty());
        assert forall|u: int| 0 <= u < r.retired@.len() implies (#[trigger] r.retired@[u])@.len() == 0 by {
            assert(r.retired_at(u).len() == 0);
        }
        lemma_slots_total_empty(r.retired@, true);
        lemma_slots_total_empty(r.retired@, false);
    }
}

} // verus!
