use vstd::prelude::*;
use crate::codec::{CodecError, PacketReader, be_u16, be_u32, be_u64, parse_short_string, read_u8, read_i32_be,
    read_i64_be, read_u16_be, read_short_string};

verus! {

/// Type id of the end marker.
pub const TAG_END: u8 = 0;
pub const TAG_BYTE: u8 = 1;
pub const TAG_SHORT: u8 = 2;
pub const TAG_INT: u8 = 3;
pub const TAG_LONG: u8 = 4;
pub const TAG_FLOAT: u8 = 5;
pub const TAG_DOUBLE: u8 = 6;
pub const TAG_BYTE_ARRAY: u8 = 7;
pub const TAG_STRING: u8 = 8;
pub const TAG_LIST: u8 = 9;
pub const TAG_COMPOUND: u8 = 10;
pub const TAG_INT_ARRAY: u8 = 11;
pub const TAG_LONG_ARRAY: u8 = 12;
/// Pseudo type id that `hasKeyWithType` accepts for every numeric tag.
pub const TAG_ANY_NUMERIC: u8 = 99;

/// The value of a named binary tag, as a mathematical value. Floating-point
/// payloads are kept as their IEEE-754 bits.
pub enum Nbt {
    End,
    Byte(i8),
    Short(i16),
    Int(i32),
    Long(i64),
    Float(u32),
    Double(u64),
    ByteArray(Seq<u8>),
    Str(Seq<char>),
    List(u8, Seq<Nbt>),
    Compound(Seq<(Seq<char>, Nbt)>),
    IntArray(Seq<i32>),
    LongArray(Seq<i64>),
}

/// Type id of a tag value.
pub open spec fn nbt_type(t: Nbt) -> u8 {
    match t {
        Nbt::End => TAG_END,
        Nbt::Byte(_) => TAG_BYTE,
        Nbt::Short(_) => TAG_SHORT,
        Nbt::Int(_) => TAG_INT,
        Nbt::Long(_) => TAG_LONG,
        Nbt::Float(_) => TAG_FLOAT,
        Nbt::Double(_) => TAG_DOUBLE,
        Nbt::ByteArray(_) => TAG_BYTE_ARRAY,
        Nbt::Str(_) => TAG_STRING,
        Nbt::List(_, _) => TAG_LIST,
        Nbt::Compound(_) => TAG_COMPOUND,
        Nbt::IntArray(_) => TAG_INT_ARRAY,
        Nbt::LongArray(_) => TAG_LONG_ARRAY,
    }
}

/// The value stored under `key` in compound entries, if any (the first
/// entry with that key).
pub open spec fn nbt_lookup(m: Seq<(Seq<char>, Nbt)>, key: Seq<char>) -> Option<Nbt>
    decreases m.len(),
{
    if m.len() == 0 {
        None
    } else if m[0].0 == key {
        Some(m[0].1)
    } else {
        nbt_lookup(m.drop_first(), key)
    }
}

/// Compound entries after storing `value` under `key`: an entry with that
/// key is replaced in place, otherwise the entry goes at the end.
pub open spec fn nbt_set(m: Seq<(Seq<char>, Nbt)>, key: Seq<char>, value: Nbt) -> Seq<(Seq<char>, Nbt)>
    decreases m.len(),
{
    if m.len() == 0 {
        seq![(key, value)]
    } else if m[0].0 == key {
        m.update(0, (key, value))
    } else {
        seq![m[0]] + nbt_set(m.drop_first(), key, value)
    }
}

/// No key occurs twice.
pub open spec fn keys_distinct(m: Seq<(Seq<char>, Nbt)>) -> bool {
    forall|i: int, j: int| 0 <= i < j < m.len() ==> (#[trigger] m[i]).0 != (#[trigger] m[j]).0
}

/// Every compound in the value, however deep, names each entry once.
pub open spec fn nbt_wf(t: Nbt) -> bool
    decreases t,
{
    match t {
        Nbt::Compound(m) => keys_distinct(m) && forall|i: int| 0 <= i < m.len() ==> nbt_wf(#[trigger] m[i].1),
        Nbt::List(_, items) => forall|i: int| 0 <= i < items.len() ==> nbt_wf(#[trigger] items[i]),
        _ => true,
    }
}

/// Whether a tag is one of the numeric kinds.
pub open spec fn is_numeric(t: Nbt) -> bool {
    1 <= nbt_type(t) <= 6
}

/// Whether compound entries hold `key` with type `ty` (any numeric type for
/// `TAG_ANY_NUMERIC`).
pub open spec fn has_key_with_type(m: Seq<(Seq<char>, Nbt)>, key: Seq<char>, ty: u8) -> bool {
    match nbt_lookup(m, key) {
        Some(t) => if ty == TAG_ANY_NUMERIC {
            is_numeric(t)
        } else {
            nbt_type(t) == ty
        },
        None => false,
    }
}

/// The integer that an integer read of `key` gives: the value of a byte,
/// short or int tag, the low 32 bits of a long tag, and `0` for anything
/// else or nothing.
pub open spec fn int_value(m: Seq<(Seq<char>, Nbt)>, key: Seq<char>) -> i32 {
    match nbt_lookup(m, key) {
        Some(Nbt::Byte(v)) => v as i32,
        Some(Nbt::Short(v)) => v as i32,
        Some(Nbt::Int(v)) => v,
        Some(Nbt::Long(v)) => v as i32,
        _ => 0,
    }
}

/// A named binary tag.
#[derive(Debug)]
pub enum NBTBase {
    End,
    Byte(i8),
    Short(i16),
    Int(i32),
    Long(i64),
    /// A float, as its IEEE-754 bits.
    Float(u32),
    /// A double, as its IEEE-754 bits.
    Double(u64),
    ByteArray(Vec<u8>),
    String(String),
    List(NBTTagList),
    Compound(NBTTagCompound),
    IntArray(Vec<i32>),
    LongArray(Vec<i64>),
}

/// A list of tags of one type.
#[derive(Debug)]
pub struct NBTTagList {
    tagType: u8,
    tags: Vec<NBTBase>,
}

/// Named tags, each name once.
#[derive(Debug)]
pub struct NBTTagCompound {
    tagMap: Vec<(String, NBTBase)>,
}

/// The mathematical value of a tag.
pub closed spec fn nbt_view(t: &NBTBase) -> Nbt
    decreases t,
{
    match t {
        NBTBase::End => Nbt::End,
        NBTBase::Byte(v) => Nbt::Byte(*v),
        NBTBase::Short(v) => Nbt::Short(*v),
        NBTBase::Int(v) => Nbt::Int(*v),
        NBTBase::Long(v) => Nbt::Long(*v),
        NBTBase::Float(v) => Nbt::Float(*v),
        NBTBase::Double(v) => Nbt::Double(*v),
        NBTBase::ByteArray(v) => Nbt::ByteArray(v@),
        NBTBase::String(v) => Nbt::Str(v@),
        NBTBase::List(l) => Nbt::List(l.tagType, items_view(l.tags@)),
        NBTBase::Compound(c) => Nbt::Compound(entries_view(c.tagMap@)),
        NBTBase::IntArray(v) => Nbt::IntArray(v@),
        NBTBase::LongArray(v) => Nbt::LongArray(v@),
    }
}

/// The values of a sequence of tags.
pub closed spec fn items_view(s: Seq<NBTBase>) -> Seq<Nbt>
    decreases s,
{
    if s.len() == 0 {
        Seq::empty()
    } else {
        items_view(s.drop_last()).push(nbt_view(&s.last()))
    }
}

/// The entries of a compound, names taken as characters.
pub closed spec fn entries_view(s: Seq<(String, NBTBase)>) -> Seq<(Seq<char>, Nbt)>
    decreases s,
{
    if s.len() == 0 {
        Seq::empty()
    } else {
        entries_view(s.drop_last()).push((s.last().0@, nbt_view(&s.last().1)))
    }
}

/// Viewing entries one by one.
proof fn lemma_entries_view(s: Seq<(String, NBTBase)>)
    ensures
        entries_view(s).len() == s.len(),
        forall|i: int| 0 <= i < s.len() ==> #[trigger] entries_view(s)[i] == (s[i].0@, nbt_view(&s[i].1)),
    decreases s.len(),
{
    if s.len() > 0 {
        lemma_entries_view(s.drop_last());
    }
}

/// Viewing list items one by one.
pub proof fn lemma_items_view(s: Seq<NBTBase>)
    ensures
        items_view(s).len() == s.len(),
        forall|i: int| 0 <= i < s.len() ==> #[trigger] items_view(s)[i] == nbt_view(&s[i]),
    decreases s.len(),
{
    if s.len() > 0 {
        lemma_items_view(s.drop_last());
    }
}

impl NBTBase {
    /// The tag's value.
    pub open spec fn view(&self) -> Nbt {
        nbt_view(self)
    }

    /// The tag's type id.
    pub fn getId(&self) -> (id: u8)
        ensures
            id == nbt_type(self.view()),
    {
        proof {
            reveal_with_fuel(nbt_view, 2);
        }
        match self {
            NBTBase::End => TAG_END,
            NBTBase::Byte(_) => TAG_BYTE,
            NBTBase::Short(_) => TAG_SHORT,
            NBTBase::Int(_) => TAG_INT,
            NBTBase::Long(_) => TAG_LONG,
            NBTBase::Float(_) => TAG_FLOAT,
            NBTBase::Double(_) => TAG_DOUBLE,
            NBTBase::ByteArray(_) => TAG_BYTE_ARRAY,
            NBTBase::String(_) => TAG_STRING,
            NBTBase::List(_) => TAG_LIST,
            NBTBase::Compound(_) => TAG_COMPOUND,
            NBTBase::IntArray(_) => TAG_INT_ARRAY,
            NBTBase::LongArray(_) => TAG_LONG_ARRAY,
        }
    }
}

impl NBTTagList {
    /// The item type and the items.
    pub closed spec fn view(&self) -> (u8, Seq<Nbt>) {
        (self.tagType, items_view(self.tags@))
    }

    /// A list of item type `tagType` holding `tags`.
    pub fn new(tagType: u8, tags: Vec<NBTBase>) -> (l: NBTTagList)
        ensures
            l.view() == (tagType, items_view(tags@)),
    {
        NBTTagList { tagType, tags }
    }

    /// Type id of the items.
    pub fn getTagType(&self) -> (t: u8)
        ensures
            t == self.view().0,
    {
        self.tagType
    }

    /// Number of items.
    pub fn tagCount(&self) -> (n: usize)
        ensures
            n == self.view().1.len(),
    {
        proof {
            lemma_items_view(self.tags@);
        }
        self.tags.len()
    }
}

/// The value of each kind of tag: the scalar or array it holds, a list's
/// item type and items, a compound's entries.
pub proof fn lemma_tag_view(t: &NBTBase)
    ensures
        match t {
            NBTBase::End => t.view() == Nbt::End,
            NBTBase::Byte(v) => t.view() == Nbt::Byte(*v),
            NBTBase::Short(v) => t.view() == Nbt::Short(*v),
            NBTBase::Int(v) => t.view() == Nbt::Int(*v),
            NBTBase::Long(v) => t.view() == Nbt::Long(*v),
            NBTBase::Float(v) => t.view() == Nbt::Float(*v),
            NBTBase::Double(v) => t.view() == Nbt::Double(*v),
            NBTBase::ByteArray(v) => t.view() == Nbt::ByteArray(v@),
            NBTBase::String(v) => t.view() == Nbt::Str(v@),
            NBTBase::List(l) => t.view() == Nbt::List(l.view().0, l.view().1),
            NBTBase::Compound(c) => t.view() == Nbt::Compound(c.view()),
            NBTBase::IntArray(v) => t.view() == Nbt::IntArray(v@),
            NBTBase::LongArray(v) => t.view() == Nbt::LongArray(v@),
        },
{
}

impl NBTTagCompound {
    /// The entries, in insertion order.
    pub closed spec fn view(&self) -> Seq<(Seq<char>, Nbt)> {
        entries_view(self.tagMap@)
    }

    /// Each name occurs once, in nested compounds too.
    pub open spec fn wf(&self) -> bool {
        nbt_wf(Nbt::Compound(self.view()))
    }

    /// An empty compound.
    pub fn new() -> (c: NBTTagCompound)
        ensures
            c.wf(),
            c.view() == Seq::<(Seq<char>, Nbt)>::empty(),
    {
        let c = NBTTagCompound { tagMap: Vec::new() };
        proof {
            assert(c.tagMap@ =~= Seq::<(String, NBTBase)>::empty());
        }
        c
    }

    /// Position of the entry named `key`.
    fn find(&self, key: &str) -> (res: Option<usize>)
        ensures
            match res {
                Some(i) => i < self.view().len() && self.view()[i as int].0 == key@
                    && forall|j: int| 0 <= j < i ==> (#[trigger] self.view()[j]).0 != key@,
                None => forall|j: int| 0 <= j < self.view().len() ==> (#[trigger] self.view()[j]).0 != key@,
            },
    {
        proof {
            lemma_entries_view(self.tagMap@);
        }
        let k = String::from_str(key);
        let mut i: usize = 0;
        while i < self.tagMap.len()
            invariant
                i <= self.tagMap@.len(),
                k@ == key@,
                entries_view(self.tagMap@).len() == self.tagMap@.len(),
                forall|j: int| 0 <= j < self.tagMap@.len() ==> #[trigger] entries_view(self.tagMap@)[j] == (
                    self.tagMap@[j].0@,
                    nbt_view(&self.tagMap@[j].1),
                ),
                forall|j: int| 0 <= j < i ==> (#[trigger] self.view()[j]).0 != key@,
            decreases self.tagMap@.len() - i,
        {
            if self.tagMap[i].0 == k {
                return Some(i);
            }
            i = i + 1;
        }
        None
    }

    /// Stores `value` under `key`, replacing an entry with that name.
    pub fn setTag(&mut self, key: &str, value: NBTBase)
        requires
            old(self).wf(),
            nbt_wf(value.view()),
        ensures
            final(self).wf(),
            final(self).view() == nbt_set(old(self).view(), key@, value.view()),
    {
        let ghost m = self.view();
        proof {
            lemma_entries_view(self.tagMap@);
        }
        match self.find(key) {
            Some(i) => {
                self.tagMap.set(i, (String::from_str(key), value));
                proof {
                    lemma_entries_view(self.tagMap@);
                    assert(self.view() =~= m.update(i as int, (key@, value.view())));
                    lemma_set_existing(m, key@, value.view(), i as int);
                    assert forall|a: int, b: int| 0 <= a < b < self.view().len() implies (#[trigger] self.view()[a]).0
                        != (#[trigger] self.view()[b]).0 by {
                        assert(m[a].0 != m[b].0);
                    }
                    assert forall|a: int| 0 <= a < self.view().len() implies nbt_wf(#[trigger] self.view()[a].1) by {
                        if a != i {
                            assert(nbt_wf(m[a].1));
                        }
                    }
                }
            },
            None => {
                self.tagMap.push((String::from_str(key), value));
                proof {
                    lemma_entries_view(self.tagMap@);
                    assert(self.view() =~= m.push((key@, value.view())));
                    lemma_set_new(m, key@, value.view());
                    assert forall|a: int, b: int| 0 <= a < b < self.view().len() implies (#[trigger] self.view()[a]).0
                        != (#[trigger] self.view()[b]).0 by {
                        if b < m.len() {
                            assert(m[a].0 != m[b].0);
                        }
                    }
                    assert forall|a: int| 0 <= a < self.view().len() implies nbt_wf(#[trigger] self.view()[a].1) by {
                        if a < m.len() {
                            assert(nbt_wf(m[a].1));
                        }
                    }
                }
            },
        }
    }

    /// Stores an int tag under `key`.
    pub fn setInteger(&mut self, key: &str, value: i32)
        requires
            old(self).wf(),
        ensures
            final(self).wf(),
            final(self).view() == nbt_set(old(self).view(), key@, Nbt::Int(value)),
    {
        let v = NBTBase::Int(value);
        proof {
            reveal_with_fuel(nbt_view, 2);
        }
        self.setTag(key, v);
    }

    /// Whether an entry is named `key`.
    pub fn hasKey(&self, key: &str) -> (b: bool)
        requires
            self.wf(),
        ensures
            b == (nbt_lookup(self.view(), key@) is Some),
    {
        let r = self.find(key);
        proof {
            match r {
                Some(i) => lemma_lookup_at(self.view(), key@, i as int),
                None => lemma_lookup_absent(self.view(), key@),
            }
        }
        r.is_some()
    }

    /// Whether an entry named `key` has type `ty` (any numeric type for
    /// `TAG_ANY_NUMERIC`).
    pub fn hasKeyWithType(&self, key: &str, ty: u8) -> (b: bool)
        requires
            self.wf(),
        ensures
            b == has_key_with_type(self.view(), key@, ty),
    {
        proof {
            lemma_entries_view(self.tagMap@);
        }
        match self.find(key) {
            Some(i) => {
                proof {
                    lemma_lookup_at(self.view(), key@, i as int);
                }
                let id = self.tagMap[i].1.getId();
                if ty == TAG_ANY_NUMERIC {
                    1 <= id && id <= 6
                } else {
                    id == ty
                }
            },
            None => {
                proof {
                    lemma_lookup_absent(self.view(), key@);
                }
                false
            },
        }
    }

    /// The compound named `key`, if the entry is one.
    pub fn getCompoundTag(&self, key: &str) -> (res: Option<&NBTTagCompound>)
        requires
            self.wf(),
        ensures
            match nbt_lookup(self.view(), key@) {
                Some(Nbt::Compound(m)) => res is Some && res->Some_0.view() == m && res->Some_0.wf(),
                _ => res is None,
            },
    {
        proof {
            lemma_entries_view(self.tagMap@);
        }
        match self.find(key) {
            Some(i) => {
                proof {
                    lemma_lookup_at(self.view(), key@, i as int);
                    reveal_with_fuel(nbt_view, 2);
                }
                match &self.tagMap[i].1 {
                    NBTBase::Compound(c) => {
                        proof {
                            assert(nbt_wf(self.view()[i as int].1));
                        }
                        Some(c)
                    },
                    _ => None,
                }
            },
            None => {
                proof {
                    lemma_lookup_absent(self.view(), key@);
                }
                None
            },
        }
    }

    /// The integer read of `key`; see [`int_value`].
    pub fn getInteger(&self, key: &str) -> (v: i32)
        requires
            self.wf(),
        ensures
            v == int_value(self.view(), key@),
    {
        proof {
            lemma_entries_view(self.tagMap@);
        }
        match self.find(key) {
            Some(i) => {
                proof {
                    lemma_lookup_at(self.view(), key@, i as int);
                    reveal_with_fuel(nbt_view, 2);
                }
                match &self.tagMap[i].1 {
                    NBTBase::Byte(b) => *b as i32,
                    NBTBase::Short(s) => *s as i32,
                    NBTBase::Int(n) => *n,
                    NBTBase::Long(l) => #[verifier::truncate] (*l as i32),
                    _ => 0,
                }
            },
            None => {
                proof {
                    lemma_lookup_absent(self.view(), key@);
                }
                0
            },
        }
    }
}

/// Reading a name back after storing under it gives the stored value, and
/// every other name reads as before.
pub proof fn lemma_set_then_lookup(m: Seq<(Seq<char>, Nbt)>, key: Seq<char>, value: Nbt, other: Seq<char>)
    ensures
        nbt_lookup(nbt_set(m, key, value), key) == Some(value),
        other != key ==> nbt_lookup(nbt_set(m, key, value), other) == nbt_lookup(m, other),
    decreases m.len(),
{
    let n = nbt_set(m, key, value);
    if m.len() == 0 {
        assert(n.drop_first() =~= Seq::<(Seq<char>, Nbt)>::empty());
        assert(n[0] == (key, value));
        if other != key {
            assert(n[0].0 != other);
            assert(nbt_lookup(n, other) == nbt_lookup(n.drop_first(), other));
            assert(nbt_lookup(n.drop_first(), other) is None);
        }
    } else if m[0].0 == key {
        assert(n.drop_first() =~= m.drop_first());
        assert(n[0] == (key, value));
        if other != key {
            assert(nbt_lookup(n, other) == nbt_lookup(n.drop_first(), other));
            assert(nbt_lookup(m, other) == nbt_lookup(m.drop_first(), other));
        }
    } else {
        lemma_set_then_lookup(m.drop_first(), key, value, other);
        assert(n.drop_first() =~= nbt_set(m.drop_first(), key, value));
        assert(n[0] == m[0]);
    }
}

/// The first entry named `key` is what lookup finds.
proof fn lemma_lookup_at(m: Seq<(Seq<char>, Nbt)>, key: Seq<char>, i: int)
    requires
        0 <= i < m.len(),
        m[i].0 == key,
        forall|j: int| 0 <= j < i ==> (#[trigger] m[j]).0 != key,
    ensures
        nbt_lookup(m, key) == Some(m[i].1),
    decreases i,
{
    if i > 0 {
        lemma_lookup_at(m.drop_first(), key, i - 1);
    }
}

/// Lookup finds nothing when no entry is named `key`.
proof fn lemma_lookup_absent(m: Seq<(Seq<char>, Nbt)>, key: Seq<char>)
    requires
        forall|j: int| 0 <= j < m.len() ==> (#[trigger] m[j]).0 != key,
    ensures
        nbt_lookup(m, key) is None,
    decreases m.len(),
{
    if m.len() > 0 {
        lemma_lookup_absent(m.drop_first(), key);
    }
}

/// Storing under a present key replaces its (first) entry in place.
proof fn lemma_set_existing(m: Seq<(Seq<char>, Nbt)>, key: Seq<char>, value: Nbt, i: int)
    requires
        0 <= i < m.len(),
        m[i].0 == key,
        forall|j: int| 0 <= j < i ==> (#[trigger] m[j]).0 != key,
    ensures
        nbt_set(m, key, value) == m.update(i, (key, value)),
    decreases i,
{
    if i > 0 {
        lemma_set_existing(m.drop_first(), key, value, i - 1);
        assert(seq![m[0]] + m.drop_first().update(i - 1, (key, value)) =~= m.update(i, (key, value)));
    }
}

/// Storing under an absent key appends an entry.
proof fn lemma_set_new(m: Seq<(Seq<char>, Nbt)>, key: Seq<char>, value: Nbt)
    requires
        forall|j: int| 0 <= j < m.len() ==> (#[trigger] m[j]).0 != key,
    ensures
        nbt_set(m, key, value) == m.push((key, value)),
    decreases m.len(),
{
    if m.len() > 0 {
        lemma_set_new(m.drop_first(), key, value);
        assert(seq![m[0]] + m.drop_first().push((key, value)) =~= m.push((key, value)));
    }
}

// ---------------------------------------------------------------------------
// Reading tags from bytes.
// ---------------------------------------------------------------------------

/// Deepest nesting of lists and compounds that reading accepts.
pub const NBT_MAX_DEPTH: usize = 512;

/// `n`, but no more than `len`.
pub open spec fn clamp_len(n: int, len: nat) -> nat {
    if n <= len {
        if n < 0 { 0 } else { n as nat }
    } else {
        len
    }
}

/// Entries after storing each pair in turn (a later pair with a name
/// already stored replaces it).
pub open spec fn fold_set(raw: Seq<(Seq<char>, Nbt)>) -> Seq<(Seq<char>, Nbt)>
    decreases raw.len(),
{
    if raw.len() == 0 {
        Seq::empty()
    } else {
        nbt_set(fold_set(raw.drop_last()), raw.last().0, raw.last().1)
    }
}

/// Decoding of the payload of a tag of type `ty` at nesting `depth` at the
/// start of `s`: its value and the bytes it took. Numbers are big-endian;
/// arrays carry a signed 32-bit count; strings a two-byte length and UTF-8;
/// a list its item type and a signed count (none if not positive; a count
/// of end tags is refused); a compound named entries up to an end byte, a
/// later entry replacing an earlier one of the same name. Lists and
/// compounds deeper than 512 are refused, as is an unknown type.
pub open spec fn nbt_payload(s: Seq<u8>, ty: u8, depth: nat) -> Result<(Nbt, nat), CodecError>
    decreases s.len(), 2nat, 0nat,
{
    if ty == TAG_END {
        Ok((Nbt::End, 0))
    } else if ty == TAG_BYTE {
        if s.len() < 1 { Err(CodecError::UnexpectedEof) } else { Ok((Nbt::Byte(s[0] as i8), 1)) }
    } else if ty == TAG_SHORT {
        if s.len() < 2 { Err(CodecError::UnexpectedEof) } else { Ok((Nbt::Short(be_u16(s) as i16), 2)) }
    } else if ty == TAG_INT {
        if s.len() < 4 { Err(CodecError::UnexpectedEof) } else { Ok((Nbt::Int(be_u32(s) as i32), 4)) }
    } else if ty == TAG_LONG {
        if s.len() < 8 { Err(CodecError::UnexpectedEof) } else { Ok((Nbt::Long(be_u64(s) as i64), 8)) }
    } else if ty == TAG_FLOAT {
        if s.len() < 4 { Err(CodecError::UnexpectedEof) } else { Ok((Nbt::Float(be_u32(s)), 4)) }
    } else if ty == TAG_DOUBLE {
        if s.len() < 8 { Err(CodecError::UnexpectedEof) } else { Ok((Nbt::Double(be_u64(s)), 8)) }
    } else if ty == TAG_BYTE_ARRAY {
        if s.len() < 4 {
            Err(CodecError::UnexpectedEof)
        } else if (be_u32(s) as i32) < 0 {
            Err(CodecError::NegativeLength(be_u32(s) as i32))
        } else if 4 + (be_u32(s) as i32) > s.len() {
            Err(CodecError::UnexpectedEof)
        } else {
            Ok((Nbt::ByteArray(s.subrange(4, 4 + (be_u32(s) as i32))), (4 + (be_u32(s) as i32)) as nat))
        }
    } else if ty == TAG_STRING {
        match parse_short_string(s) {
            Ok((t, n)) => Ok((Nbt::Str(t), n)),
            Err(e) => Err(e),
        }
    } else if ty == TAG_LIST {
        if depth > NBT_MAX_DEPTH {
            Err(CodecError::InvalidNbt)
        } else if s.len() < 5 {
            Err(CodecError::UnexpectedEof)
        } else if s[0] == TAG_END && (be_u32(s.skip(1)) as i32) > 0 {
            Err(CodecError::InvalidNbt)
        } else if (be_u32(s.skip(1)) as i32) <= 0 {
            Ok((Nbt::List(s[0], Seq::empty()), 5))
        } else {
            match nbt_items(s.skip(5), s[0], (be_u32(s.skip(1)) as i32) as nat, depth + 1) {
                Ok((items, n)) => Ok((Nbt::List(s[0], items), clamp_len((5 + n) as int, s.len()))),
                Err(e) => Err(e),
            }
        }
    } else if ty == TAG_COMPOUND {
        if depth > NBT_MAX_DEPTH {
            Err(CodecError::InvalidNbt)
        } else {
            match nbt_entries(s, depth) {
                Ok((raw, n)) => Ok((Nbt::Compound(fold_set(raw)), n)),
                Err(e) => Err(e),
            }
        }
    } else if ty == TAG_INT_ARRAY {
        if s.len() < 4 {
            Err(CodecError::UnexpectedEof)
        } else if (be_u32(s) as i32) < 0 {
            Err(CodecError::NegativeLength(be_u32(s) as i32))
        } else if 4 + 4 * (be_u32(s) as i32) > s.len() {
            Err(CodecError::UnexpectedEof)
        } else {
            Ok((
                Nbt::IntArray(Seq::new((be_u32(s) as i32) as nat, |i: int| be_u32(s.skip((4 + 4 * i) as int)) as i32)),
                (4 + 4 * (be_u32(s) as i32)) as nat,
            ))
        }
    } else if ty == TAG_LONG_ARRAY {
        if s.len() < 4 {
            Err(CodecError::UnexpectedEof)
        } else if (be_u32(s) as i32) < 0 {
            Err(CodecError::NegativeLength(be_u32(s) as i32))
        } else if 4 + 8 * (be_u32(s) as i32) > s.len() {
            Err(CodecError::UnexpectedEof)
        } else {
            Ok((
                Nbt::LongArray(Seq::new((be_u32(s) as i32) as nat, |i: int| be_u64(s.skip((4 + 8 * i) as int)) as i64)),
                (4 + 8 * (be_u32(s) as i32)) as nat,
            ))
        }
    } else {
        Err(CodecError::InvalidNbt)
    }
}

/// Decoding of `count` list items of type `ty` at nesting `depth`.
pub open spec fn nbt_items(s: Seq<u8>, ty: u8, count: nat, depth: nat) -> Result<(Seq<Nbt>, nat), CodecError>
    decreases s.len(), 3nat, count,
{
    if count == 0 {
        Ok((Seq::empty(), 0))
    } else {
        match nbt_payload(s, ty, depth) {
            Err(e) => Err(e),
            Ok((v, n)) => match nbt_items(s.skip(clamp_len(n as int, s.len()) as int), ty, (count - 1) as nat, depth) {
                Err(e) => Err(e),
                Ok((rest, m)) => Ok((seq![v] + rest, clamp_len((n + m) as int, s.len()))),
            },
        }
    }
}

/// Decoding of the entries of a compound at nesting `depth`, in the order
/// they come, up to and with the end byte.
pub open spec fn nbt_entries(s: Seq<u8>, depth: nat) -> Result<(Seq<(Seq<char>, Nbt)>, nat), CodecError>
    decreases s.len(), 1nat, 0nat,
{
    if s.len() < 1 {
        Err(CodecError::UnexpectedEof)
    } else if s[0] == TAG_END {
        Ok((Seq::empty(), 1))
    } else {
        match parse_short_string(s.skip(1)) {
            Err(e) => Err(e),
            Ok((name, k)) => match nbt_payload(s.skip((1 + k) as int), s[0], depth + 1) {
                Err(e) => Err(e),
                Ok((v, n)) => match nbt_entries(s.skip(clamp_len((1 + k + n) as int, s.len()) as int), depth) {
                    Err(e) => Err(e),
                    Ok((rest, m)) => Ok((seq![(name, v)] + rest, clamp_len((1 + k + n + m) as int, s.len()))),
                },
            },
        }
    }
}

/// Decoding of an optional compound: a zero byte for none, otherwise a
/// named tag that must be a compound.
pub open spec fn nbt_root(s: Seq<u8>) -> Result<(Option<Seq<(Seq<char>, Nbt)>>, nat), CodecError> {
    if s.len() < 1 {
        Err(CodecError::UnexpectedEof)
    } else if s[0] == TAG_END {
        Ok((None, 1))
    } else {
        match parse_short_string(s.skip(1)) {
            Err(e) => Err(e),
            Ok((_, k)) => match nbt_payload(s.skip((1 + k) as int), s[0], 0) {
                Err(e) => Err(e),
                Ok((v, n)) => match v {
                    Nbt::Compound(m) => Ok((Some(m), 1 + k + n)),
                    _ => Err(CodecError::InvalidNbt),
                },
            },
        }
    }
}

/// A successful payload decoding stays within its input.
proof fn lemma_payload_bound(s: Seq<u8>, ty: u8, depth: nat)
    ensures
        nbt_payload(s, ty, depth) matches Ok((_, n)) ==> n <= s.len(),
{
    if ty == TAG_COMPOUND && depth <= NBT_MAX_DEPTH {
        lemma_entries_bound(s, depth);
    }
}

/// A successful optional-compound decoding stays within its input.
pub proof fn lemma_root_bound(s: Seq<u8>)
    ensures
        nbt_root(s) matches Ok((_, n)) ==> n <= s.len(),
{
    if s.len() >= 1 && s[0] != TAG_END {
        if let Ok((_, k)) = parse_short_string(s.skip(1)) {
            lemma_payload_bound(s.skip((1 + k) as int), s[0], 0);
        }
    }
}

/// A successful entries decoding stays within its input.
proof fn lemma_entries_bound(s: Seq<u8>, depth: nat)
    ensures
        nbt_entries(s, depth) matches Ok((_, n)) ==> n <= s.len(),
{
}

/// What a list read has decoded so far, with the rest still to come.
pub open spec fn after_items(done: Seq<Nbt>, used: nat, r: Result<(Seq<Nbt>, nat), CodecError>) -> Result<
    (Seq<Nbt>, nat),
    CodecError,
> {
    match r {
        Ok((rest, m)) => Ok((done + rest, used + m)),
        Err(e) => Err(e),
    }
}

/// What a compound read has decoded so far, with the rest still to come.
pub open spec fn after_entries(
    done: Seq<(Seq<char>, Nbt)>,
    used: nat,
    r: Result<(Seq<(Seq<char>, Nbt)>, nat), CodecError>,
) -> Result<(Seq<(Seq<char>, Nbt)>, nat), CodecError> {
    match r {
        Ok((rest, m)) => Ok((done + rest, used + m)),
        Err(e) => Err(e),
    }
}

/// Reads the payload of a tag of type `ty` at nesting `depth`; see
/// [`nbt_payload`]. Every compound it builds names each entry once.
pub fn read_nbt_payload(input: &mut PacketReader, ty: u8, depth: usize) -> (res: Result<NBTBase, CodecError>)
    requires
        old(input).wf(),
        depth <= NBT_MAX_DEPTH + 1,
    ensures
        final(input).wf(),
        final(input).source() == old(input).source(),
        match nbt_payload(old(input).rest(), ty, depth as nat) {
            Ok((v, n)) => res is Ok && res->Ok_0.view() == v && nbt_wf(v) && final(input).rest() == old(
                input,
            ).rest().skip(n as int),
            Err(e) => res == Err::<NBTBase, CodecError>(e),
        },
    decreases old(input).rest().len(),
{
    let ghost s = input.rest();
    proof {
        reveal_with_fuel(nbt_view, 2);
        lemma_payload_bound(s, ty, depth as nat);
    }
    if ty == TAG_END {
        Ok(NBTBase::End)
    } else if ty == TAG_BYTE {
        match read_u8(input) {
            Ok(b) => Ok(NBTBase::Byte(b as i8)),
            Err(e) => Err(e),
        }
    } else if ty == TAG_SHORT {
        match read_u16_be(input) {
            Ok(v) => Ok(NBTBase::Short(v as i16)),
            Err(e) => Err(e),
        }
    } else if ty == TAG_INT {
        match read_i32_be(input) {
            Ok(v) => Ok(NBTBase::Int(v)),
            Err(e) => Err(e),
        }
    } else if ty == TAG_LONG {
        match read_i64_be(input) {
            Ok(v) => Ok(NBTBase::Long(v)),
            Err(e) => Err(e),
        }
    } else if ty == TAG_FLOAT {
        match read_i32_be(input) {
            Ok(v) => {
                let bits = v as u32;
                proof {
                    let u = be_u32(s);
                    assert((u as i32) as u32 == u) by (bit_vector);
                }
                Ok(NBTBase::Float(bits))
            },
            Err(e) => Err(e),
        }
    } else if ty == TAG_DOUBLE {
        match read_i64_be(input) {
            Ok(v) => {
                let bits = v as u64;
                proof {
                    let u = be_u64(s);
                    assert((u as i64) as u64 == u) by (bit_vector);
                }
                Ok(NBTBase::Double(bits))
            },
            Err(e) => Err(e),
        }
    } else if ty == TAG_BYTE_ARRAY {
        let n = match read_i32_be(input) {
            Ok(v) => v,
            Err(e) => {
                return Err(e);
            },
        };
        if n < 0 {
            return Err(CodecError::NegativeLength(n));
        }
        match input.read_bytes(n as usize) {
            Ok(bytes) => {
                proof {
                    assert(bytes@ =~= s.subrange(4, 4 + n));
                    assert(input.rest() =~= s.skip((4 + n) as int));
                }
                Ok(NBTBase::ByteArray(bytes))
            },
            Err(e) => Err(e),
        }
    } else if ty == TAG_STRING {
        match read_short_string(input) {
            Ok(t) => Ok(NBTBase::String(t)),
            Err(e) => Err(e),
        }
    } else if ty == TAG_LIST {
        read_nbt_list(input, depth)
    } else if ty == TAG_COMPOUND {
        read_nbt_compound_payload(input, depth)
    } else if ty == TAG_INT_ARRAY {
        let n = match read_i32_be(input) {
            Ok(v) => v,
            Err(e) => {
                return Err(e);
            },
        };
        if n < 0 {
            return Err(CodecError::NegativeLength(n));
        }
        let count = n as usize;
        if input.remaining() / 4 < count {
            return Err(CodecError::UnexpectedEof);
        }
        let mut values: Vec<i32> = Vec::new();
        let mut i: usize = 0;
        while i < count
            invariant
                input.wf(),
                input.source() == old(input).source(),
                s.len() >= 4 + 4 * count,
                count == be_u32(s) as i32,
                i <= count,
                input.rest() == s.skip((4 + 4 * i) as int),
                values@ == Seq::new(i as nat, |j: int| be_u32(s.skip((4 + 4 * j) as int)) as i32),
            decreases count - i,
        {
            let v = match read_i32_be(input) {
                Ok(v) => v,
                Err(e) => {
                    return Err(e);
                },
            };
            values.push(v);
            i = i + 1;
            proof {
                assert(input.rest() =~= s.skip((4 + 4 * i) as int));
                assert(values@ =~= Seq::new(i as nat, |j: int| be_u32(s.skip((4 + 4 * j) as int)) as i32));
            }
        }
        Ok(NBTBase::IntArray(values))
    } else if ty == TAG_LONG_ARRAY {
        let n = match read_i32_be(input) {
            Ok(v) => v,
            Err(e) => {
                return Err(e);
            },
        };
        if n < 0 {
            return Err(CodecError::NegativeLength(n));
        }
        let count = n as usize;
        if input.remaining() / 8 < count {
            return Err(CodecError::UnexpectedEof);
        }
        let mut values: Vec<i64> = Vec::new();
        let mut i: usize = 0;
        while i < count
            invariant
                input.wf(),
                input.source() == old(input).source(),
                s.len() >= 4 + 8 * count,
                count == be_u32(s) as i32,
                i <= count,
                input.rest() == s.skip((4 + 8 * i) as int),
                values@ == Seq::new(i as nat, |j: int| be_u64(s.skip((4 + 8 * j) as int)) as i64),
            decreases count - i,
        {
            let v = match read_i64_be(input) {
                Ok(v) => v,
                Err(e) => {
                    return Err(e);
                },
            };
            values.push(v);
            i = i + 1;
            proof {
                assert(input.rest() =~= s.skip((4 + 8 * i) as int));
                assert(values@ =~= Seq::new(i as nat, |j: int| be_u64(s.skip((4 + 8 * j) as int)) as i64));
            }
        }
        Ok(NBTBase::LongArray(values))
    } else {
        Err(CodecError::InvalidNbt)
    }
}

/// Reads a list payload at nesting `depth`.
fn read_nbt_list(input: &mut PacketReader, depth: usize) -> (res: Result<NBTBase, CodecError>)
    requires
        old(input).wf(),
        depth <= NBT_MAX_DEPTH + 1,
    ensures
        final(input).wf(),
        final(input).source() == old(input).source(),
        match nbt_payload(old(input).rest(), TAG_LIST, depth as nat) {
            Ok((v, n)) => res is Ok && res->Ok_0.view() == v && nbt_wf(v) && final(input).rest() == old(
                input,
            ).rest().skip(n as int),
            Err(e) => res == Err::<NBTBase, CodecError>(e),
        },
    decreases old(input).rest().len(), 0nat,
{
    let ghost s = input.rest();
    proof {
        reveal_with_fuel(nbt_view, 2);
    }
    if depth > NBT_MAX_DEPTH {
        return Err(CodecError::InvalidNbt);
    }
    if input.remaining() < 5 {
        return Err(CodecError::UnexpectedEof);
    }
    let et = match read_u8(input) {
        Ok(b) => b,
        Err(e) => {
            return Err(e);
        },
    };
    let count = match read_i32_be(input) {
        Ok(v) => v,
        Err(e) => {
            return Err(e);
        },
    };
    proof {
        assert(input.rest() =~= s.skip(5));
        assert(s.skip(1) =~= old(input).rest().skip(1));
    }
    if et == TAG_END && count > 0 {
        return Err(CodecError::InvalidNbt);
    }
    if count <= 0 {
        let l = NBTTagList { tagType: et, tags: Vec::new() };
        proof {
            assert(l.tags@ =~= Seq::<NBTBase>::empty());
        }
        return Ok(NBTBase::List(l));
    }
    let total = count as usize;
    let ghost s5 = s.skip(5);
    let mut tags: Vec<NBTBase> = Vec::new();
    let mut i: usize = 0;
    let ghost mut used: nat = 0;
    proof {
        assert(s5.skip(0) =~= s5);
        assert(items_view(tags@) =~= Seq::<Nbt>::empty());
        assert(Seq::<Nbt>::empty() + nbt_items(s5, et, total as nat, (depth + 1) as nat)->Ok_0.0 =~= nbt_items(s5, et, total as nat, (depth + 1) as nat)->Ok_0.0);
    }
    while i < total
        invariant
            input.wf(),
            input.source() == old(input).source(),
            depth <= NBT_MAX_DEPTH,
            s5 == old(input).rest().skip(5),
            s == old(input).rest(),
            old(input).rest().len() >= 5,
            et == s[0],
            count == be_u32(s.skip(1)) as i32,
            count > 0,
            et != TAG_END,
            total == count as usize,
            i <= total,
            used <= s5.len(),
            input.rest() == s5.skip(used as int),
            forall|j: int| 0 <= j < i ==> nbt_wf(#[trigger] items_view(tags@)[j]),
            items_view(tags@).len() == i,
            nbt_items(s5, et, total as nat, (depth + 1) as nat) == after_items(
                items_view(tags@),
                used,
                nbt_items(s5.skip(used as int), et, (total - i) as nat, (depth + 1) as nat),
            ),
        decreases total - i,
    {
        let ghost cur = input.rest();
        let ghost d1 = (depth + 1) as nat;
        let item = match read_nbt_payload(input, et, depth + 1) {
            Ok(v) => v,
            Err(e) => {
                proof {
                    assert(nbt_items(cur, et, (total - i) as nat, d1) == Err::<(Seq<Nbt>, nat), CodecError>(e));
                }
                return Err(e);
            },
        };
        let ghost before = tags@;
        proof {
            let n = nbt_payload(cur, et, d1)->Ok_0.1;
            lemma_payload_bound(cur, et, d1);
            assert(clamp_len(n as int, cur.len()) == n);
            assert(cur.skip(n as int) =~= s5.skip((used + n) as int));
            let r2 = nbt_items(cur.skip(n as int), et, (total - i - 1) as nat, d1);
            lemma_items_bound(cur.skip(n as int), et, (total - i - 1) as nat, d1);
            assert(nbt_items(cur, et, (total - i) as nat, d1) == match r2 {
                Ok((rest, m)) => Ok((seq![item.view()] + rest, clamp_len((n + m) as int, cur.len()))),
                Err(e) => Err::<(Seq<Nbt>, nat), CodecError>(e),
            });
            lemma_items_view(before);
            match r2 {
                Ok((rest, m)) => {
                    assert(items_view(before) + (seq![item.view()] + rest) =~= items_view(before).push(item.view()) + rest);
                    assert(clamp_len((n + m) as int, cur.len()) == n + m);
                },
                Err(_) => {},
            }
            used = used + n;
        }
        tags.push(item);
        i = i + 1;
        proof {
            lemma_items_view(tags@);
            assert(tags@.drop_last() =~= before);
            assert(items_view(tags@) =~= items_view(before).push(item.view()));
        }
    }
    proof {
        lemma_items_view(tags@);
        assert(s5.skip(used as int).len() >= 0);
    }
    let l = NBTTagList { tagType: et, tags };
    proof {
        assert(input.rest() =~= s.skip((5 + used) as int));
    }
    Ok(NBTBase::List(l))
}

/// A successful items decoding stays within its input.
proof fn lemma_items_bound(s: Seq<u8>, ty: u8, count: nat, depth: nat)
    ensures
        nbt_items(s, ty, count, depth) matches Ok((_, n)) ==> n <= s.len(),
{
}

/// Reads a compound payload at nesting `depth`.
#[verifier::spinoff_prover]
#[verifier::rlimit(40)]
fn read_nbt_compound_payload(input: &mut PacketReader, depth: usize) -> (res: Result<NBTBase, CodecError>)
    requires
        old(input).wf(),
        depth <= NBT_MAX_DEPTH + 1,
    ensures
        final(input).wf(),
        final(input).source() == old(input).source(),
        match nbt_payload(old(input).rest(), TAG_COMPOUND, depth as nat) {
            Ok((v, n)) => res is Ok && res->Ok_0.view() == v && nbt_wf(v) && final(input).rest() == old(
                input,
            ).rest().skip(n as int),
            Err(e) => res == Err::<NBTBase, CodecError>(e),
        },
    decreases old(input).rest().len(), 0nat,
{
    let ghost s = input.rest();
    proof {
        reveal_with_fuel(nbt_view, 2);
    }
    if depth > NBT_MAX_DEPTH {
        return Err(CodecError::InvalidNbt);
    }
    let mut compound = NBTTagCompound::new();
    let ghost mut raw: Seq<(Seq<char>, Nbt)> = Seq::empty();
    let ghost mut used: nat = 0;
    proof {
        assert(s.skip(0) =~= s);
        match nbt_entries(s, depth as nat) {
            Ok((rest, m)) => {
                assert(Seq::<(Seq<char>, Nbt)>::empty() + rest =~= rest);
            },
            Err(_) => {},
        }
    }
    loop
        invariant
            input.wf(),
            input.source() == old(input).source(),
            s == old(input).rest(),
            depth <= NBT_MAX_DEPTH,
            used <= s.len(),
            input.rest() == s.skip(used as int),
            compound.wf(),
            compound.view() == fold_set(raw),
            nbt_entries(s, depth as nat) == after_entries(raw, used, nbt_entries(s.skip(used as int), depth as nat)),
        decreases s.len() - used,
    {
        let ghost cur = input.rest();
        let ty = match read_u8(input) {
            Ok(b) => b,
            Err(e) => {
                return Err(e);
            },
        };
        if ty == TAG_END {
            proof {
                assert(raw + Seq::<(Seq<char>, Nbt)>::empty() =~= raw);
                assert(input.rest() =~= s.skip((used + 1) as int));
            }
            return Ok(NBTBase::Compound(compound));
        }
        let name = match read_short_string(input) {
            Ok(t) => t,
            Err(e) => {
                return Err(e);
            },
        };
        let ghost k = parse_short_string(cur.skip(1))->Ok_0.1;
        proof {
            assert(input.rest() =~= cur.skip((1 + k) as int));
        }
        let value = match read_nbt_payload(input, ty, depth + 1) {
            Ok(v) => v,
            Err(e) => {
                return Err(e);
            },
        };
        proof {
            let n = nbt_payload(cur.skip((1 + k) as int), ty, (depth + 1) as nat)->Ok_0.1;
            lemma_payload_bound(cur.skip((1 + k) as int), ty, (depth + 1) as nat);
            assert(cur.skip((1 + k) as int).skip(n as int) =~= s.skip((used + 1 + k + n) as int));
            let r2 = nbt_entries(cur.skip((1 + k + n) as int), depth as nat);
            assert(cur.skip((1 + k + n) as int) =~= s.skip((used + 1 + k + n) as int));
            match r2 {
                Ok((rest, m)) => {
                    lemma_entries_bound(cur.skip((1 + k + n) as int), depth as nat);
                    assert(raw + (seq![(name@, value.view())] + rest) =~= raw.push((name@, value.view())) + rest);
                },
                Err(_) => {},
            }
            assert(raw.push((name@, value.view())).drop_last() =~= raw);
        }
        compound.setTag(name.as_str(), value);
        proof {
            raw = raw.push((name@, value.view()));
            used = used + 1 + k + nbt_payload(cur.skip((1 + k) as int), ty, (depth + 1) as nat)->Ok_0.1;
        }
    }
}

/// Reads an optional compound: none for a zero byte, otherwise a named tag
/// that must be a compound; see [`nbt_root`].
pub fn read_nbt_compound(input: &mut PacketReader) -> (res: Result<Option<NBTTagCompound>, CodecError>)
    requires
        old(input).wf(),
    ensures
        final(input).wf(),
        final(input).source() == old(input).source(),
        match nbt_root(old(input).rest()) {
            Ok((None, n)) => res == Ok::<Option<NBTTagCompound>, CodecError>(None) && final(input).rest() == old(
                input,
            ).rest().skip(n as int),
            Ok((Some(m), n)) => res is Ok && res->Ok_0 is Some && res->Ok_0->Some_0.view() == m
                && res->Ok_0->Some_0.wf() && final(input).rest() == old(input).rest().skip(n as int),
            Err(e) => res == Err::<Option<NBTTagCompound>, CodecError>(e),
        },
{
    let ghost s = input.rest();
    let ty = match read_u8(input) {
        Ok(b) => b,
        Err(e) => {
            return Err(e);
        },
    };
    if ty == TAG_END {
        return Ok(None);
    }
    match read_short_string(input) {
        Ok(_) => {},
        Err(e) => {
            return Err(e);
        },
    }
    let ghost k = parse_short_string(s.skip(1))->Ok_0.1;
    proof {
        assert(input.rest() =~= s.skip((1 + k) as int));
    }
    let value = match read_nbt_payload(input, ty, 0) {
        Ok(v) => v,
        Err(e) => {
            return Err(e);
        },
    };
    proof {
        reveal_with_fuel(nbt_view, 2);
        let n = nbt_payload(s.skip((1 + k) as int), ty, 0)->Ok_0.1;
        lemma_payload_bound(s.skip((1 + k) as int), ty, 0);
        assert(s.skip((1 + k) as int).skip(n as int) =~= s.skip((1 + k + n) as int));
    }
    match value {
        NBTBase::Compound(c) => Ok(Some(c)),
        _ => Err(CodecError::InvalidNbt),
    }
}

} // verus!
