use vstd::prelude::*;
use crate::block_pos::BlockPos;

verus! {

// ---------------------------------------------------------------------------
// Text.
// ---------------------------------------------------------------------------

/// The character of decimal digit `d`.
pub open spec fn digit_char(d: nat) -> char {
    (('0' as u32) + d) as char
}

/// Decimal digits of `n`, most significant first, without leading zeros.
pub open spec fn decimal_digits(n: nat) -> Seq<char>
    decreases n,
{
    if n < 10 {
        seq![digit_char(n)]
    } else {
        decimal_digits(n / 10).push(digit_char(n % 10))
    }
}

/// Decimal text of `v`, with a leading `-` when negative.
pub open spec fn decimal(v: int) -> Seq<char> {
    if v < 0 {
        seq!['-'] + decimal_digits((-v) as nat)
    } else {
        decimal_digits(v as nat)
    }
}

/// The one-character text of decimal digit `d`.
fn digit_str(d: u64) -> (s: &'static str)
    requires
        d < 10,
    ensures
        s@ == seq![digit_char(d as nat)],
{
    proof {
        assert(digit_char(0) == '0' && digit_char(1) == '1' && digit_char(2) == '2' && digit_char(3) == '3'
            && digit_char(4) == '4' && digit_char(5) == '5' && digit_char(6) == '6' && digit_char(7) == '7'
            && digit_char(8) == '8' && digit_char(9) == '9');
    }
    match d {
        0 => {
            proof { reveal_strlit("0"); }
            "0"
        },
        1 => {
            proof { reveal_strlit("1"); }
            "1"
        },
        2 => {
            proof { reveal_strlit("2"); }
            "2"
        },
        3 => {
            proof { reveal_strlit("3"); }
            "3"
        },
        4 => {
            proof { reveal_strlit("4"); }
            "4"
        },
        5 => {
            proof { reveal_strlit("5"); }
            "5"
        },
        6 => {
            proof { reveal_strlit("6"); }
            "6"
        },
        7 => {
            proof { reveal_strlit("7"); }
            "7"
        },
        8 => {
            proof { reveal_strlit("8"); }
            "8"
        },
        _ => {
            proof { reveal_strlit("9"); }
            "9"
        },
    }
}

/// The decimal digits of `v`, most significant first.
pub fn decimal_u64(v: u64) -> (s: String)
    ensures
        s@ == decimal_digits(v as nat),
    decreases v,
{
    if v < 10 {
        String::from_str(digit_str(v))
    } else {
        let mut s = decimal_u64(v / 10);
        s.append(digit_str(v % 10));
        s
    }
}

/// The decimal text of `v`, with a leading `-` when negative.
pub fn decimal_string(v: i64) -> (s: String)
    ensures
        s@ == decimal(v as int),
{
    if v < 0 {
        let a: u64 = (0i128 - (v as i128)) as u64;
        proof { reveal_strlit("-"); }
        String::from_str("-").concat(decimal_u64(a).as_str())
    } else {
        decimal_u64(v as u64)
    }
}

/// ASCII upper-case letters become lower-case; other characters stay.
pub open spec fn ascii_lower(c: char) -> char {
    if 'A' <= c && c <= 'Z' {
        ((c as u32) + 32) as char
    } else {
        c
    }
}

/// `str::to_ascii_lowercase`: a copy with each ASCII letter lower-cased and
/// every other character unchanged.
#[verifier::external_body]
pub(crate) fn to_ascii_lowercase(s: &str) -> (r: String)
    ensures
        r@ == s@.map_values(|c: char| ascii_lower(c)),
{
    s.to_ascii_lowercase()
}

/// A namespaced resource path, `namespace:path`.
#[derive(Debug, Clone, PartialEq, Eq, Hash)]
pub struct ResourceLocation {
    namespace: String,
    path: String,
}

/// The default namespace.
pub open spec fn default_namespace() -> Seq<char> {
    "minecraft"@
}

/// Position of the first `:` in `s`, if any.
pub open spec fn first_colon(s: Seq<char>) -> Option<int> {
    if exists|i: int| 0 <= i < s.len() && s[i] == ':' {
        Some(choose|i: int| 0 <= i < s.len() && s[i] == ':' && forall|j: int| 0 <= j < i ==> s[j] != ':')
    } else {
        None
    }
}

/// Namespace and path named by `s`: split at the first `:`, the part before
/// it a namespace only when longer than one character (else the default),
/// no `:` at all meaning the default namespace and the whole text.
pub open spec fn split_location(s: Seq<char>) -> (Seq<char>, Seq<char>) {
    match first_colon(s) {
        Some(i) => (if i > 1 { s.take(i) } else { default_namespace() }, s.skip(i + 1)),
        None => (default_namespace(), s),
    }
}

impl ResourceLocation {
    pub closed spec fn spec_namespace(&self) -> Seq<char> {
        self.namespace@
    }

    pub closed spec fn spec_path(&self) -> Seq<char> {
        self.path@
    }

    /// The location `namespace:path`, both lower-cased (ASCII); an empty
    /// namespace is the default one.
    pub fn new(namespace: &str, path: &str) -> (r: ResourceLocation)
        ensures
            r.spec_namespace() == if namespace@.len() == 0 {
                default_namespace()
            } else {
                namespace@.map_values(|c: char| ascii_lower(c))
            },
            r.spec_path() == path@.map_values(|c: char| ascii_lower(c)),
    {
        let ns = if namespace.unicode_len() == 0 {
            String::from_str("minecraft")
        } else {
            to_ascii_lowercase(namespace)
        };
        ResourceLocation { namespace: ns, path: to_ascii_lowercase(path) }
    }

    /// The location named by `text`; see [`split_location`].
    pub fn parse(text: &str) -> (r: ResourceLocation)
        ensures
            r.spec_namespace() == split_location(text@).0.map_values(|c: char| ascii_lower(c)),
            r.spec_path() == split_location(text@).1.map_values(|c: char| ascii_lower(c)),
    {
        let n = text.unicode_len();
        let mut i: usize = 0;
        while i < n
            invariant
                n == text@.len(),
                i <= n,
                forall|j: int| 0 <= j < i ==> text@[j] != ':',
            ensures
                i <= n,
                forall|j: int| 0 <= j < i ==> text@[j] != ':',
                i < n ==> text@[i as int] == ':',
            decreases n - i,
        {
            if text.get_char(i) == ':' {
                break;
            }
            i = i + 1;
        }
        proof {
            reveal_strlit("minecraft");
            if i < n {
                assert(first_colon(text@) == Some(i as int)) by {
                    let k = choose|k: int| 0 <= k < text@.len() && text@[k] == ':' && forall|j: int|
                        0 <= j < k ==> text@[j] != ':';
                    assert(text@[i as int] == ':');
                    if k < i {
                        assert(text@[k] != ':');
                    } else if i < k {
                        assert(text@[i as int] != ':');
                    }
                }
            }
        }
        if i < n {
            let ns = if i > 1 {
                to_ascii_lowercase(text.substring_char(0, i))
            } else {
                String::from_str("minecraft")
            };
            proof {
                assert(text@.take(i as int) =~= text@.subrange(0, i as int));
                assert(text@.skip(i + 1) =~= text@.subrange(i + 1, n as int));
                assert(default_namespace().map_values(|c: char| ascii_lower(c)) =~= default_namespace());
            }
            ResourceLocation { namespace: ns, path: to_ascii_lowercase(text.substring_char(i + 1, n)) }
        } else {
            proof {
                assert(default_namespace().map_values(|c: char| ascii_lower(c)) =~= default_namespace());
            }
            ResourceLocation { namespace: String::from_str("minecraft"), path: to_ascii_lowercase(text) }
        }
    }

    /// The namespace.
    pub fn getNamespace(&self) -> (n: &str)
        ensures
            n@ == self.spec_namespace(),
    {
        self.namespace.as_str()
    }

    /// The path.
    pub fn getPath(&self) -> (p: &str)
        ensures
            p@ == self.spec_path(),
    {
        self.path.as_str()
    }

    /// `namespace:path`.
    pub fn to_string(&self) -> (s: String)
        ensures
            s@ == self.spec_namespace() + ":"@ + self.spec_path(),
    {
        let s = self.namespace.clone();
        let s = s.concat(":");
        s.concat(self.path.as_str())
    }
}

/// Text of a chat component.
#[derive(Debug, Clone, PartialEq, Eq)]
pub struct ITextComponent {
    text: String,
}

impl ITextComponent {
    pub closed spec fn spec_text(&self) -> Seq<char> {
        self.text@
    }

    /// A component of plain text.
    pub fn fromPlainText(text: &str) -> (c: ITextComponent)
        ensures
            c.spec_text() == text@,
    {
        ITextComponent { text: String::from_str(text) }
    }

    /// The text without formatting.
    pub fn getUnformattedText(&self) -> (t: &str)
        ensures
            t@ == self.spec_text(),
    {
        self.text.as_str()
    }
}

/// A chat component of plain text.
pub fn TextComponentString(text: &str) -> (c: ITextComponent)
    ensures
        c.spec_text() == text@,
{
    ITextComponent::fromPlainText(text)
}

// ---------------------------------------------------------------------------
// Small protocol enums.
// ---------------------------------------------------------------------------

/// Where a chat message is shown.
#[derive(Debug, Clone, Copy, PartialEq, Eq, Default)]
pub enum ChatType {
    #[default]
    Chat,
    System,
    GameInfo,
}

impl ChatType {
    /// The protocol's number for the type.
    pub fn func_192583_a(self) -> (id: i8)
        ensures
            id == chat_type_id(self),
    {
        match self {
            ChatType::Chat => 0,
            ChatType::System => 1,
            ChatType::GameInfo => 2,
        }
    }

    /// The type of protocol number `value`; unknown numbers are chat.
    pub fn func_192582_a(value: i8) -> (t: ChatType)
        ensures
            t == chat_type_of(value),
    {
        match value {
            1 => ChatType::System,
            2 => ChatType::GameInfo,
            _ => ChatType::Chat,
        }
    }
}

/// The protocol's number for a chat type.
pub open spec fn chat_type_id(t: ChatType) -> i8 {
    match t {
        ChatType::Chat => 0,
        ChatType::System => 1,
        ChatType::GameInfo => 2,
    }
}

/// The chat type of a protocol number; unknown numbers are chat.
pub open spec fn chat_type_of(value: i8) -> ChatType {
    if value == 1 {
        ChatType::System
    } else if value == 2 {
        ChatType::GameInfo
    } else {
        ChatType::Chat
    }
}

/// Every chat type reads back from its protocol number.
pub proof fn lemma_chat_type_roundtrip(t: ChatType)
    ensures
        chat_type_of(chat_type_id(t)) == t,
{
}

/// Which chat messages a player wants to see.
#[derive(Debug, Clone, Copy, PartialEq, Eq)]
pub enum EnumChatVisibility {
    Full,
    System,
    Hidden,
}

/// The protocol's number for a chat setting.
pub open spec fn visibility_id(v: EnumChatVisibility) -> i32 {
    match v {
        EnumChatVisibility::Full => 0,
        EnumChatVisibility::System => 1,
        EnumChatVisibility::Hidden => 2,
    }
}

/// The chat setting of a protocol number; unknown numbers are `Full`.
pub open spec fn visibility_of(id: i32) -> EnumChatVisibility {
    if id == 1 {
        EnumChatVisibility::System
    } else if id == 2 {
        EnumChatVisibility::Hidden
    } else {
        EnumChatVisibility::Full
    }
}

/// Every chat setting reads back from its protocol number.
pub proof fn lemma_visibility_roundtrip(v: EnumChatVisibility)
    ensures
        visibility_of(visibility_id(v)) == v,
{
}

impl EnumChatVisibility {
    /// The setting of protocol number `id`; unknown numbers are `Full`.
    pub fn getChatVisibility(id: i32) -> (v: EnumChatVisibility)
        ensures
            v == visibility_of(id),
    {
        match id {
            1 => EnumChatVisibility::System,
            2 => EnumChatVisibility::Hidden,
            _ => EnumChatVisibility::Full,
        }
    }

    /// The protocol's number for the setting.
    pub fn getChatVisibilityId(self) -> (id: i32)
        ensures
            id == visibility_id(self),
    {
        match self {
            EnumChatVisibility::Full => 0,
            EnumChatVisibility::System => 1,
            EnumChatVisibility::Hidden => 2,
        }
    }
}

/// A hand of the player.
#[derive(Debug, Clone, Copy, PartialEq, Eq, Hash)]
pub enum EnumHand {
    MainHand,
    OffHand,
}

impl EnumHand {
    /// Position in declaration order.
    pub fn ordinal(self) -> (n: i32)
        ensures
            n == match self {
                EnumHand::MainHand => 0i32,
                EnumHand::OffHand => 1i32,
            },
    {
        match self {
            EnumHand::MainHand => 0,
            EnumHand::OffHand => 1,
        }
    }
}

/// The two light channels of a block.
#[derive(Debug, Clone, Copy, PartialEq, Eq, Hash)]
pub enum EnumSkyBlock {
    Sky,
    Block,
}

impl EnumSkyBlock {
    /// Both channels, sky first.
    pub fn values() -> (v: [EnumSkyBlock; 2])
        ensures
            v@ == seq![EnumSkyBlock::Sky, EnumSkyBlock::Block],
    {
        let v = [EnumSkyBlock::Sky, EnumSkyBlock::Block];
        proof {
            assert(v@ =~= seq![EnumSkyBlock::Sky, EnumSkyBlock::Block]);
        }
        v
    }

    /// Light level of the channel where nothing is known: full sky light,
    /// no block light.
    pub fn defaultLightValue(self) -> (v: u8)
        ensures
            v == match self {
                EnumSkyBlock::Sky => 15u8,
                EnumSkyBlock::Block => 0u8,
            },
    {
        match self {
            EnumSkyBlock::Sky => 15,
            EnumSkyBlock::Block => 0,
        }
    }
}

/// Names of the world generators a server may announce.
pub open spec fn known_world_type(name: Seq<char>) -> bool {
    ||| name == "flat"@
    ||| name == "largebiomes"@
    ||| name == "amplified"@
    ||| name == "customized"@
    ||| name == "debug_all_block_states"@
    ||| name == "default_1_1"@
}

/// Name that parsing a world-type text gives.
pub open spec fn world_type_name(value: Seq<char>) -> Seq<char> {
    if known_world_type(value.map_values(|c: char| ascii_lower(c))) {
        value.map_values(|c: char| ascii_lower(c))
    } else {
        "default"@
    }
}

/// Parsing the name of a parsed world type gives that name again.
pub proof fn lemma_world_type_idempotent(value: Seq<char>)
    ensures
        world_type_name(world_type_name(value)) == world_type_name(value),
{
    let l = value.map_values(|c: char| ascii_lower(c));
    assert(l.map_values(|c: char| ascii_lower(c)) =~= l);
    reveal_strlit("default");
    reveal_strlit("flat");
    reveal_strlit("largebiomes");
    reveal_strlit("amplified");
    reveal_strlit("customized");
    reveal_strlit("debug_all_block_states");
    reveal_strlit("default_1_1");
    let d = "default"@;
    assert(d.map_values(|c: char| ascii_lower(c)) =~= d);
    assert(d != "flat"@ && d != "largebiomes"@ && d != "amplified"@ && d != "customized"@);
    assert(d != "debug_all_block_states"@);
    assert(d.len() != "default_1_1"@.len());
}

/// The world generator's name.
#[derive(Debug, Clone, PartialEq, Eq)]
pub struct WorldType {
    worldType: String,
}

impl WorldType {
    pub closed spec fn name(&self) -> Seq<char> {
        self.worldType@
    }

    /// The generator named `value` (ASCII case ignored), lower-cased; an
    /// unknown name is `default`.
    pub fn parseWorldType(value: &str) -> (w: WorldType)
        ensures
            w.name() == world_type_name(value@),
    {
        let lower = to_ascii_lowercase(value);
        let known = lower == String::from_str("flat") || lower == String::from_str("largebiomes") || lower
            == String::from_str("amplified") || lower == String::from_str("customized") || lower
            == String::from_str("debug_all_block_states") || lower == String::from_str("default_1_1");
        if known {
            WorldType { worldType: lower }
        } else {
            WorldType { worldType: String::from_str("default") }
        }
    }

    /// The generator's name.
    pub fn getWorldTypeName(&self) -> (n: &str)
        ensures
            n@ == self.name(),
    {
        self.worldType.as_str()
    }
}

// ---------------------------------------------------------------------------
// Synchronised entity data.
// ---------------------------------------------------------------------------

/// A value of an entity's synchronised data.
#[derive(Debug, Clone, Copy, PartialEq, Eq)]
pub enum DataValue {
    Byte(i8),
    VarInt(i32),
    Boolean(bool),
    OptionalBlockPos(Option<BlockPos>),
}

/// An entity's synchronised data: values by index.
#[derive(Debug, Clone, PartialEq, Eq)]
pub struct EntityDataManager {
    entries: Vec<(u8, DataValue)>,
}

/// The value stored at `index`, if any (the latest entry for it).
pub open spec fn data_at(entries: Seq<(u8, DataValue)>, index: u8) -> Option<DataValue>
    decreases entries.len(),
{
    if entries.len() == 0 {
        None
    } else if entries.last().0 == index {
        Some(entries.last().1)
    } else {
        data_at(entries.drop_last(), index)
    }
}

/// Reading an index back after storing at it gives the stored value, and
/// every other index reads as before.
pub proof fn lemma_data_set_then_get(entries: Seq<(u8, DataValue)>, index: u8, value: DataValue, other: u8)
    ensures
        data_at(entries.push((index, value)), index) == Some(value),
        other != index ==> data_at(entries.push((index, value)), other) == data_at(entries, other),
{
    assert(entries.push((index, value)).drop_last() =~= entries);
}

impl EntityDataManager {
    pub closed spec fn spec_entries(&self) -> Seq<(u8, DataValue)> {
        self.entries@
    }

    /// No data.
    pub fn new() -> (m: EntityDataManager)
        ensures
            m.spec_entries() == Seq::<(u8, DataValue)>::empty(),
    {
        EntityDataManager { entries: Vec::new() }
    }

    /// Stores `value` at `index`.
    pub fn set(&mut self, index: u8, value: DataValue)
        ensures
            final(self).spec_entries() == old(self).spec_entries().push((index, value)),
    {
        self.entries.push((index, value));
    }

    /// The value at `index`.
    pub fn get(&self, index: u8) -> (v: Option<DataValue>)
        ensures
            v == data_at(self.spec_entries(), index),
    {
        let mut i: usize = self.entries.len();
        proof {
            assert(self.entries@.take(i as int) =~= self.entries@);
        }
        while i > 0
            invariant
                i <= self.entries@.len(),
                data_at(self.entries@, index) == data_at(self.entries@.take(i as int), index),
            decreases i,
        {
            let (k, v) = self.entries[i - 1];
            proof {
                assert(self.entries@.take(i as int).drop_last() =~= self.entries@.take(i - 1));
            }
            if k == index {
                return Some(v);
            }
            i = i - 1;
        }
        None
    }

    /// The block position at `index`; none when the value is absent or of
    /// another kind.
    pub fn optionalBlockPos(&self, index: u8) -> (p: Option<BlockPos>)
        ensures
            p == match data_at(self.spec_entries(), index) {
                Some(DataValue::OptionalBlockPos(o)) => o,
                _ => None::<BlockPos>,
            },
    {
        match self.get(index) {
            Some(DataValue::OptionalBlockPos(o)) => o,
            _ => None,
        }
    }

    /// The boolean at `index`; `default` when absent or of another kind.
    pub fn boolean(&self, index: u8, default: bool) -> (b: bool)
        ensures
            b == match data_at(self.spec_entries(), index) {
                Some(DataValue::Boolean(v)) => v,
                _ => default,
            },
    {
        match self.get(index) {
            Some(DataValue::Boolean(v)) => v,
            _ => default,
        }
    }
}

/// Synchronised data of an end crystal.
pub struct EntityEnderCrystal;

impl EntityEnderCrystal {
    /// Data index of the beam target.
    pub const BEAM_TARGET_DATA_INDEX: u8 = 6;
    /// Data index of the flag that shows the bedrock base.
    pub const SHOW_BOTTOM_DATA_INDEX: u8 = 7;

    /// Where the crystal's beam points, if anywhere.
    pub fn beamTarget(dataManager: &EntityDataManager) -> (p: Option<BlockPos>)
        ensures
            p == match data_at(dataManager.spec_entries(), 6) {
                Some(DataValue::OptionalBlockPos(o)) => o,
                _ => None::<BlockPos>,
            },
    {
        dataManager.optionalBlockPos(Self::BEAM_TARGET_DATA_INDEX)
    }

    /// Whether the base shows; shown unless the data says otherwise.
    pub fn shouldShowBottom(dataManager: &EntityDataManager) -> (b: bool)
        ensures
            b == match data_at(dataManager.spec_entries(), 7) {
                Some(DataValue::Boolean(v)) => v,
                _ => true,
            },
    {
        dataManager.boolean(Self::SHOW_BOTTOM_DATA_INDEX, true)
    }
}

/// A mount whose jump strength the rider charges.
pub trait IJumpingMount {
    fn setJumpPower(&mut self, jumpPowerIn: i32);

    fn canJump(&self) -> bool;
}

} // verus!
