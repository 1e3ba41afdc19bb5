use std::collections::HashMap;
use vstd::prelude::*;
use crate::nbt::{NBTTagCompound, Nbt, TAG_COMPOUND, nbt_lookup, int_value};
use crate::util::{ResourceLocation, decimal, decimal_string, ascii_lower};

verus! {

/// An equipment slot of a living entity.
#[derive(Debug, Clone, Copy, PartialEq, Eq, Structural, Hash)]
pub enum EntityEquipmentSlot {
    MainHand,
    OffHand,
    Feet,
    Legs,
    Chest,
    Head,
}

/// A stack of items: the item id, the count, the damage (metadata) value and
/// an optional tag.
#[derive(Debug)]
pub struct ItemStack {
    pub itemId: i16,
    pub count: i32,
    pub itemDamage: i16,
    pub tagCompound: Option<NBTTagCompound>,
}

impl ItemStack {
    /// Air or no items.
    pub open spec fn spec_is_empty(&self) -> bool {
        self.itemId == 0 || self.count <= 0
    }

    /// Whether the stack holds nothing: air, or a count of zero or less.
    pub fn isEmpty(&self) -> (b: bool)
        ensures
            b == self.spec_is_empty(),
    {
        self.itemId == 0 || self.count <= 0
    }
}

/// Armor materials that the client renders.
#[derive(Debug, Clone, Copy, PartialEq, Eq, Structural, Hash)]
pub enum ArmorMaterial {
    Leather,
    Chain,
    Iron,
    Gold,
    Diamond,
}

/// Texture name of a material.
pub open spec fn material_name(m: ArmorMaterial) -> Seq<char> {
    match m {
        ArmorMaterial::Leather => "leather"@,
        ArmorMaterial::Chain => "chainmail"@,
        ArmorMaterial::Iron => "iron"@,
        ArmorMaterial::Gold => "gold"@,
        ArmorMaterial::Diamond => "diamond"@,
    }
}

/// Colour of an undyed piece of a material.
pub open spec fn material_color(m: ArmorMaterial) -> i32 {
    if m == ArmorMaterial::Leather {
        0xA06540
    } else {
        0xFFFFFF
    }
}

impl ArmorMaterial {
    /// The material's texture name.
    pub fn name(self) -> (s: &'static str)
        ensures
            s@ == material_name(self),
    {
        match self {
            ArmorMaterial::Leather => "leather",
            ArmorMaterial::Chain => "chainmail",
            ArmorMaterial::Iron => "iron",
            ArmorMaterial::Gold => "gold",
            ArmorMaterial::Diamond => "diamond",
        }
    }

    /// Colour of an undyed piece: leather brown, white for the rest.
    pub fn defaultColor(self) -> (c: i32)
        ensures
            c == material_color(self),
    {
        match self {
            ArmorMaterial::Leather => 0xA06540,
            _ => 0xFFFFFF,
        }
    }
}

/// Material and slot of an armor item.
#[derive(Debug, Clone, Copy, PartialEq, Eq)]
pub struct ArmorDefinition {
    pub material: ArmorMaterial,
    pub slot: EntityEquipmentSlot,
}

/// Material and slot of item `id`: ids 298 to 317 in runs of four (leather,
/// chain, iron, diamond, gold), each run head, chest, legs, feet.
pub open spec fn armor_definition(id: i16) -> Option<ArmorDefinition> {
    if 298 <= id <= 317 {
        let run = (id - 298) / 4;
        let offset = (id - 298) % 4;
        let material = if run == 0 {
            ArmorMaterial::Leather
        } else if run == 1 {
            ArmorMaterial::Chain
        } else if run == 2 {
            ArmorMaterial::Iron
        } else if run == 3 {
            ArmorMaterial::Diamond
        } else {
            ArmorMaterial::Gold
        };
        let slot = if offset == 0 {
            EntityEquipmentSlot::Head
        } else if offset == 1 {
            EntityEquipmentSlot::Chest
        } else if offset == 2 {
            EntityEquipmentSlot::Legs
        } else {
            EntityEquipmentSlot::Feet
        };
        Some(ArmorDefinition { material, slot })
    } else {
        None
    }
}

/// The armor ids: 298 to 301 leather, 302 to 305 chainmail, 306 to 309
/// iron, 310 to 313 diamond, 314 to 317 gold; within each material helmet,
/// chestplate, leggings, boots; no other id is armor.
pub proof fn lemma_armor_ids(id: i16)
    ensures
        (id < 298 || id > 317) <==> armor_definition(id) is None,
        298 <= id <= 301 ==> (armor_definition(id) is Some && armor_definition(id)->Some_0.material == ArmorMaterial::Leather),
        302 <= id <= 305 ==> (armor_definition(id) is Some && armor_definition(id)->Some_0.material == ArmorMaterial::Chain),
        306 <= id <= 309 ==> (armor_definition(id) is Some && armor_definition(id)->Some_0.material == ArmorMaterial::Iron),
        310 <= id <= 313 ==> (armor_definition(id) is Some && armor_definition(id)->Some_0.material == ArmorMaterial::Diamond),
        314 <= id <= 317 ==> (armor_definition(id) is Some && armor_definition(id)->Some_0.material == ArmorMaterial::Gold),
        (id == 298 || id == 302 || id == 306 || id == 310 || id == 314) ==> (armor_definition(id) is Some && armor_definition(id)->Some_0.slot == EntityEquipmentSlot::Head),
        (id == 299 || id == 303 || id == 307 || id == 311 || id == 315) ==> (armor_definition(id) is Some && armor_definition(id)->Some_0.slot == EntityEquipmentSlot::Chest),
        (id == 300 || id == 304 || id == 308 || id == 312 || id == 316) ==> (armor_definition(id) is Some && armor_definition(id)->Some_0.slot == EntityEquipmentSlot::Legs),
        (id == 301 || id == 305 || id == 309 || id == 313 || id == 317) ==> (armor_definition(id) is Some && armor_definition(id)->Some_0.slot == EntityEquipmentSlot::Feet),
{
}

/// Texture names of the materials: each material has its own, and chain
/// armor is drawn from the `chainmail` textures.
pub proof fn lemma_material_names()
    ensures
        material_name(ArmorMaterial::Leather) == "leather"@,
        material_name(ArmorMaterial::Chain) == "chainmail"@,
        material_name(ArmorMaterial::Iron) == "iron"@,
        material_name(ArmorMaterial::Gold) == "gold"@,
        material_name(ArmorMaterial::Diamond) == "diamond"@,
        forall|a: ArmorMaterial, b: ArmorMaterial| a != b ==> material_name(a) != material_name(b),
{
    reveal_strlit("leather");
    reveal_strlit("chainmail");
    reveal_strlit("iron");
    reveal_strlit("gold");
    reveal_strlit("diamond");
    assert forall|a: ArmorMaterial, b: ArmorMaterial| a != b implies material_name(a) != material_name(b) by {
        assert(material_name(a).len() != material_name(b).len() || material_name(a)[0] != material_name(b)[0]);
    }
}

/// Colour of an armor stack: white for anything but leather armor; for
/// leather the low 24 bits of `display.color` when the tag holds a
/// `display` compound with a `color` entry, the leather default otherwise.
pub open spec fn armor_color(id: i16, tag: Option<Seq<(Seq<char>, Nbt)>>) -> i32 {
    match armor_definition(id) {
        None => 0xFFFFFF,
        Some(d) => if d.material != ArmorMaterial::Leather {
            0xFFFFFF
        } else {
            match tag {
                None => material_color(d.material),
                Some(m) => match nbt_lookup(m, "display"@) {
                    Some(Nbt::Compound(display)) => if nbt_lookup(display, "color"@) is Some {
                        int_value(display, "color"@) & 0xFFFFFF
                    } else {
                        material_color(d.material)
                    },
                    _ => material_color(d.material),
                },
            }
        },
    }
}

/// Texture path of an armor piece: layer 2 for leggings, layer 1 otherwise,
/// and the dye overlay of leather when asked for.
pub open spec fn armor_texture_path(d: ArmorDefinition, overlay: bool) -> Seq<char> {
    "textures/models/armor/"@ + material_name(d.material) + "_layer_"@ + (if d.slot == EntityEquipmentSlot::Legs {
        "2"@
    } else {
        "1"@
    }) + (if overlay && d.material == ArmorMaterial::Leather {
        "_overlay"@
    } else {
        ""@
    }) + ".png"@
}

/// Only leather armor is dyed: every other armor piece, and every item
/// that is not armor, is white whatever its tag; undyed leather has the
/// leather brown `0xA06540`; a dye colour keeps only its low 24 bits.
pub proof fn lemma_armor_colors(id: i16, tag: Option<Seq<(Seq<char>, Nbt)>>)
    ensures
        !(298 <= id <= 301) ==> armor_color(id, tag) == 0xFFFFFF,
        298 <= id <= 301 && tag is None ==> armor_color(id, tag) == 0xA06540,
        0 <= armor_color(id, tag) <= 0xFFFFFF,
{
    lemma_armor_ids(id);
    if let Some(m) = tag {
        if let Some(Nbt::Compound(display)) = nbt_lookup(m, "display"@) {
            let c = int_value(display, "color"@);
            assert(0 <= c & 0xFFFFFF <= 0xFFFFFF) by (bit_vector);
        }
    }
}

/// Armor textures: leggings are drawn from the second layer and every
/// other piece from the first; the dye overlay exists only for leather,
/// so asking for it changes nothing for other materials; pieces of one
/// material other than leggings share a texture.
pub proof fn lemma_armor_textures(d: ArmorDefinition, e: ArmorDefinition, overlay: bool)
    ensures
        d.material != ArmorMaterial::Leather ==> armor_texture_path(d, true) == armor_texture_path(d, false),
        d.material == ArmorMaterial::Leather ==> armor_texture_path(d, true) != armor_texture_path(d, false),
        d.material == e.material && d.slot != EntityEquipmentSlot::Legs && e.slot != EntityEquipmentSlot::Legs
            ==> armor_texture_path(d, overlay) == armor_texture_path(e, overlay),
        d.material == e.material && d.slot == EntityEquipmentSlot::Legs && e.slot != EntityEquipmentSlot::Legs
            ==> armor_texture_path(d, overlay) != armor_texture_path(e, overlay),
        armor_texture_path(d, overlay).take(22) == "textures/models/armor/"@,
{
    reveal_strlit("textures/models/armor/");
    reveal_strlit("_layer_");
    reveal_strlit("1");
    reveal_strlit("2");
    reveal_strlit("_overlay");
    reveal_strlit("");
    reveal_strlit(".png");
    let head = "textures/models/armor/"@ + material_name(d.material) + "_layer_"@;
    if d.material == ArmorMaterial::Leather {
        reveal_strlit("leather");
        let a = armor_texture_path(d, true);
        let b = armor_texture_path(d, false);
        assert(a.len() != b.len());
    }
    if d.material == e.material && d.slot == EntityEquipmentSlot::Legs && e.slot != EntityEquipmentSlot::Legs {
        let a = armor_texture_path(d, overlay);
        let b = armor_texture_path(e, overlay);
        assert(a[head.len() as int] == '2');
        assert(b[head.len() as int] == '1');
    }
    assert(armor_texture_path(d, overlay).take(22) =~= "textures/models/armor/"@);
}

/// Armor items as the renderer sees them.
pub struct ItemArmor;

impl ItemArmor {
    /// Material and slot of item `itemId`; see [`armor_definition`].
    pub fn definition(itemId: i16) -> (d: Option<ArmorDefinition>)
        ensures
            d == armor_definition(itemId),
    {
        if itemId < 298 || itemId > 317 {
            return None;
        }
        let run = (itemId - 298) / 4;
        let offset = (itemId - 298) % 4;
        let material = if run == 0 {
            ArmorMaterial::Leather
        } else if run == 1 {
            ArmorMaterial::Chain
        } else if run == 2 {
            ArmorMaterial::Iron
        } else if run == 3 {
            ArmorMaterial::Diamond
        } else {
            ArmorMaterial::Gold
        };
        let slot = if offset == 0 {
            EntityEquipmentSlot::Head
        } else if offset == 1 {
            EntityEquipmentSlot::Chest
        } else if offset == 2 {
            EntityEquipmentSlot::Legs
        } else {
            EntityEquipmentSlot::Feet
        };
        Some(ArmorDefinition { material, slot })
    }

    /// Whether the stack is armor.
    pub fn isArmor(stack: &ItemStack) -> (b: bool)
        ensures
            b == (armor_definition(stack.itemId) is Some),
    {
        Self::definition(stack.itemId).is_some()
    }

    /// Whether the stack is an elytra (item 443, not empty).
    pub fn isElytra(stack: &ItemStack) -> (b: bool)
        ensures
            b == (!stack.spec_is_empty() && stack.itemId == 443),
    {
        !stack.isEmpty() && stack.itemId == 443
    }

    /// Colour of the stack; see [`armor_color`].
    pub fn getColor(stack: &ItemStack) -> (c: i32)
        requires
            stack.tagCompound matches Some(t) ==> t.wf(),
        ensures
            c == armor_color(
                stack.itemId,
                match stack.tagCompound {
                    Some(t) => Some(t.view()),
                    None => None,
                },
            ),
    {
        let definition = match Self::definition(stack.itemId) {
            Some(d) => d,
            None => {
                return 0xFFFFFF;
            },
        };
        if definition.material != ArmorMaterial::Leather {
            return 0xFFFFFF;
        }
        let tag = match &stack.tagCompound {
            Some(t) => t,
            None => {
                return definition.material.defaultColor();
            },
        };
        if !tag.hasKeyWithType("display", TAG_COMPOUND) {
            return definition.material.defaultColor();
        }
        let display = match tag.getCompoundTag("display") {
            Some(d) => d,
            None => {
                return definition.material.defaultColor();
            },
        };
        if display.hasKey("color") {
            display.getInteger("color") & 0xFFFFFF
        } else {
            definition.material.defaultColor()
        }
    }

    /// Texture of the armor piece (or of leather's dye overlay); none for
    /// anything but armor.
    pub fn texture(stack: &ItemStack, overlay: bool) -> (r: Option<ResourceLocation>)
        ensures
            match armor_definition(stack.itemId) {
                None => r is None,
                Some(d) => r is Some && r->Some_0.spec_namespace() == "minecraft"@
                    && r->Some_0.spec_path() == armor_texture_path(d, overlay).map_values(
                    |c: char| ascii_lower(c),
                ),
            },
    {
        let definition = match Self::definition(stack.itemId) {
            Some(d) => d,
            None => {
                return None;
            },
        };
        let layer = if definition.slot == EntityEquipmentSlot::Legs {
            "2"
        } else {
            "1"
        };
        let suffix = if overlay && definition.material == ArmorMaterial::Leather {
            "_overlay"
        } else {
            ""
        };
        let path = String::from_str("textures/models/armor/");
        let path = path.concat(definition.material.name());
        let path = path.concat("_layer_");
        let path = path.concat(layer);
        let path = path.concat(suffix);
        let path = path.concat(".png");
        let r = ResourceLocation::new("minecraft", path.as_str());
        proof {
            reveal_strlit("minecraft");
            assert("minecraft"@.map_values(|c: char| ascii_lower(c)) =~= "minecraft"@);
        }
        Some(r)
    }
}

/// Item id of a filled map.
pub const FILLED_MAP_ITEM_ID: i16 = 358;

/// A map's image and markers.
#[derive(Debug, Clone, PartialEq, Eq)]
pub struct MapData {
    pub mapName: String,
    pub scale: i8,
    pub trackingPosition: bool,
    pub colors: Vec<u8>,
    pub mapDecorations: Vec<MapDecoration>,
    pub revision: u64,
}

/// A marker drawn on a map.
#[derive(Debug, Clone, Copy, PartialEq, Eq)]
pub struct MapDecoration {
    pub decorationType: i8,
    pub x: i8,
    pub y: i8,
    pub rotation: i8,
}

/// Width of a map image.
pub const MAP_WIDTH: usize = 128;
/// Height of a map image.
pub const MAP_HEIGHT: usize = 128;
/// Number of pixels of a map image.
pub const MAP_PIXEL_COUNT: usize = 16384;

impl MapData {
    /// A blank map named after its id: scale 0, no tracking, all colours 0,
    /// no markers, revision 0.
    pub fn new(mapId: i32) -> (d: MapData)
        ensures
            d.mapName@ == "map_"@ + decimal(mapId as int),
            d.scale == 0,
            !d.trackingPosition,
            d.colors@ == Seq::new(MAP_PIXEL_COUNT as nat, |i: int| 0u8),
            d.mapDecorations@.len() == 0,
            d.revision == 0,
    {
        let name = String::from_str("map_").concat(decimal_string(mapId as i64).as_str());
        let colors = vec![0u8; MAP_PIXEL_COUNT];
        proof {
            assert(colors@ =~= Seq::new(MAP_PIXEL_COUNT as nat, |i: int| 0u8));
        }
        MapData {
            mapName: name,
            scale: 0,
            trackingPosition: false,
            colors,
            mapDecorations: Vec::new(),
            revision: 0,
        }
    }
}

/// Maps as items.
pub struct ItemMap;

impl ItemMap {
    /// Whether the stack is a filled map (item 358, not empty).
    pub fn isFilledMap(stack: &ItemStack) -> (b: bool)
        ensures
            b == (!stack.spec_is_empty() && stack.itemId == FILLED_MAP_ITEM_ID),
    {
        !stack.isEmpty() && stack.itemId == FILLED_MAP_ITEM_ID
    }

    /// The map id, which is the stack's damage value.
    pub fn getMapId(stack: &ItemStack) -> (id: i32)
        ensures
            id == stack.itemDamage as i32,
    {
        stack.itemDamage as i32
    }

    /// `map_<id>`.
    pub fn getMapName(stack: &ItemStack) -> (s: String)
        ensures
            s@ == "map_"@ + decimal(stack.itemDamage as int),
    {
        String::from_str("map_").concat(decimal_string(Self::getMapId(stack) as i64).as_str())
    }

    /// The data of the stack's map among those the server has sent; none
    /// for anything but a filled map, or when the map is unknown.
    pub fn getMapData<'a>(stack: &ItemStack, mapData: &'a HashMap<i32, MapData>) -> (r: Option<&'a MapData>)
        ensures
            !(!stack.spec_is_empty() && stack.itemId == FILLED_MAP_ITEM_ID) ==> r is None,
            (!stack.spec_is_empty() && stack.itemId == FILLED_MAP_ITEM_ID) ==> match r {
                Some(d) => mapData@.contains_key(stack.itemDamage as i32) && *d == mapData@[stack.itemDamage as i32],
                None => !mapData@.contains_key(stack.itemDamage as i32),
            },
    {
        broadcast use vstd::std_specs::hash::group_hash_axioms;
        if !Self::isFilledMap(stack) {
            return None;
        }
        let id = Self::getMapId(stack);
        mapData.get(&id)
    }
}

} // verus!
