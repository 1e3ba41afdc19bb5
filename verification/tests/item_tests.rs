use std::collections::HashMap;

use mc_client::items::{ArmorMaterial, EntityEquipmentSlot, ItemArmor, ItemMap, ItemStack, MapData};
use mc_client::nbt::{NBTBase, NBTTagCompound, TAG_ANY_NUMERIC, TAG_COMPOUND, TAG_INT};

#[test]
fn vanilla_ids_map_to_material_and_slot() {
    assert_eq!(ItemArmor::definition(298).unwrap().slot, EntityEquipmentSlot::Head);
    assert_eq!(ItemArmor::definition(300).unwrap().slot, EntityEquipmentSlot::Legs);
    assert_eq!(ItemArmor::definition(313).unwrap().material, ArmorMaterial::Diamond);
    assert_eq!(ItemArmor::definition(317).unwrap().slot, EntityEquipmentSlot::Feet);
    assert!(ItemArmor::definition(443).is_none());
}

#[test]
fn leather_color_uses_display_color_and_vanilla_default() {
    let plain = ItemStack { itemId: 299, count: 1, itemDamage: 0, tagCompound: None };
    assert_eq!(ItemArmor::getColor(&plain), 0xA06540);

    let mut display = NBTTagCompound::new();
    display.setInteger("color", 0x123456);
    let mut root = NBTTagCompound::new();
    root.setTag("display", NBTBase::Compound(display));
    let dyed = ItemStack { tagCompound: Some(root), ..plain };
    assert_eq!(ItemArmor::getColor(&dyed), 0x123456);
}

#[test]
fn leggings_use_layer_two_and_leather_has_overlay() {
    let leggings = ItemStack { itemId: 300, count: 1, itemDamage: 0, tagCompound: None };
    assert_eq!(
        ItemArmor::texture(&leggings, false).unwrap().getPath(),
        "textures/models/armor/leather_layer_2.png",
    );
    assert_eq!(
        ItemArmor::texture(&leggings, true).unwrap().getPath(),
        "textures/models/armor/leather_layer_2_overlay.png",
    );
}

#[test]
fn map_name_and_id_use_item_metadata() {
    let stack = ItemStack { itemId: 358, count: 1, itemDamage: 42, tagCompound: None };
    assert_eq!(ItemMap::getMapId(&stack), 42);
    assert_eq!(ItemMap::getMapName(&stack), "map_42");
}

#[test]
fn iron_armor_and_elytra() {
    let helmet = ItemStack { itemId: 306, count: 1, itemDamage: 0, tagCompound: None };
    assert!(ItemArmor::isArmor(&helmet));
    assert_eq!(ItemArmor::getColor(&helmet), 0xFFFFFF);
    assert_eq!(ItemArmor::texture(&helmet, true).unwrap().getPath(), "textures/models/armor/iron_layer_1.png");
    assert_eq!(ItemArmor::texture(&helmet, true).unwrap().getNamespace(), "minecraft");
    let gold = ItemArmor::definition(314).unwrap();
    assert_eq!(gold.material, ArmorMaterial::Gold);
    assert_eq!(gold.material.name(), "gold");
    assert_eq!(ArmorMaterial::Chain.name(), "chainmail");
    let elytra = ItemStack { itemId: 443, count: 1, itemDamage: 0, tagCompound: None };
    assert!(ItemArmor::isElytra(&elytra));
    assert!(!ItemArmor::isArmor(&elytra));
    let empty = ItemStack { itemId: 443, count: 0, itemDamage: 0, tagCompound: None };
    assert!(!ItemArmor::isElytra(&empty));
    assert!(ItemArmor::texture(&elytra, false).is_none());
}

#[test]
fn display_color_keeps_low_bits_and_non_compound_display_is_ignored() {
    let mut display = NBTTagCompound::new();
    display.setInteger("color", -1);
    let mut root = NBTTagCompound::new();
    root.setTag("display", NBTBase::Compound(display));
    let dyed = ItemStack { itemId: 301, count: 1, itemDamage: 0, tagCompound: Some(root) };
    assert_eq!(ItemArmor::getColor(&dyed), 0xFFFFFF);

    let mut root = NBTTagCompound::new();
    root.setInteger("display", 5);
    let odd = ItemStack { itemId: 301, count: 1, itemDamage: 0, tagCompound: Some(root) };
    assert_eq!(ItemArmor::getColor(&odd), 0xA06540);
}

#[test]
fn compound_set_replaces_and_reads_back() {
    let mut tag = NBTTagCompound::new();
    tag.setInteger("a", 1);
    tag.setTag("b", NBTBase::Short(-2));
    tag.setInteger("a", 3);
    assert_eq!(tag.getInteger("a"), 3);
    assert_eq!(tag.getInteger("b"), -2);
    assert_eq!(tag.getInteger("missing"), 0);
    assert!(tag.hasKey("b"));
    assert!(tag.hasKeyWithType("a", TAG_INT));
    assert!(tag.hasKeyWithType("b", TAG_ANY_NUMERIC));
    assert!(!tag.hasKeyWithType("a", TAG_COMPOUND));
    assert!(tag.getCompoundTag("a").is_none());
    tag.setTag("s", NBTBase::String("text".to_string()));
    assert_eq!(tag.getInteger("s"), 0);
    tag.setTag("l", NBTBase::Long(0x1_0000_0007));
    assert_eq!(tag.getInteger("l"), 7);
}

#[test]
fn map_data_lookup_needs_a_filled_map() {
    let mut maps = HashMap::new();
    maps.insert(42, MapData::new(42));
    let stack = ItemStack { itemId: 358, count: 1, itemDamage: 42, tagCompound: None };
    assert_eq!(ItemMap::getMapData(&stack, &maps).unwrap().mapName, "map_42");
    let other = ItemStack { itemId: 358, count: 1, itemDamage: 7, tagCompound: None };
    assert!(ItemMap::getMapData(&other, &maps).is_none());
    let paper = ItemStack { itemId: 339, count: 1, itemDamage: 42, tagCompound: None };
    assert!(!ItemMap::isFilledMap(&paper));
    assert!(ItemMap::getMapData(&paper, &maps).is_none());
    let data = MapData::new(-5);
    assert_eq!(data.mapName, "map_-5");
    assert_eq!(data.colors.len(), 16384);
    assert_eq!(data.scale, 0);
}
