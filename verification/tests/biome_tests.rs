use mc_client::biome::{Biome, BiomeColorKind};

#[test]
fn registered_biome_parameters_match_source_values() {
    let plains = Biome::getBiome(1);
    assert_eq!(f32::from_bits(plains.getRainfallBits()), 0.4);
    let swamp = Biome::getBiome(6);
    assert_eq!(swamp.getWaterColor(), 14_745_518);
    // at the origin (y = 0) the float temperature is the registered one
    assert_eq!(f32::from_bits(Biome::getBiome(35).getTemperatureBits()), 1.2);
}

#[test]
fn mutated_biomes_share_their_parents_parameters() {
    assert_eq!(Biome::getBiome(134).getColorKind(), BiomeColorKind::Swamp);
    assert_eq!(Biome::getBiome(157).getColorKind(), BiomeColorKind::RoofedForest);
    assert_eq!(Biome::getBiome(166).getColorKind(), BiomeColorKind::Mesa);
    assert_eq!(f32::from_bits(Biome::getBiome(158).getTemperatureBits()), -0.5);
    let ocean = Biome::getBiome(0);
    assert_eq!(f32::from_bits(ocean.getTemperatureBits()), 0.5);
    assert_eq!(f32::from_bits(ocean.getRainfallBits()), 0.5);
    assert_eq!(ocean.getWaterColor(), 0xFFFFFF);
}

#[test]
fn biome_names_follow_the_registry() {
    assert_eq!(Biome::getBiome(0).getBiomeName(), "Ocean");
    assert_eq!(Biome::getBiome(29).getBiomeName(), "Roofed Forest");
    assert_eq!(Biome::getBiome(165).getBiomeName(), "Mesa (Bryce)");
    assert_eq!(Biome::getBiome(200).getBiomeName(), "Ocean");
    assert_eq!(Biome::getBiome(200).getId(), 200);
}

#[test]
fn grass_and_foliage_overrides() {
    let swamp = Biome::getBiome(6);
    assert_eq!(swamp.getGrassColorAtPos(123, true), 5_011_004);
    assert_eq!(swamp.getGrassColorAtPos(123, false), 6_975_545);
    assert_eq!(swamp.getFoliageColorAtPos(123), 6_975_545);
    let mesa = Biome::getBiome(37);
    assert_eq!(mesa.getGrassColorAtPos(123, false), 9_470_285);
    assert_eq!(mesa.getFoliageColorAtPos(123), 10_387_789);
    let roofed = Biome::getBiome(29);
    assert_eq!(roofed.getGrassColorAtPos(0x00FF_FFFF, false), ((0x00FF_FFFF & 16_711_422) + 2_634_762) >> 1);
    assert_eq!(roofed.getFoliageColorAtPos(4_764_952), 4_764_952);
    assert_eq!(Biome::getBiome(1).getGrassColorAtPos(9_551_193, false), 9_551_193);
}
