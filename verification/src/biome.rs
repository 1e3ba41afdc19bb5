use vstd::prelude::*;

verus! {

/// How a biome colours grass and foliage.
#[derive(Debug, Clone, Copy, PartialEq, Eq, Structural)]
pub enum BiomeColorKind {
    Default,
    Swamp,
    RoofedForest,
    Mesa,
}

/// Client-side parameters of a registered biome. Temperature and rainfall
/// are held as the IEEE-754 bits of their single-precision values.
#[derive(Debug, Clone, Copy, PartialEq, Eq, Structural)]
pub struct Biome {
    id: u8,
    temperatureBits: u32,
    rainfallBits: u32,
    waterColor: i32,
    colorKind: BiomeColorKind,
}

/// Temperature bits, rainfall bits, water colour and colour kind of a biome
/// id. Mutated biomes share the parameters of the biome they derive from;
/// ocean, river, sky, void and unregistered ids take the defaults (0.5, 0.5,
/// white).
pub open spec fn biome_params(id: u8) -> (u32, u32, i32, BiomeColorKind) {
    if id == 1 || id == 16 || id == 129 {
        (0x3f4ccccd, 0x3ecccccd, 0xFFFFFF, BiomeColorKind::Default)  // 0.8, 0.4
    } else if id == 2 || id == 17 || id == 130 || id == 8 {
        (0x40000000, 0x0, 0xFFFFFF, BiomeColorKind::Default)  // 2.0, 0.0
    } else if id == 3 || id == 20 || id == 25 || id == 34 || id == 131 || id == 162 {
        (0x3e4ccccd, 0x3e99999a, 0xFFFFFF, BiomeColorKind::Default)  // 0.2, 0.3
    } else if id == 4 || id == 18 || id == 132 {
        (0x3f333333, 0x3f4ccccd, 0xFFFFFF, BiomeColorKind::Default)  // 0.7, 0.8
    } else if id == 5 || id == 19 || id == 133 || id == 160 || id == 161 {
        (0x3e800000, 0x3f4ccccd, 0xFFFFFF, BiomeColorKind::Default)  // 0.25, 0.8
    } else if id == 6 || id == 134 {
        (0x3f4ccccd, 0x3f666666, 14_745_518, BiomeColorKind::Swamp)  // 0.8, 0.9
    } else if 10 <= id <= 13 || id == 140 {
        (0x0, 0x3f000000, 0xFFFFFF, BiomeColorKind::Default)  // 0.0, 0.5
    } else if id == 14 || id == 15 {
        (0x3f666666, 0x3f800000, 0xFFFFFF, BiomeColorKind::Default)  // 0.9, 1.0
    } else if id == 21 || id == 22 || id == 149 {
        (0x3f733333, 0x3f666666, 0xFFFFFF, BiomeColorKind::Default)  // 0.95, 0.9
    } else if id == 23 || id == 151 {
        (0x3f733333, 0x3f4ccccd, 0xFFFFFF, BiomeColorKind::Default)  // 0.95, 0.8
    } else if id == 26 {
        (0x3d4ccccd, 0x3e99999a, 0xFFFFFF, BiomeColorKind::Default)  // 0.05, 0.3
    } else if id == 27 || id == 28 || id == 155 || id == 156 {
        (0x3f19999a, 0x3f19999a, 0xFFFFFF, BiomeColorKind::Default)  // 0.6, 0.6
    } else if id == 29 || id == 157 {
        (0x3f333333, 0x3f4ccccd, 0xFFFFFF, BiomeColorKind::RoofedForest)  // 0.7, 0.8
    } else if id == 30 || id == 31 || id == 158 {
        (0xbf000000, 0x3ecccccd, 0xFFFFFF, BiomeColorKind::Default)  // -0.5, 0.4
    } else if id == 32 || id == 33 {
        (0x3e99999a, 0x3f4ccccd, 0xFFFFFF, BiomeColorKind::Default)  // 0.3, 0.8
    } else if id == 35 {
        (0x3f99999a, 0x0, 0xFFFFFF, BiomeColorKind::Default)  // 1.2, 0.0
    } else if id == 36 || id == 164 {
        (0x3f800000, 0x0, 0xFFFFFF, BiomeColorKind::Default)  // 1.0, 0.0
    } else if id == 163 {
        (0x3f8ccccd, 0x0, 0xFFFFFF, BiomeColorKind::Default)  // 1.1, 0.0
    } else if 37 <= id <= 39 || 165 <= id <= 167 {
        (0x40000000, 0x0, 0xFFFFFF, BiomeColorKind::Mesa)  // 2.0, 0.0
    } else {
        (0x3f000000, 0x3f000000, 0xFFFFFF, BiomeColorKind::Default)  // 0.5, 0.5
    }
}

/// Mesa biomes (37 to 39 and their mutations 165 to 167) and no others
/// take the mesa colours, at temperature 2.0 and no rainfall; swamps (6,
/// 134) and roofed forests (29, 157) likewise have their own colour kinds;
/// only swamps have tinted water.
pub proof fn lemma_biome_colour_kinds(id: u8)
    ensures
        biome_params(id).3 == BiomeColorKind::Mesa <==> (37 <= id <= 39 || 165 <= id <= 167),
        biome_params(id).3 == BiomeColorKind::Swamp <==> (id == 6 || id == 134),
        biome_params(id).3 == BiomeColorKind::RoofedForest <==> (id == 29 || id == 157),
        (37 <= id <= 39 || 165 <= id <= 167) ==> biome_params(id).0 == 0x40000000u32 && biome_params(id).1 == 0u32,
        biome_params(id).2 != 0xFFFFFF <==> (id == 6 || id == 134),
{
}

/// The hottest biomes (temperature 2.0) are the deserts, the nether and
/// the mesas; they and the savannas are the only biomes with no rainfall.
pub proof fn lemma_biome_climates(id: u8)
    ensures
        biome_params(id).0 == 0x40000000u32 <==> (id == 2 || id == 8 || id == 17 || id == 130 || 37 <= id <= 39
            || 165 <= id <= 167),
        biome_params(id).1 == 0u32 <==> (id == 2 || id == 8 || id == 17 || id == 130 || 35 <= id <= 39
            || 163 <= id <= 167),
        (10 <= id <= 13 || id == 140) ==> biome_params(id).0 == 0u32,
        (id == 30 || id == 31 || id == 158) ==> biome_params(id).0 == 0xbf000000u32,
        biome_params(id).3 == BiomeColorKind::Default ==> biome_params(id).2 == 0xFFFFFF,
{
}

/// A mutated biome (id plus 128) keeps the parameters of the biome it
/// derives from, except the mutated mega taigas (160, 161) and mesa bryce
/// (163), which are warmer or cooler.
pub proof fn lemma_mutated_biomes(id: u8)
    ensures
        (1 <= id <= 6 || id == 12 || id == 21 || id == 23 || 27 <= id <= 30 || id == 34 || 36 <= id <= 39)
            ==> biome_params((id + 128) as u8) == biome_params(id),
{
}

/// Registry name of a biome id; unregistered ids read as the ocean.
pub open spec fn biome_name(id: u8) -> Seq<char> {
    if id == 0 { "Ocean"@ }
    else if id == 1 { "Plains"@ }
    else if id == 2 { "Desert"@ }
    else if id == 3 { "Extreme Hills"@ }
    else if id == 4 { "Forest"@ }
    else if id == 5 { "Taiga"@ }
    else if id == 6 { "Swampland"@ }
    else if id == 7 { "River"@ }
    else if id == 8 { "Hell"@ }
    else if id == 9 { "The End"@ }
    else if id == 10 { "FrozenOcean"@ }
    else if id == 11 { "FrozenRiver"@ }
    else if id == 12 { "Ice Plains"@ }
    else if id == 13 { "Ice Mountains"@ }
    else if id == 14 { "MushroomIsland"@ }
    else if id == 15 { "MushroomIslandShore"@ }
    else if id == 16 { "Beach"@ }
    else if id == 17 { "DesertHills"@ }
    else if id == 18 { "ForestHills"@ }
    else if id == 19 { "TaigaHills"@ }
    else if id == 20 { "Extreme Hills Edge"@ }
    else if id == 21 { "Jungle"@ }
    else if id == 22 { "JungleHills"@ }
    else if id == 23 { "JungleEdge"@ }
    else if id == 24 { "Deep Ocean"@ }
    else if id == 25 { "Stone Beach"@ }
    else if id == 26 { "Cold Beach"@ }
    else if id == 27 { "Birch Forest"@ }
    else if id == 28 { "Birch Forest Hills"@ }
    else if id == 29 { "Roofed Forest"@ }
    else if id == 30 { "Cold Taiga"@ }
    else if id == 31 { "Cold Taiga Hills"@ }
    else if id == 32 { "Mega Taiga"@ }
    else if id == 33 { "Mega Taiga Hills"@ }
    else if id == 34 { "Extreme Hills+"@ }
    else if id == 35 { "Savanna"@ }
    else if id == 36 { "Savanna Plateau"@ }
    else if id == 37 { "Mesa"@ }
    else if id == 38 { "Mesa Plateau F"@ }
    else if id == 39 { "Mesa Plateau"@ }
    else if id == 127 { "The Void"@ }
    else if id == 129 { "Sunflower Plains"@ }
    else if id == 130 { "Desert M"@ }
    else if id == 131 { "Extreme Hills M"@ }
    else if id == 132 { "Flower Forest"@ }
    else if id == 133 { "Taiga M"@ }
    else if id == 134 { "Swampland M"@ }
    else if id == 140 { "Ice Plains Spikes"@ }
    else if id == 149 { "Jungle M"@ }
    else if id == 151 { "JungleEdge M"@ }
    else if id == 155 { "Birch Forest M"@ }
    else if id == 156 { "Birch Forest Hills M"@ }
    else if id == 157 { "Roofed Forest M"@ }
    else if id == 158 { "Cold Taiga M"@ }
    else if id == 160 { "Mega Spruce Taiga"@ }
    else if id == 161 { "Redwood Taiga Hills M"@ }
    else if id == 162 { "Extreme Hills+ M"@ }
    else if id == 163 { "Savanna M"@ }
    else if id == 164 { "Savanna Plateau M"@ }
    else if id == 165 { "Mesa (Bryce)"@ }
    else if id == 166 { "Mesa Plateau F M"@ }
    else if id == 167 { "Mesa Plateau M"@ }
    else { "Ocean"@ }
}

/// Grass colour of a roofed forest: the colourizer's colour averaged with a
/// dark green, channel by channel.
pub open spec fn roofed_forest_grass(base: i32) -> i32 {
    (((base & 16_711_422) + 2_634_762) as i32) >> 1
}

impl Biome {
    pub closed spec fn spec_id(self) -> u8 {
        self.id
    }

    pub closed spec fn spec_params(self) -> (u32, u32, i32, BiomeColorKind) {
        (self.temperatureBits, self.rainfallBits, self.waterColor, self.colorKind)
    }

    /// The biome registered under `id`; see [`biome_params`].
    pub fn getBiome(id: u8) -> (b: Biome)
        ensures
            b.spec_id() == id,
            b.spec_params() == biome_params(id),
    {
        let (temperatureBits, rainfallBits, waterColor, colorKind): (u32, u32, i32, BiomeColorKind) = match id {
            1 | 16 | 129 => (0x3f4ccccd, 0x3ecccccd, 0xFFFFFF, BiomeColorKind::Default),
            2 | 17 | 130 | 8 => (0x40000000, 0x0, 0xFFFFFF, BiomeColorKind::Default),
            3 | 20 | 25 | 34 | 131 | 162 => (0x3e4ccccd, 0x3e99999a, 0xFFFFFF, BiomeColorKind::Default),
            4 | 18 | 132 => (0x3f333333, 0x3f4ccccd, 0xFFFFFF, BiomeColorKind::Default),
            5 | 19 | 133 | 160 | 161 => (0x3e800000, 0x3f4ccccd, 0xFFFFFF, BiomeColorKind::Default),
            6 | 134 => (0x3f4ccccd, 0x3f666666, 14_745_518, BiomeColorKind::Swamp),
            10 | 11 | 12 | 13 | 140 => (0x0, 0x3f000000, 0xFFFFFF, BiomeColorKind::Default),
            14 | 15 => (0x3f666666, 0x3f800000, 0xFFFFFF, BiomeColorKind::Default),
            21 | 22 | 149 => (0x3f733333, 0x3f666666, 0xFFFFFF, BiomeColorKind::Default),
            23 | 151 => (0x3f733333, 0x3f4ccccd, 0xFFFFFF, BiomeColorKind::Default),
            26 => (0x3d4ccccd, 0x3e99999a, 0xFFFFFF, BiomeColorKind::Default),
            27 | 28 | 155 | 156 => (0x3f19999a, 0x3f19999a, 0xFFFFFF, BiomeColorKind::Default),
            29 | 157 => (0x3f333333, 0x3f4ccccd, 0xFFFFFF, BiomeColorKind::RoofedForest),
            30 | 31 | 158 => (0xbf000000, 0x3ecccccd, 0xFFFFFF, BiomeColorKind::Default),
            32 | 33 => (0x3e99999a, 0x3f4ccccd, 0xFFFFFF, BiomeColorKind::Default),
            35 => (0x3f99999a, 0x0, 0xFFFFFF, BiomeColorKind::Default),
            36 | 164 => (0x3f800000, 0x0, 0xFFFFFF, BiomeColorKind::Default),
            163 => (0x3f8ccccd, 0x0, 0xFFFFFF, BiomeColorKind::Default),
            37 | 38 | 39 | 165 | 166 | 167 => (0x40000000, 0x0, 0xFFFFFF, BiomeColorKind::Mesa),
            _ => (0x3f000000, 0x3f000000, 0xFFFFFF, BiomeColorKind::Default),
        };
        Biome { id, temperatureBits, rainfallBits, waterColor, colorKind }
    }

    /// Registry name of the biome; see [`biome_name`].
    pub fn getBiomeName(self) -> (r: &'static str)
        ensures
            r@ == biome_name(self.spec_id()),
    {
        match self.id {
            0 => "Ocean",
            1 => "Plains",
            2 => "Desert",
            3 => "Extreme Hills",
            4 => "Forest",
            5 => "Taiga",
            6 => "Swampland",
            7 => "River",
            8 => "Hell",
            9 => "The End",
            10 => "FrozenOcean",
            11 => "FrozenRiver",
            12 => "Ice Plains",
            13 => "Ice Mountains",
            14 => "MushroomIsland",
            15 => "MushroomIslandShore",
            16 => "Beach",
            17 => "DesertHills",
            18 => "ForestHills",
            19 => "TaigaHills",
            20 => "Extreme Hills Edge",
            21 => "Jungle",
            22 => "JungleHills",
            23 => "JungleEdge",
            24 => "Deep Ocean",
            25 => "Stone Beach",
            26 => "Cold Beach",
            27 => "Birch Forest",
            28 => "Birch Forest Hills",
            29 => "Roofed Forest",
            30 => "Cold Taiga",
            31 => "Cold Taiga Hills",
            32 => "Mega Taiga",
            33 => "Mega Taiga Hills",
            34 => "Extreme Hills+",
            35 => "Savanna",
            36 => "Savanna Plateau",
            37 => "Mesa",
            38 => "Mesa Plateau F",
            39 => "Mesa Plateau",
            127 => "The Void",
            129 => "Sunflower Plains",
            130 => "Desert M",
            131 => "Extreme Hills M",
            132 => "Flower Forest",
            133 => "Taiga M",
            134 => "Swampland M",
            140 => "Ice Plains Spikes",
            149 => "Jungle M",
            151 => "JungleEdge M",
            155 => "Birch Forest M",
            156 => "Birch Forest Hills M",
            157 => "Roofed Forest M",
            158 => "Cold Taiga M",
            160 => "Mega Spruce Taiga",
            161 => "Redwood Taiga Hills M",
            162 => "Extreme Hills+ M",
            163 => "Savanna M",
            164 => "Savanna Plateau M",
            165 => "Mesa (Bryce)",
            166 => "Mesa Plateau F M",
            167 => "Mesa Plateau M",
            _ => "Ocean",
        }
    }

    pub fn getId(self) -> (r: u8)
        ensures
            r == self.spec_id(),
    {
        self.id
    }

    /// Bits of the biome's single-precision temperature, which is also its
    /// temperature at every height up to 64.
    pub fn getTemperatureBits(self) -> (r: u32)
        ensures
            r == self.spec_params().0,
    {
        self.temperatureBits
    }

    /// Bits of the biome's single-precision rainfall.
    pub fn getRainfallBits(self) -> (r: u32)
        ensures
            r == self.spec_params().1,
    {
        self.rainfallBits
    }

    pub fn getWaterColor(self) -> (r: i32)
        ensures
            r == self.spec_params().2,
    {
        self.waterColor
    }

    pub fn getColorKind(self) -> (r: BiomeColorKind)
        ensures
            r == self.spec_params().3,
    {
        self.colorKind
    }

    /// Grass colour of the biome, given the grass colourizer's colour for
    /// its temperature and rainfall, and whether the swamp noise at the
    /// position lies below -0.1: fixed for mesas and swamps, averaged with
    /// a dark green for roofed forests, the colourizer's elsewhere.
    pub fn getGrassColorAtPos(self, colorizerColor: i32, swampNoiseLow: bool) -> (r: i32)
        ensures
            r == match self.spec_params().3 {
                BiomeColorKind::Swamp => if swampNoiseLow { 5_011_004 } else { 6_975_545 },
                BiomeColorKind::Mesa => 9_470_285,
                BiomeColorKind::RoofedForest => roofed_forest_grass(colorizerColor),
                BiomeColorKind::Default => colorizerColor,
            },
    {
        match self.colorKind {
            BiomeColorKind::Swamp => if swampNoiseLow {
                5_011_004
            } else {
                6_975_545
            },
            BiomeColorKind::Mesa => 9_470_285,
            BiomeColorKind::RoofedForest => {
                let masked = colorizerColor & 16_711_422;
                assert(0 <= masked <= 16_711_422) by (bit_vector)
                    requires
                        masked == colorizerColor & 16_711_422,
                ;
                (masked + 2_634_762) >> 1
            },
            BiomeColorKind::Default => colorizerColor,
        }
    }

    /// Foliage colour of the biome, given the foliage colourizer's colour
    /// for its temperature and rainfall: fixed for swamps and mesas, the
    /// colourizer's elsewhere.
    pub fn getFoliageColorAtPos(self, colorizerColor: i32) -> (r: i32)
        ensures
            r == match self.spec_params().3 {
                BiomeColorKind::Swamp => 6_975_545,
                BiomeColorKind::Mesa => 10_387_789,
                _ => colorizerColor,
            },
    {
        match self.colorKind {
            BiomeColorKind::Swamp => 6_975_545,
            BiomeColorKind::Mesa => 10_387_789,
            _ => colorizerColor,
        }
    }
}

} // verus!
