//! Biome and resource categories, the resource catalog of each biome, and the
//! four-bit biome identifiers used by the packed world view.

use vstd::prelude::*;

verus! {

#[derive(Debug, Clone, Copy, PartialEq, Eq, Hash, Structural)]
pub enum BiomeType {
    Ocean,
    Coastal,
    Desert,
    Savanna,
    Grasslands,
    Forest,
    TropicalRainforest,
    Mountain,
    Alpine,
    Tundra,
    Wetlands,
    Caves,
    Volcanic,
    Badlands,
}

#[derive(Debug, Clone, Copy, PartialEq, Eq, Hash, Structural)]
pub enum ResourceType {
    Water,
    Wood,
    Stone,
    Fish,
    Berries,
    Herbs,
    Minerals,
    Salt,
    Ice,
    Mushrooms,
    Clay,
    Sulfur,
}

/// Number of biome categories; identifiers run from 0 to one less than this.
pub const BIOME_COUNT: u8 = 14;

impl BiomeType {
    /// The resource kinds a tile of this biome may hold, in their fixed order.
    pub open spec fn catalog(self) -> Seq<ResourceType> {
        match self {
            BiomeType::Ocean => seq![ResourceType::Water, ResourceType::Fish, ResourceType::Salt],
            BiomeType::Coastal => seq![
                ResourceType::Water,
                ResourceType::Fish,
                ResourceType::Salt,
                ResourceType::Clay,
            ],
            BiomeType::Desert => seq![
                ResourceType::Stone,
                ResourceType::Minerals,
                ResourceType::Salt,
            ],
            BiomeType::Savanna => seq![ResourceType::Herbs, ResourceType::Stone],
            BiomeType::Grasslands => seq![ResourceType::Herbs, ResourceType::Berries],
            BiomeType::Forest => seq![
                ResourceType::Wood,
                ResourceType::Berries,
                ResourceType::Herbs,
            ],
            BiomeType::TropicalRainforest => seq![
                ResourceType::Wood,
                ResourceType::Berries,
                ResourceType::Water,
            ],
            BiomeType::Mountain => seq![
                ResourceType::Stone,
                ResourceType::Minerals,
                ResourceType::Water,
            ],
            BiomeType::Alpine => seq![ResourceType::Stone, ResourceType::Ice, ResourceType::Herbs],
            BiomeType::Tundra => seq![ResourceType::Ice, ResourceType::Fish],
            BiomeType::Wetlands => seq![
                ResourceType::Water,
                ResourceType::Clay,
                ResourceType::Fish,
            ],
            BiomeType::Caves => seq![
                ResourceType::Minerals,
                ResourceType::Stone,
                ResourceType::Mushrooms,
            ],
            BiomeType::Volcanic => seq![
                ResourceType::Minerals,
                ResourceType::Sulfur,
                ResourceType::Stone,
            ],
            BiomeType::Badlands => seq![ResourceType::Stone, ResourceType::Minerals],
        }
    }

    /// The identifier of this biome: its position in the enumeration.
    pub open spec fn id(self) -> u8 {
        match self {
            BiomeType::Ocean => 0,
            BiomeType::Coastal => 1,
            BiomeType::Desert => 2,
            BiomeType::Savanna => 3,
            BiomeType::Grasslands => 4,
            BiomeType::Forest => 5,
            BiomeType::TropicalRainforest => 6,
            BiomeType::Mountain => 7,
            BiomeType::Alpine => 8,
            BiomeType::Tundra => 9,
            BiomeType::Wetlands => 10,
            BiomeType::Caves => 11,
            BiomeType::Volcanic => 12,
            BiomeType::Badlands => 13,
        }
    }

    /// The biome that an identifier stands for. An identifier that no biome has
    /// stands for the first biome, `Ocean`.
    pub open spec fn of_id(id: u8) -> BiomeType {
        if id == 1 {
            BiomeType::Coastal
        } else if id == 2 {
            BiomeType::Desert
        } else if id == 3 {
            BiomeType::Savanna
        } else if id == 4 {
            BiomeType::Grasslands
        } else if id == 5 {
            BiomeType::Forest
        } else if id == 6 {
            BiomeType::TropicalRainforest
        } else if id == 7 {
            BiomeType::Mountain
        } else if id == 8 {
            BiomeType::Alpine
        } else if id == 9 {
            BiomeType::Tundra
        } else if id == 10 {
            BiomeType::Wetlands
        } else if id == 11 {
            BiomeType::Caves
        } else if id == 12 {
            BiomeType::Volcanic
        } else if id == 13 {
            BiomeType::Badlands
        } else {
            BiomeType::Ocean
        }
    }

    /// Whether terrain of this biome may border terrain of `other`.
    pub open spec fn borders(self, other: BiomeType) -> bool {
        match self {
            BiomeType::Ocean => other == BiomeType::Coastal,
            BiomeType::Coastal => other == BiomeType::Ocean || other == BiomeType::Grasslands
                || other == BiomeType::Wetlands,
            BiomeType::Desert => other == BiomeType::Savanna || other == BiomeType::Badlands,
            BiomeType::Savanna => other == BiomeType::Desert || other == BiomeType::Grasslands,
            BiomeType::Grasslands => other == BiomeType::Savanna || other == BiomeType::Forest
                || other == BiomeType::Coastal,
            BiomeType::Forest => other == BiomeType::Grasslands || other == BiomeType::Mountain
                || other == BiomeType::TropicalRainforest || other == BiomeType::Wetlands,
            BiomeType::TropicalRainforest => other == BiomeType::Forest || other
                == BiomeType::Wetlands,
            BiomeType::Mountain => other == BiomeType::Forest || other == BiomeType::Alpine
                || other == BiomeType::Volcanic,
            BiomeType::Alpine => other == BiomeType::Mountain || other == BiomeType::Tundra,
            BiomeType::Tundra => other == BiomeType::Alpine || other == BiomeType::Grasslands,
            BiomeType::Wetlands => other == BiomeType::Forest || other == BiomeType::Coastal
                || other == BiomeType::TropicalRainforest,
            BiomeType::Caves => false,
            BiomeType::Volcanic => other == BiomeType::Mountain || other == BiomeType::Badlands,
            BiomeType::Badlands => other == BiomeType::Desert || other == BiomeType::Volcanic,
        }
    }

    pub fn get_resources(&self) -> (catalog: Vec<ResourceType>)
        ensures
            catalog@ == self.catalog(),
    {
        let catalog = match self {
            BiomeType::Ocean => vec![ResourceType::Water, ResourceType::Fish, ResourceType::Salt],
            BiomeType::Coastal => vec![
                ResourceType::Water,
                ResourceType::Fish,
                ResourceType::Salt,
                ResourceType::Clay,
            ],
            BiomeType::Desert => vec![
                ResourceType::Stone,
                ResourceType::Minerals,
                ResourceType::Salt,
            ],
            BiomeType::Savanna => vec![ResourceType::Herbs, ResourceType::Stone],
            BiomeType::Grasslands => vec![ResourceType::Herbs, ResourceType::Berries],
            BiomeType::Forest => vec![
                ResourceType::Wood,
                ResourceType::Berries,
                ResourceType::Herbs,
            ],
            BiomeType::TropicalRainforest => vec![
                ResourceType::Wood,
                ResourceType::Berries,
                ResourceType::Water,
            ],
            BiomeType::Mountain => vec![
                ResourceType::Stone,
                ResourceType::Minerals,
                ResourceType::Water,
            ],
            BiomeType::Alpine => vec![ResourceType::Stone, ResourceType::Ice, ResourceType::Herbs],
            BiomeType::Tundra => vec![ResourceType::Ice, ResourceType::Fish],
            BiomeType::Wetlands => vec![
                ResourceType::Water,
                ResourceType::Clay,
                ResourceType::Fish,
            ],
            BiomeType::Caves => vec![
                ResourceType::Minerals,
                ResourceType::Stone,
                ResourceType::Mushrooms,
            ],
            BiomeType::Volcanic => vec![
                ResourceType::Minerals,
                ResourceType::Sulfur,
                ResourceType::Stone,
            ],
            BiomeType::Badlands => vec![ResourceType::Stone, ResourceType::Minerals],
        };
        assert(catalog@ =~= self.catalog());
        catalog
    }

    pub fn to_id(&self) -> (id: u8)
        ensures
            id == self.id(),
            id < BIOME_COUNT,
    {
        match self {
            BiomeType::Ocean => 0,
            BiomeType::Coastal => 1,
            BiomeType::Desert => 2,
            BiomeType::Savanna => 3,
            BiomeType::Grasslands => 4,
            BiomeType::Forest => 5,
            BiomeType::TropicalRainforest => 6,
            BiomeType::Mountain => 7,
            BiomeType::Alpine => 8,
            BiomeType::Tundra => 9,
            BiomeType::Wetlands => 10,
            BiomeType::Caves => 11,
            BiomeType::Volcanic => 12,
            BiomeType::Badlands => 13,
        }
    }

    pub fn from_id(id: u8) -> (biome: Self)
        ensures
            biome == Self::of_id(id),
            id < BIOME_COUNT ==> biome.id() == id,
            id >= BIOME_COUNT ==> biome == BiomeType::Ocean,
    {
        match id {
            0 => BiomeType::Ocean,
            1 => BiomeType::Coastal,
            2 => BiomeType::Desert,
            3 => BiomeType::Savanna,
            4 => BiomeType::Grasslands,
            5 => BiomeType::Forest,
            6 => BiomeType::TropicalRainforest,
            7 => BiomeType::Mountain,
            8 => BiomeType::Alpine,
            9 => BiomeType::Tundra,
            10 => BiomeType::Wetlands,
            11 => BiomeType::Caves,
            12 => BiomeType::Volcanic,
            13 => BiomeType::Badlands,
            _ => BiomeType::Ocean,
        }
    }

    pub fn can_transition_to(&self, other: &BiomeType) -> (allowed: bool)
        ensures
            allowed == self.borders(*other),
    {
        match (self, other) {
            (BiomeType::Ocean, BiomeType::Coastal) => true,
            (
                BiomeType::Coastal,
                BiomeType::Ocean | BiomeType::Grasslands | BiomeType::Wetlands,
            ) => true,
            (BiomeType::Desert, BiomeType::Savanna | BiomeType::Badlands) => true,
            (BiomeType::Savanna, BiomeType::Desert | BiomeType::Grasslands) => true,
            (
                BiomeType::Grasslands,
                BiomeType::Savanna | BiomeType::Forest | BiomeType::Coastal,
            ) => true,
            (
                BiomeType::Forest,
                BiomeType::Grasslands | BiomeType::Mountain | BiomeType::TropicalRainforest
                | BiomeType::Wetlands,
            ) => true,
            (BiomeType::TropicalRainforest, BiomeType::Forest | BiomeType::Wetlands) => true,
            (
                BiomeType::Mountain,
                BiomeType::Forest | BiomeType::Alpine | BiomeType::Volcanic,
            ) => true,
            (BiomeType::Alpine, BiomeType::Mountain | BiomeType::Tundra) => true,
            (BiomeType::Tundra, BiomeType::Alpine | BiomeType::Grasslands) => true,
            (
                BiomeType::Wetlands,
                BiomeType::Forest | BiomeType::Coastal | BiomeType::TropicalRainforest,
            ) => true,
            (BiomeType::Volcanic, BiomeType::Mountain | BiomeType::Badlands) => true,
            (BiomeType::Badlands, BiomeType::Desert | BiomeType::Volcanic) => true,
            _ => false,
        }
    }
}

/// Identifiers and biomes correspond one to one: reading back the identifier
/// of a biome gives that biome, and every identifier fits in four bits.
pub proof fn lemma_id_round_trip(biome: BiomeType)
    ensures
        BiomeType::of_id(biome.id()) == biome,
        biome.id() < BIOME_COUNT,
        biome.id() < 16,
{
}

/// No biome has an empty catalog, and none lists a resource twice.
pub proof fn lemma_catalog_shape(biome: BiomeType)
    ensures
        2 <= biome.catalog().len() <= 4,
        biome.catalog().no_duplicates(),
{
}

} // verus!
