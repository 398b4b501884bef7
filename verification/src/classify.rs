//! The biome of a tile, decided from its elevation, temperature and moisture
//! by a fixed list of rules of which the first that applies wins.

use crate::biome::BiomeType;
use crate::generator::WorldGenerator;
use vstd::prelude::*;

verus! {

/// The biome that the rules give. They are tried in this order:
/// low elevation is water or coast; high elevation is split by temperature
/// alone; then extreme cold; then temperature and moisture together. The
/// elevations above 0.8 never reach the cold rule, whatever the temperature.
pub open spec fn classify(elevation: u32, temperature: u32, moisture: u32) -> BiomeType {
    if elevation < 300_000 {
        BiomeType::Ocean
    } else if elevation < 350_000 {
        BiomeType::Coastal
    } else if elevation > 800_000 {
        if temperature < 300_000 {
            BiomeType::Alpine
        } else if temperature < 700_000 {
            BiomeType::Mountain
        } else {
            BiomeType::Volcanic
        }
    } else if elevation > 900_000 || temperature < 100_000 {
        BiomeType::Tundra
    } else if temperature > 700_000 && moisture < 300_000 {
        BiomeType::Desert
    } else if temperature > 700_000 && moisture < 600_000 {
        BiomeType::Savanna
    } else if temperature > 700_000 && moisture >= 600_000 {
        BiomeType::TropicalRainforest
    } else if 300_000 < temperature <= 700_000 && moisture > 800_000 {
        BiomeType::Wetlands
    } else if 300_000 < temperature <= 700_000 && moisture > 400_000 {
        BiomeType::Forest
    } else if 300_000 < temperature <= 700_000 && moisture <= 400_000 {
        BiomeType::Grasslands
    } else if temperature <= 300_000 {
        BiomeType::Tundra
    } else if temperature > 800_000 && moisture < 200_000 {
        BiomeType::Badlands
    } else {
        BiomeType::Grasslands
    }
}

/// The part of the space of (elevation, temperature, moisture) that belongs to
/// a biome, written without regard to any order of rules.
pub open spec fn in_region(
    biome: BiomeType,
    elevation: u32,
    temperature: u32,
    moisture: u32,
) -> bool {
    let lowland = 350_000 <= elevation <= 800_000;
    let hot = temperature > 700_000;
    let mild = 300_000 < temperature <= 700_000;
    match biome {
        BiomeType::Ocean => elevation < 300_000,
        BiomeType::Coastal => 300_000 <= elevation < 350_000,
        BiomeType::Alpine => elevation > 800_000 && temperature < 300_000,
        BiomeType::Mountain => elevation > 800_000 && 300_000 <= temperature < 700_000,
        BiomeType::Volcanic => elevation > 800_000 && temperature >= 700_000,
        BiomeType::Tundra => lowland && temperature <= 300_000,
        BiomeType::Desert => lowland && hot && moisture < 300_000,
        BiomeType::Savanna => lowland && hot && 300_000 <= moisture < 600_000,
        BiomeType::TropicalRainforest => lowland && hot && moisture >= 600_000,
        BiomeType::Wetlands => lowland && mild && moisture > 800_000,
        BiomeType::Forest => lowland && mild && 400_000 < moisture <= 800_000,
        BiomeType::Grasslands => lowland && mild && moisture <= 400_000,
        BiomeType::Caves => false,
        BiomeType::Badlands => false,
    }
}

impl WorldGenerator {
    pub fn determine_biome_fast(elevation: u32, temperature: u32, moisture: u32) -> (biome:
        BiomeType)
        ensures
            biome == classify(elevation, temperature, moisture),
    {
        if elevation < 300_000 {
            return BiomeType::Ocean;
        }
        if elevation < 350_000 {
            return BiomeType::Coastal;
        }
        if elevation > 800_000 {
            if temperature < 300_000 {
                return BiomeType::Alpine;
            } else if temperature < 700_000 {
                return BiomeType::Mountain;
            } else {
                return BiomeType::Volcanic;
            }
        }
        if elevation > 900_000 || temperature < 100_000 {
            return BiomeType::Tundra;
        }
        if temperature > 700_000 && moisture < 300_000 {
            BiomeType::Desert
        } else if temperature > 700_000 && moisture < 600_000 {
            BiomeType::Savanna
        } else if temperature > 700_000 && moisture >= 600_000 {
            BiomeType::TropicalRainforest
        } else if temperature > 300_000 && temperature <= 700_000 && moisture > 800_000 {
            BiomeType::Wetlands
        } else if temperature > 300_000 && temperature <= 700_000 && moisture > 400_000 {
            BiomeType::Forest
        } else if temperature > 300_000 && temperature <= 700_000 && moisture <= 400_000 {
            BiomeType::Grasslands
        } else if temperature <= 300_000 {
            BiomeType::Tundra
        } else if temperature > 800_000 && moisture < 200_000 {
            BiomeType::Badlands
        } else {
            BiomeType::Grasslands
        }
    }

    pub fn determine_biome(&self, elevation: u32, temperature: u32, moisture: u32) -> (biome:
        BiomeType)
        ensures
            biome == classify(elevation, temperature, moisture),
    {
        Self::determine_biome_fast(elevation, temperature, moisture)
    }
}

/// The rules leave no triple undecided and decide none twice: every triple
/// lies in the region of exactly one biome, the one that `classify` gives.
/// No triple is classified as `Caves` or `Badlands`.
pub proof fn lemma_classifier_total(elevation: u32, temperature: u32, moisture: u32)
    ensures
        in_region(classify(elevation, temperature, moisture), elevation, temperature, moisture),
        forall|biome: BiomeType|
            in_region(biome, elevation, temperature, moisture) ==> biome == classify(
                elevation,
                temperature,
                moisture,
            ),
        classify(elevation, temperature, moisture) != BiomeType::Caves,
        classify(elevation, temperature, moisture) != BiomeType::Badlands,
{
}

/// High ground takes precedence over cold: above an elevation of 0.8 the
/// biome is `Alpine`, `Mountain` or `Volcanic`, also where the temperature is
/// below 0.1.
pub proof fn lemma_high_ground_precedes_cold(elevation: u32, temperature: u32, moisture: u32)
    requires
        elevation > 800_000,
    ensures
        classify(elevation, temperature, moisture) != BiomeType::Tundra,
        temperature < 300_000 ==> classify(elevation, temperature, moisture) == BiomeType::Alpine,
{
}

} // verus!
