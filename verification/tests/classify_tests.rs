use worldgen::biome::BiomeType;
use worldgen::generator::WorldGenerator;

fn biome(elevation: u32, temperature: u32, moisture: u32) -> BiomeType {
    WorldGenerator::determine_biome_fast(elevation, temperature, moisture)
}

#[test]
fn low_elevation_is_ocean_or_coast() {
    assert_eq!(biome(0, 500_000, 500_000), BiomeType::Ocean);
    assert_eq!(biome(299_999, 0, 1_000_000), BiomeType::Ocean);
    assert_eq!(biome(300_000, 500_000, 500_000), BiomeType::Coastal);
    assert_eq!(biome(349_999, 1_000_000, 0), BiomeType::Coastal);
    assert_eq!(biome(350_000, 500_000, 500_000), BiomeType::Forest);
}

#[test]
fn high_elevation_is_split_by_temperature() {
    assert_eq!(biome(800_001, 299_999, 500_000), BiomeType::Alpine);
    assert_eq!(biome(800_001, 300_000, 500_000), BiomeType::Mountain);
    assert_eq!(biome(800_001, 699_999, 500_000), BiomeType::Mountain);
    assert_eq!(biome(800_001, 700_000, 500_000), BiomeType::Volcanic);
    assert_eq!(biome(1_000_000, 1_000_000, 0), BiomeType::Volcanic);
    assert_eq!(biome(800_000, 500_000, 500_000), BiomeType::Forest);
}

#[test]
fn high_ground_precedes_cold() {
    assert_eq!(biome(850_000, 50_000, 500_000), BiomeType::Alpine);
    assert_eq!(biome(900_000, 0, 0), BiomeType::Alpine);
    assert_eq!(biome(950_000, 99_999, 1_000_000), BiomeType::Alpine);
    assert_eq!(biome(800_000, 50_000, 500_000), BiomeType::Tundra);
}

#[test]
fn cold_lowland_is_tundra() {
    assert_eq!(biome(500_000, 0, 500_000), BiomeType::Tundra);
    assert_eq!(biome(500_000, 99_999, 900_000), BiomeType::Tundra);
    assert_eq!(biome(500_000, 100_000, 100_000), BiomeType::Tundra);
    assert_eq!(biome(500_000, 300_000, 500_000), BiomeType::Tundra);
    assert_eq!(biome(500_000, 300_001, 500_000), BiomeType::Forest);
}

#[test]
fn hot_lowland_is_split_by_moisture() {
    assert_eq!(biome(500_000, 700_001, 299_999), BiomeType::Desert);
    assert_eq!(biome(500_000, 700_001, 300_000), BiomeType::Savanna);
    assert_eq!(biome(500_000, 700_001, 599_999), BiomeType::Savanna);
    assert_eq!(biome(500_000, 700_001, 600_000), BiomeType::TropicalRainforest);
    assert_eq!(biome(500_000, 1_000_000, 1_000_000), BiomeType::TropicalRainforest);
    assert_eq!(biome(500_000, 900_000, 100_000), BiomeType::Desert);
}

#[test]
fn mild_lowland_is_split_by_moisture() {
    assert_eq!(biome(500_000, 700_000, 800_001), BiomeType::Wetlands);
    assert_eq!(biome(500_000, 700_000, 800_000), BiomeType::Forest);
    assert_eq!(biome(500_000, 500_000, 400_001), BiomeType::Forest);
    assert_eq!(biome(500_000, 500_000, 400_000), BiomeType::Grasslands);
    assert_eq!(biome(500_000, 300_001, 0), BiomeType::Grasslands);
}

#[test]
fn golden_tiles_classify_as_generated() {
    assert_eq!(biome(500_000, 500_000, 500_000), BiomeType::Forest);
    assert_eq!(biome(484_780, 676_616, 786_844), BiomeType::Forest);
    assert_eq!(biome(500_000, 1_000_000, 500_000), BiomeType::Savanna);
    assert_eq!(biome(500_052, 1_000, 511_306), BiomeType::Tundra);
}

#[test]
fn classifier_is_total_and_never_gives_caves_or_badlands() {
    let mut elevation: u32 = 0;
    while elevation <= 1_000_000 {
        let mut temperature: u32 = 0;
        while temperature <= 1_000_000 {
            let mut moisture: u32 = 0;
            while moisture <= 1_000_000 {
                let found = biome(elevation, temperature, moisture);
                assert_ne!(found, BiomeType::Caves);
                assert_ne!(found, BiomeType::Badlands);
                moisture += 50_000;
            }
            temperature += 50_000;
        }
        elevation += 50_000;
    }
}

#[test]
fn classifier_accepts_values_outside_the_unit_range() {
    assert_eq!(biome(u32::MAX, u32::MAX, u32::MAX), BiomeType::Volcanic);
    assert_eq!(biome(500_000, u32::MAX, u32::MAX), BiomeType::TropicalRainforest);
}

#[test]
fn both_classifiers_agree() {
    let generator = WorldGenerator::with_seed(3);
    let mut value: u32 = 0;
    while value <= 1_000_000 {
        assert_eq!(
            generator.determine_biome(value, 1_000_000 - value, (value * 7) % 1_000_001),
            biome(value, 1_000_000 - value, (value * 7) % 1_000_001)
        );
        value += 12_345;
    }
}
