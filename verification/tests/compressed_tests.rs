use worldgen::biome::BiomeType;
use worldgen::compressed::{CompressedWorldData, SAMPLE_RESOLUTION};
use worldgen::generator::WorldGenerator;
use worldgen::world::{Tile, WorldMap};

const ALL_BIOMES: [BiomeType; 14] = [
    BiomeType::Ocean,
    BiomeType::Coastal,
    BiomeType::Desert,
    BiomeType::Savanna,
    BiomeType::Grasslands,
    BiomeType::Forest,
    BiomeType::TropicalRainforest,
    BiomeType::Mountain,
    BiomeType::Alpine,
    BiomeType::Tundra,
    BiomeType::Wetlands,
    BiomeType::Caves,
    BiomeType::Volcanic,
    BiomeType::Badlands,
];

fn patchwork(size: usize) -> WorldMap {
    let mut tiles = Vec::new();
    for x in 0..size {
        let mut column = Vec::new();
        for y in 0..size {
            let biome = ALL_BIOMES[(x * 31 + y * 17 + x * y) % 14];
            column.push(Tile {
                biome,
                elevation: (x * 1000 + y) as u32,
                temperature: (y * 1000 + x) as u32,
                moisture: (x * y) as u32,
                resources: biome.get_resources(),
            });
        }
        tiles.push(column);
    }
    WorldMap { tiles, seed: 1 }
}

#[test]
fn biome_round_trip_in_an_even_world() {
    let world = patchwork(20);
    let compressed = CompressedWorldData::from_world_map(&world);
    for x in 0..20 {
        for y in 0..20 {
            assert_eq!(compressed.get_biome(x, y), world.tiles[x][y].biome);
        }
    }
}

#[test]
fn biome_round_trip_in_an_odd_world() {
    let world = patchwork(13);
    let compressed = CompressedWorldData::from_world_map(&world);
    assert_eq!(compressed.biomes.len(), 85);
    for x in 0..13 {
        for y in 0..13 {
            assert_eq!(compressed.get_biome(x, y), world.tiles[x][y].biome);
        }
    }
}

#[test]
fn biome_round_trip_in_a_generated_world() {
    let generator = WorldGenerator::layout(11, 40, 16, 2).unwrap();
    let readings: Vec<Vec<i32>> = (0..generator.block_count())
        .map(|block| {
            (0..generator.block_reading_count(block))
                .map(|i| ((i as i64 * 7919 + block as i64 * 104_729) % 2_000_001 - 1_000_000) as i32)
                .collect()
        })
        .collect();
    let world = generator.generate_world(&readings).unwrap();
    let compressed = CompressedWorldData::from_world_map(&world);
    let mut seen = std::collections::HashSet::new();
    for x in 0..40 {
        for y in 0..40 {
            assert_eq!(compressed.get_biome(x, y), world.tiles[x][y].biome);
            seen.insert(world.tiles[x][y].biome);
        }
    }
    assert!(seen.len() >= 5);
}

#[test]
fn bytes_hold_two_tiles_each() {
    let world = patchwork(3);
    let compressed = CompressedWorldData::from_world_map(&world);
    let ids: Vec<u8> = (0..9).map(|k| world.tiles[k / 3][k % 3].biome.to_id()).collect();
    assert_eq!(
        compressed.biomes,
        vec![
            ids[0] | (ids[1] << 4),
            ids[2] | (ids[3] << 4),
            ids[4] | (ids[5] << 4),
            ids[6] | (ids[7] << 4),
            ids[8],
        ]
    );
    assert_eq!(compressed.world_size, 3);
}

#[test]
fn packed_size_is_half_the_tiles() {
    assert_eq!(CompressedWorldData::from_world_map(&patchwork(1)).biomes.len(), 1);
    assert_eq!(CompressedWorldData::from_world_map(&patchwork(2)).biomes.len(), 2);
    assert_eq!(CompressedWorldData::from_world_map(&patchwork(20)).biomes.len(), 200);
}

#[test]
fn unknown_packed_identifier_reads_as_ocean() {
    let spoiled = CompressedWorldData {
        world_size: 2,
        biomes: vec![0xFE, 0x5F],
        elevation_samples: vec![0],
        temperature_samples: vec![0],
        moisture_samples: vec![0],
        sample_resolution: 8,
    };
    assert_eq!(spoiled.get_biome(0, 0), BiomeType::Ocean);
    assert_eq!(spoiled.get_biome(0, 1), BiomeType::Ocean);
    assert_eq!(spoiled.get_biome(1, 0), BiomeType::Ocean);
    assert_eq!(spoiled.get_biome(1, 1), BiomeType::Forest);
}

#[test]
fn samples_are_taken_every_eighth_tile() {
    let world = patchwork(20);
    let compressed = CompressedWorldData::from_world_map(&world);
    assert_eq!(SAMPLE_RESOLUTION, 8);
    assert_eq!(compressed.sample_resolution, 8);
    assert_eq!(
        compressed.elevation_samples,
        vec![0, 8, 16, 8000, 8008, 8016, 16000, 16008, 16016]
    );
    assert_eq!(
        compressed.temperature_samples,
        vec![0, 8000, 16000, 8, 8008, 16008, 16, 8016, 16016]
    );
    assert_eq!(compressed.moisture_samples, vec![0, 0, 0, 0, 64, 128, 0, 128, 256]);
}

#[test]
fn field_lookup_takes_the_nearest_sample() {
    let world = patchwork(20);
    let compressed = CompressedWorldData::from_world_map(&world);
    assert_eq!(compressed.get_elevation(0, 0), 0);
    assert_eq!(compressed.get_elevation(3, 3), 0);
    assert_eq!(compressed.get_elevation(5, 3), 8000);
    assert_eq!(compressed.get_elevation(3, 5), 8);
    assert_eq!(compressed.get_elevation(7, 7), 8008);
    assert_eq!(compressed.get_elevation(8, 8), 8008);
    assert_eq!(compressed.get_elevation(11, 11), 8008);
    assert_eq!(compressed.get_elevation(13, 11), 16008);
    assert_eq!(compressed.get_elevation(19, 19), 16016);
    assert_eq!(compressed.get_temperature(13, 3), 16);
    assert_eq!(compressed.get_temperature(3, 13), 16000);
    assert_eq!(compressed.get_moisture(9, 15), 128);
    assert_eq!(compressed.get_moisture(19, 19), 256);
}

#[test]
fn field_lookup_midway_between_two_samples_takes_the_lower() {
    let world = patchwork(20);
    let compressed = CompressedWorldData::from_world_map(&world);
    assert_eq!(compressed.get_elevation(4, 0), world.tiles[0][0].elevation);
    assert_eq!(compressed.get_elevation(4, 3), 0);
    assert_eq!(compressed.get_elevation(3, 4), 0);
    assert_eq!(compressed.get_elevation(4, 4), 0);
    assert_eq!(compressed.get_elevation(12, 11), 8008);
    assert_eq!(compressed.get_elevation(12, 12), 8008);
    assert_eq!(compressed.get_temperature(12, 3), 8);
    assert_eq!(compressed.get_temperature(3, 12), 8000);
    assert_eq!(compressed.get_moisture(12, 12), 64);
    assert_eq!(compressed.get_moisture(4, 12), 0);
}

#[test]
fn field_lookup_reads_the_tile_at_the_nearest_sampled_coordinates() {
    let world = patchwork(40);
    let compressed = CompressedWorldData::from_world_map(&world);
    let nearest = |coordinate: usize| (((coordinate + 3) / 8).min(4)) * 8;
    for x in 0..40 {
        for y in 0..40 {
            let tile = &world.tiles[nearest(x)][nearest(y)];
            assert_eq!(compressed.get_elevation(x, y), tile.elevation);
            assert_eq!(compressed.get_temperature(x, y), tile.temperature);
            assert_eq!(compressed.get_moisture(x, y), tile.moisture);
        }
    }
}

#[test]
fn field_lookup_is_exact_at_sampled_tiles() {
    let world = patchwork(30);
    let compressed = CompressedWorldData::from_world_map(&world);
    for x in [0usize, 8, 16, 24] {
        for y in [0usize, 8, 16, 24] {
            assert_eq!(compressed.get_elevation(x, y), world.tiles[x][y].elevation);
            assert_eq!(compressed.get_temperature(x, y), world.tiles[x][y].temperature);
            assert_eq!(compressed.get_moisture(x, y), world.tiles[x][y].moisture);
        }
    }
}

#[test]
fn field_lookup_past_the_last_sample_takes_the_last() {
    let world = patchwork(23);
    let compressed = CompressedWorldData::from_world_map(&world);
    assert_eq!(compressed.elevation_samples.len(), 9);
    assert_eq!(compressed.get_elevation(22, 22), 16016);
    assert_eq!(compressed.get_elevation(20, 0), 16000);
}

#[test]
fn small_world_has_one_sample() {
    let world = patchwork(5);
    let compressed = CompressedWorldData::from_world_map(&world);
    assert_eq!(compressed.elevation_samples, vec![0]);
    assert_eq!(compressed.get_elevation(4, 4), 0);
    assert_eq!(compressed.get_temperature(4, 0), 0);
}

#[test]
fn grid_shape_is_recognised() {
    assert!(patchwork(4).is_grid());
    assert!(WorldMap { tiles: Vec::new(), seed: 0 }.is_grid());
    let mut ragged = patchwork(4);
    ragged.tiles[2].pop();
    assert!(!ragged.is_grid());
    let mut short = patchwork(4);
    short.tiles.pop();
    assert!(!short.is_grid());
    assert_eq!(patchwork(4).side(), 4);
}

#[test]
fn compact_picture_shape_is_recognised() {
    let good = CompressedWorldData::from_world_map(&patchwork(20));
    assert!(good.is_valid());
    let mut short_biomes = good.clone();
    short_biomes.biomes.pop();
    assert!(!short_biomes.is_valid());
    let mut long_samples = good.clone();
    long_samples.moisture_samples.push(0);
    assert!(!long_samples.is_valid());
    let mut no_stride = good.clone();
    no_stride.sample_resolution = 0;
    assert!(!no_stride.is_valid());
    let mut other_side = good.clone();
    other_side.world_size = 21;
    assert!(!other_side.is_valid());
    let mut no_side = good.clone();
    no_side.world_size = 0;
    assert!(!no_side.is_valid());
}
