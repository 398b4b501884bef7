use noise::{NoiseFn, Perlin};
use worldgen::biome::{BiomeType, ResourceType};
use worldgen::fields::{SamplePoint, UNIT};
use worldgen::generation::PlacedTile;
use worldgen::generator::WorldGenerator;
use worldgen::world::{Tile, WorldMap};

fn fields_of(seed: u32) -> [(u32, Perlin); 3] {
    [
        (seed, Perlin::new(seed)),
        (seed.wrapping_add(1), Perlin::new(seed.wrapping_add(1))),
        (seed.wrapping_add(2), Perlin::new(seed.wrapping_add(2))),
    ]
}

fn reading(fields: &[(u32, Perlin); 3], point: &SamplePoint) -> i32 {
    let mut value = 0.0;
    for (seed, field) in fields.iter() {
        if *seed == point.seed {
            value = field.get([point.u as f64 / 1_000_000.0, point.v as f64 / 1_000_000.0]);
        }
    }
    (value * 1_000_000.0).round() as i32
}

fn readings_for(generator: &WorldGenerator) -> Vec<Vec<i32>> {
    let fields = fields_of(generator.seed);
    let mut all = Vec::new();
    for block in 0..generator.block_count() {
        let points = generator.block_sample_points(block);
        all.push(points.iter().map(|p| reading(&fields, p)).collect());
    }
    all
}

fn blocks_for(generator: &WorldGenerator, readings: &Vec<Vec<i32>>) -> Vec<Vec<PlacedTile>> {
    let mut blocks = Vec::new();
    for block in 0..generator.block_count() {
        blocks.push(generator.generate_block(block, &readings[block]).unwrap());
    }
    blocks
}

fn tile_from_noise(generator: &WorldGenerator, x: usize, y: usize) -> Tile {
    let fields = fields_of(generator.seed);
    let points = generator.sample_points(x, y);
    let readings: Vec<i32> = points.iter().map(|p| reading(&fields, p)).collect();
    generator.generate_tile(x, y, &readings, 0)
}

fn generated(generator: &WorldGenerator) -> WorldMap {
    generator.generate_world(&readings_for(generator)).unwrap()
}

#[test]
fn golden_tile_of_seed_12345() {
    let generator = WorldGenerator::new(Some(12345));
    let world = generated(&generator);
    let expected = Tile {
        biome: BiomeType::Forest,
        elevation: 500_000,
        temperature: 500_000,
        moisture: 500_000,
        resources: vec![ResourceType::Wood, ResourceType::Berries, ResourceType::Herbs],
    };
    assert_eq!(world.tiles.len(), 1000);
    assert_eq!(world.tiles[500][500], expected);
    assert_eq!(tile_from_noise(&generator, 500, 500), expected);
    assert_eq!(world.seed, 12345);
}

#[test]
fn golden_tiles_off_the_lattice() {
    let generator = WorldGenerator::new(Some(12345));
    assert_eq!(
        tile_from_noise(&generator, 123, 457),
        Tile {
            biome: BiomeType::Forest,
            elevation: 484_780,
            temperature: 676_616,
            moisture: 786_844,
            resources: vec![ResourceType::Wood, ResourceType::Berries],
        }
    );
    assert_eq!(
        tile_from_noise(&generator, 999, 999),
        Tile {
            biome: BiomeType::Tundra,
            elevation: 500_052,
            temperature: 1_000,
            moisture: 511_306,
            resources: vec![ResourceType::Ice, ResourceType::Fish],
        }
    );
    assert_eq!(
        tile_from_noise(&generator, 0, 0),
        Tile {
            biome: BiomeType::Savanna,
            elevation: 500_000,
            temperature: 1_000_000,
            moisture: 500_000,
            resources: vec![ResourceType::Herbs, ResourceType::Stone],
        }
    );
}

#[test]
fn tile_from_given_readings() {
    let generator = WorldGenerator::new(Some(12345));
    let tile = generator.generate_tile(123, 457, &vec![-459_216, 857_554, 445_389, 573_688], 0);
    assert_eq!(tile.biome, BiomeType::Forest);
    assert_eq!(tile.elevation, 484_780);
    assert_eq!(tile.temperature, 676_616);
    assert_eq!(tile.moisture, 786_844);
    assert_eq!(tile.resources, vec![ResourceType::Wood, ResourceType::Berries]);
}

#[test]
fn tile_reads_from_the_start_index() {
    let generator = WorldGenerator::new(Some(12345));
    let readings = vec![7, 7, 7, 7, -2_672, 1_272, -629_090, 1_824, 9];
    let tile = generator.generate_tile(37, 911, &readings, 4);
    assert_eq!(tile.biome, BiomeType::Tundra);
    assert_eq!(tile.elevation, 498_982);
    assert_eq!(tile.temperature, 0);
    assert_eq!(tile.moisture, 500_912);
    assert_eq!(tile.resources, vec![ResourceType::Ice]);
}

#[test]
fn same_seed_and_size_give_the_same_world() {
    let generator = WorldGenerator::layout(2024, 120, 16, 2).unwrap();
    let first = generated(&generator);
    let second = generated(&WorldGenerator::layout(2024, 120, 16, 2).unwrap());
    assert_eq!(first, second);
}

#[test]
fn different_seeds_give_different_worlds() {
    let first = generated(&WorldGenerator::layout(1, 60, 16, 2).unwrap());
    let second = generated(&WorldGenerator::layout(2, 60, 16, 2).unwrap());
    assert_ne!(first.tiles, second.tiles);
}

#[test]
fn block_side_does_not_change_the_world() {
    let first = generated(&WorldGenerator::layout(5, 50, 7, 2).unwrap());
    let second = generated(&WorldGenerator::layout(5, 50, 64, 2).unwrap());
    let third = generated(&WorldGenerator::layout(5, 50, 1, 2).unwrap());
    assert_eq!(first, second);
    assert_eq!(first, third);
}

#[test]
fn world_tiles_are_the_tiles_made_one_by_one() {
    let generator = WorldGenerator::layout(31, 23, 5, 3).unwrap();
    let world = generated(&generator);
    assert_eq!(world.tiles.len(), 23);
    for x in 0..23 {
        assert_eq!(world.tiles[x].len(), 23);
        for y in 0..23 {
            assert_eq!(world.tiles[x][y], tile_from_noise(&generator, x, y));
        }
    }
}

#[test]
fn every_generated_tile_is_well_formed() {
    let generator = WorldGenerator::layout(99, 150, 32, 2).unwrap();
    let world = generated(&generator);
    for x in 0..150 {
        for y in 0..150 {
            let tile = world.tile(x, y);
            assert!(tile.elevation <= UNIT);
            assert!(tile.temperature <= UNIT);
            assert!(tile.moisture <= UNIT);
            assert_eq!(
                tile.biome,
                WorldGenerator::determine_biome_fast(tile.elevation, tile.temperature, tile.moisture)
            );
            let catalog = tile.biome.get_resources();
            assert!(tile.resources.len() >= 1);
            assert!(tile.resources.len() <= 3.min(catalog.len()));
            for kind in tile.resources.iter() {
                assert!(catalog.contains(kind));
            }
            assert_eq!(
                tile.resources,
                WorldGenerator::generate_resources_fast(&tile.biome, 99, x, y)
            );
        }
    }
    assert_eq!(world.side(), 150);
}

#[test]
fn flat_noise_gives_a_latitude_world() {
    let generator = WorldGenerator::layout(4, 10, 4, 2).unwrap();
    let readings: Vec<Vec<i32>> = (0..generator.block_count())
        .map(|block| vec![0; generator.block_reading_count(block)])
        .collect();
    let world = generator.generate_world(&readings).unwrap();
    for x in 0..10 {
        for y in 0..10usize {
            let tile = &world.tiles[x][y];
            assert_eq!(tile.elevation, 500_000);
            assert_eq!(tile.moisture, 500_000);
            assert_eq!(tile.temperature, (1_000_000 - 100_000 * y) as u32);
        }
    }
    assert_eq!(world.tiles[0][0].biome, BiomeType::Savanna);
    assert_eq!(world.tiles[0][3].biome, BiomeType::Forest);
    assert_eq!(world.tiles[0][7].biome, BiomeType::Tundra);
}

#[test]
fn block_layout_of_the_default_world() {
    let generator = WorldGenerator::new(Some(1));
    assert_eq!(generator.block_columns(), 16);
    assert_eq!(generator.block_count(), 256);
    assert_eq!(generator.block_bounds(0), (0, 0, 64, 64));
    assert_eq!(generator.block_bounds(1), (64, 0, 128, 64));
    assert_eq!(generator.block_bounds(15), (960, 0, 1000, 64));
    assert_eq!(generator.block_bounds(16), (0, 64, 64, 128));
    assert_eq!(generator.block_bounds(255), (960, 960, 1000, 1000));
    assert_eq!(generator.block_reading_count(0), 64 * 64 * 4);
    assert_eq!(generator.block_reading_count(15), 40 * 64 * 4);
    assert_eq!(generator.block_reading_count(255), 40 * 40 * 4);
}

#[test]
fn blocks_tile_the_world() {
    let generator = WorldGenerator::layout(1, 45, 8, 2).unwrap();
    let mut covered = vec![vec![0u32; 45]; 45];
    for block in 0..generator.block_count() {
        let (start_x, start_y, end_x, end_y) = generator.block_bounds(block);
        assert!(start_x < end_x && end_x <= 45);
        assert!(start_y < end_y && end_y <= 45);
        for x in start_x..end_x {
            for y in start_y..end_y {
                covered[x][y] += 1;
            }
        }
    }
    assert_eq!(generator.block_count(), 36);
    assert!(covered.iter().all(|column| column.iter().all(|count| *count == 1)));
}

#[test]
fn sample_points_of_a_tile() {
    let generator = WorldGenerator::new(Some(12345));
    assert_eq!(
        generator.sample_points(123, 457),
        vec![
            SamplePoint { seed: 12345, u: 1_230_000, v: 4_570_000 },
            SamplePoint { seed: 12345, u: 2_460_000, v: 9_140_000 },
            SamplePoint { seed: 12346, u: 615_000, v: 2_285_000 },
            SamplePoint { seed: 12347, u: 984_000, v: 3_656_000 },
        ]
    );
}

#[test]
fn sample_points_of_a_block_follow_its_tiles() {
    let generator = WorldGenerator::layout(8, 10, 4, 1).unwrap();
    let points = generator.block_sample_points(5);
    let (start_x, start_y, end_x, end_y) = generator.block_bounds(5);
    assert_eq!((start_x, start_y, end_x, end_y), (8, 4, 10, 8));
    assert_eq!(points.len(), 2 * 4 * 3);
    assert_eq!(points.len(), generator.block_reading_count(5));
    let mut expected = Vec::new();
    for x in start_x..end_x {
        for y in start_y..end_y {
            expected.extend(generator.sample_points(x, y));
        }
    }
    assert_eq!(points, expected);
    assert_eq!(points[3], SamplePoint { seed: 8, u: 80_000, v: 50_000 });
}

#[test]
fn block_tiles_come_column_by_column() {
    let generator = WorldGenerator::layout(8, 10, 4, 1).unwrap();
    let readings = readings_for(&generator);
    let placed = generator.generate_block(5, &readings[5]).unwrap();
    let positions: Vec<(usize, usize)> = placed.iter().map(|p| (p.x, p.y)).collect();
    assert_eq!(positions, vec![(8, 4), (8, 5), (8, 6), (8, 7), (9, 4), (9, 5), (9, 6), (9, 7)]);
    for tile in placed.iter() {
        assert_eq!(tile.tile, tile_from_noise(&generator, tile.x, tile.y));
    }
}

#[test]
fn block_is_refused_for_a_wrong_number_of_readings() {
    let generator = WorldGenerator::layout(8, 10, 4, 1).unwrap();
    let readings = readings_for(&generator);
    let mut short = readings[0].clone();
    short.pop();
    let mut long = readings[0].clone();
    long.push(0);
    assert_eq!(generator.generate_block(0, &short), None);
    assert_eq!(generator.generate_block(0, &long), None);
    assert_eq!(generator.generate_block(0, &Vec::new()), None);
    assert!(generator.generate_block(0, &readings[0]).is_some());
}

#[test]
fn block_is_refused_past_the_last_block() {
    let generator = WorldGenerator::layout(8, 10, 4, 1).unwrap();
    let readings = readings_for(&generator);
    assert_eq!(generator.block_count(), 9);
    assert!(generator.generate_block(8, &readings[8]).is_some());
    assert_eq!(generator.generate_block(9, &readings[8]), None);
    assert_eq!(generator.generate_block(usize::MAX, &readings[8]), None);
}

#[test]
fn world_is_refused_for_readings_that_do_not_fit() {
    let generator = WorldGenerator::layout(8, 10, 4, 1).unwrap();
    let readings = readings_for(&generator);
    let mut missing_block = readings.clone();
    missing_block.pop();
    let mut extra_block = readings.clone();
    extra_block.push(Vec::new());
    let mut short_block = readings.clone();
    short_block[4].pop();
    assert_eq!(generator.generate_world(&missing_block), None);
    assert_eq!(generator.generate_world(&extra_block), None);
    assert_eq!(generator.generate_world(&short_block), None);
    assert_eq!(generator.generate_world(&Vec::new()), None);
    assert!(generator.generate_world(&readings).is_some());
}

#[test]
fn assembling_blocks_gives_the_generated_world() {
    let generator = WorldGenerator::layout(77, 30, 8, 2).unwrap();
    let readings = readings_for(&generator);
    let world = generator.generate_world(&readings).unwrap();
    assert_eq!(generator.assemble(blocks_for(&generator, &readings)), Some(world));
}

#[test]
fn order_of_blocks_and_tiles_does_not_matter() {
    let generator = WorldGenerator::layout(77, 30, 8, 2).unwrap();
    let readings = readings_for(&generator);
    let world = generator.generate_world(&readings).unwrap();
    let mut blocks = blocks_for(&generator, &readings);
    blocks.reverse();
    for block in blocks.iter_mut() {
        block.reverse();
    }
    blocks.swap(3, 11);
    assert_eq!(generator.assemble(blocks), Some(world.clone()));
    let mut merged: Vec<PlacedTile> = blocks_for(&generator, &readings).into_iter().flatten().collect();
    merged.rotate_left(123);
    assert_eq!(generator.assemble(vec![merged, Vec::new()]), Some(world));
}

#[test]
fn assembling_refuses_a_missing_tile() {
    let generator = WorldGenerator::layout(77, 12, 5, 2).unwrap();
    let readings = readings_for(&generator);
    let mut blocks = blocks_for(&generator, &readings);
    blocks[2].pop();
    assert_eq!(generator.assemble(blocks), None);
    assert_eq!(generator.assemble(Vec::new()), None);
}

#[test]
fn assembling_refuses_a_tile_placed_twice() {
    let generator = WorldGenerator::layout(77, 12, 5, 2).unwrap();
    let readings = readings_for(&generator);
    let mut blocks = blocks_for(&generator, &readings);
    let again = blocks[1][0].clone();
    blocks[4].push(again);
    assert_eq!(generator.assemble(blocks), None);
}

#[test]
fn assembling_refuses_a_tile_outside_the_world() {
    let generator = WorldGenerator::layout(77, 12, 5, 2).unwrap();
    let readings = readings_for(&generator);
    let mut beyond_x = blocks_for(&generator, &readings);
    beyond_x[0].push(PlacedTile { x: 12, y: 0, tile: Tile::blank() });
    assert_eq!(generator.assemble(beyond_x), None);
    let mut beyond_y = blocks_for(&generator, &readings);
    beyond_y[0].push(PlacedTile { x: 0, y: usize::MAX, tile: Tile::blank() });
    assert_eq!(generator.assemble(beyond_y), None);
}

#[test]
fn world_of_one_tile() {
    let generator = WorldGenerator::layout(3, 1, 1, 1).unwrap();
    assert_eq!(generator.block_count(), 1);
    let world = generator.generate_world(&vec![vec![-500_000, 0, 200_000]]).unwrap();
    assert_eq!(
        world.tiles,
        vec![vec![Tile {
            biome: BiomeType::Ocean,
            elevation: 250_000,
            temperature: 1_000_000,
            moisture: 600_000,
            resources: WorldGenerator::generate_resources_fast(&BiomeType::Ocean, 3, 0, 0),
        }]]
    );
}

#[test]
fn blank_tile_is_empty_water() {
    let blank = Tile::blank();
    assert_eq!(blank.biome, BiomeType::Ocean);
    assert_eq!(blank.elevation, 0);
    assert_eq!(blank.temperature, 0);
    assert_eq!(blank.moisture, 0);
    assert!(blank.resources.is_empty());
}
