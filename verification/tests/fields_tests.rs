use worldgen::fields::{clamp_reading_exec, SamplePoint, UNIT};
use worldgen::generator::{
    WorldGenerator, FAST_OCTAVES, GENERATION_BLOCK_SIZE, MAX_BLOCK_SIZE, MAX_OCTAVES,
    MAX_WORLD_SIZE, WORLD_SIZE,
};

fn with_octaves(octaves: usize) -> WorldGenerator {
    WorldGenerator::layout(1, 1000, 64, octaves).unwrap()
}

#[test]
fn default_generator_settings() {
    let generator = WorldGenerator::new(Some(12345));
    assert_eq!(generator.seed, 12345);
    assert_eq!(generator.world_size, 1000);
    assert_eq!(generator.block_size, 64);
    assert_eq!(generator.octaves, 2);
    assert_eq!(WORLD_SIZE, 1000);
    assert_eq!(GENERATION_BLOCK_SIZE, 64);
    assert_eq!(FAST_OCTAVES, 2);
    assert_eq!(generator, WorldGenerator::with_seed(12345));
}

#[test]
fn random_seed_gives_default_layout() {
    let generator = WorldGenerator::new(None);
    assert_eq!(generator.world_size, 1000);
    assert_eq!(generator.block_size, 64);
    assert_eq!(generator.octaves, 2);
    assert_eq!(generator, WorldGenerator::with_seed(generator.seed));
}

#[test]
fn layout_accepts_settings_within_limits() {
    assert_eq!(
        WorldGenerator::layout(9, 1, 1, 1),
        Some(WorldGenerator { seed: 9, world_size: 1, block_size: 1, octaves: 1 })
    );
    assert_eq!(
        WorldGenerator::layout(9, MAX_WORLD_SIZE, MAX_BLOCK_SIZE, MAX_OCTAVES),
        Some(WorldGenerator { seed: 9, world_size: 32768, block_size: 4096, octaves: 8 })
    );
    assert!(WorldGenerator::layout(9, 10, 64, 4).is_some());
}

#[test]
fn layout_rejects_settings_outside_limits() {
    assert_eq!(WorldGenerator::layout(9, 0, 64, 2), None);
    assert_eq!(WorldGenerator::layout(9, 32769, 64, 2), None);
    assert_eq!(WorldGenerator::layout(9, 1000, 0, 2), None);
    assert_eq!(WorldGenerator::layout(9, 1000, 4097, 2), None);
    assert_eq!(WorldGenerator::layout(9, 1000, 64, 0), None);
    assert_eq!(WorldGenerator::layout(9, 1000, 64, 9), None);
}

#[test]
fn readings_are_held_between_minus_one_and_one() {
    assert_eq!(clamp_reading_exec(0), 0);
    assert_eq!(clamp_reading_exec(1_000_000), 1_000_000);
    assert_eq!(clamp_reading_exec(1_000_001), 1_000_000);
    assert_eq!(clamp_reading_exec(-1_000_000), -1_000_000);
    assert_eq!(clamp_reading_exec(-1_000_001), -1_000_000);
    assert_eq!(clamp_reading_exec(i32::MAX), 1_000_000);
    assert_eq!(clamp_reading_exec(i32::MIN), -1_000_000);
    assert_eq!(clamp_reading_exec(-459_216), -459_216);
}

#[test]
fn elevation_of_two_octaves() {
    let generator = with_octaves(2);
    assert_eq!(generator.generate_elevation(&vec![-459_216, 857_554], 0), 484_780);
    assert_eq!(generator.generate_elevation(&vec![0, 0], 0), 500_000);
    assert_eq!(generator.generate_elevation(&vec![-3, 0], 0), 499_998);
}

#[test]
fn elevation_saturates() {
    let generator = with_octaves(2);
    assert_eq!(generator.generate_elevation(&vec![1_000_000, 1_000_000], 0), 1_000_000);
    assert_eq!(generator.generate_elevation(&vec![-1_000_000, -1_000_000], 0), 0);
    assert_eq!(generator.generate_elevation(&vec![2_000_000, 5], 0), 1_000_000);
    assert_eq!(generator.generate_elevation(&vec![i32::MIN, i32::MIN], 0), 0);
    assert_eq!(generator.generate_elevation(&vec![i32::MAX, i32::MAX], 0), UNIT);
}

#[test]
fn elevation_of_one_octave_spans_the_range() {
    let generator = with_octaves(1);
    assert_eq!(generator.generate_elevation(&vec![1_000_000], 0), 1_000_000);
    assert_eq!(generator.generate_elevation(&vec![-1_000_000], 0), 0);
    assert_eq!(generator.generate_elevation(&vec![0], 0), 500_000);
    assert_eq!(generator.generate_elevation(&vec![-400_000], 0), 300_000);
}

#[test]
fn elevation_of_four_octaves() {
    let generator = with_octaves(4);
    assert_eq!(generator.generate_elevation(&vec![0, 0, 0, 0], 0), 500_000);
    assert_eq!(generator.generate_elevation(&vec![250_000, -500_000, 100_000, 7], 0), 512_500);
}

#[test]
fn elevation_reads_from_the_start_index() {
    let generator = with_octaves(2);
    let readings = vec![999_999, 999_999, -459_216, 857_554, 1, 2];
    assert_eq!(generator.generate_elevation(&readings, 2), 484_780);
    assert_eq!(generator.generate_elevation(&readings, 0), 1_000_000);
}

#[test]
fn temperature_follows_latitude_and_noise() {
    let generator = with_octaves(2);
    assert_eq!(generator.generate_temperature(457, 445_389), 676_616);
    assert_eq!(generator.generate_temperature(500, 0), 500_000);
    assert_eq!(generator.generate_temperature(500, 1), 500_000);
    assert_eq!(generator.generate_temperature(0, 0), 1_000_000);
    assert_eq!(generator.generate_temperature(999, 0), 1_000);
}

#[test]
fn temperature_is_held_in_range() {
    let generator = with_octaves(2);
    assert_eq!(generator.generate_temperature(0, -1_000_000), 700_000);
    assert_eq!(generator.generate_temperature(0, 1_000_000), 1_000_000);
    assert_eq!(generator.generate_temperature(999, 1_000_000), 301_000);
    assert_eq!(generator.generate_temperature(999, -1_000_000), 0);
    assert_eq!(generator.generate_temperature(999, i32::MIN), 0);
}

#[test]
fn temperature_in_a_small_world() {
    let small = WorldGenerator::layout(1, 7, 2, 2).unwrap();
    assert_eq!(small.generate_temperature(3, -123_456), 534_391);
    let single = WorldGenerator::layout(1, 1, 1, 1).unwrap();
    assert_eq!(single.generate_temperature(0, 0), 1_000_000);
}

#[test]
fn moisture_is_the_reading_moved_to_unit_range() {
    let generator = with_octaves(2);
    assert_eq!(generator.generate_moisture(573_688), 786_844);
    assert_eq!(generator.generate_moisture(-1_000_000), 0);
    assert_eq!(generator.generate_moisture(1_000_000), 1_000_000);
    assert_eq!(generator.generate_moisture(-1), 499_999);
    assert_eq!(generator.generate_moisture(1), 500_000);
    assert_eq!(generator.generate_moisture(2_000_000_000), 1_000_000);
    assert_eq!(generator.generate_moisture(-2_000_000_000), 0);
}

#[test]
fn fields_stay_in_unit_range() {
    let generator = with_octaves(3);
    let mut reading: i32 = -1_500_000;
    while reading <= 1_500_000 {
        let elevation = generator.generate_elevation(&vec![reading, -reading, reading], 0);
        let temperature = generator.generate_temperature(321, reading);
        let moisture = generator.generate_moisture(reading);
        assert!(elevation <= UNIT);
        assert!(temperature <= UNIT);
        assert!(moisture <= UNIT);
        reading += 37_501;
    }
}

#[test]
fn elevation_points_double_their_spacing() {
    let generator = WorldGenerator::layout(77, 1000, 64, 4).unwrap();
    assert_eq!(
        generator.elevation_point(123, 457, 0),
        SamplePoint { seed: 77, u: 1_230_000, v: 4_570_000 }
    );
    assert_eq!(
        generator.elevation_point(123, 457, 1),
        SamplePoint { seed: 77, u: 2_460_000, v: 9_140_000 }
    );
    assert_eq!(
        generator.elevation_point(123, 457, 3),
        SamplePoint { seed: 77, u: 9_840_000, v: 36_560_000 }
    );
    assert_eq!(generator.elevation_point(0, 0, 2), SamplePoint { seed: 77, u: 0, v: 0 });
}

#[test]
fn temperature_and_moisture_points() {
    let generator = WorldGenerator::with_seed(77);
    assert_eq!(
        generator.temperature_point(123, 457),
        SamplePoint { seed: 78, u: 615_000, v: 2_285_000 }
    );
    assert_eq!(
        generator.moisture_point(123, 457),
        SamplePoint { seed: 79, u: 984_000, v: 3_656_000 }
    );
}

#[test]
fn field_seeds_wrap_at_the_top() {
    let last = WorldGenerator::with_seed(u32::MAX);
    assert_eq!(last.elevation_point(1, 1, 0).seed, u32::MAX);
    assert_eq!(last.temperature_point(1, 1).seed, 0);
    assert_eq!(last.moisture_point(1, 1).seed, 1);
    let before_last = WorldGenerator::with_seed(u32::MAX - 1);
    assert_eq!(before_last.temperature_point(1, 1).seed, u32::MAX);
    assert_eq!(before_last.moisture_point(1, 1).seed, 0);
}

#[test]
fn largest_elevation_point_fits() {
    let generator = WorldGenerator::layout(1, 32768, 4096, 8).unwrap();
    assert_eq!(
        generator.elevation_point(32767, 32767, 7),
        SamplePoint { seed: 1, u: 41_941_760_000, v: 41_941_760_000 }
    );
}

#[test]
fn generator_limits() {
    assert!(WorldGenerator::with_seed(1).is_valid());
    assert!(WorldGenerator { seed: 1, world_size: 1, block_size: 1, octaves: 1 }.is_valid());
    assert!(WorldGenerator { seed: 1, world_size: 32768, block_size: 4096, octaves: 8 }.is_valid());
    assert!(!WorldGenerator { seed: 1, world_size: 0, block_size: 64, octaves: 2 }.is_valid());
    assert!(!WorldGenerator { seed: 1, world_size: 32769, block_size: 64, octaves: 2 }.is_valid());
    assert!(!WorldGenerator { seed: 1, world_size: 100, block_size: 0, octaves: 2 }.is_valid());
    assert!(!WorldGenerator { seed: 1, world_size: 100, block_size: 4097, octaves: 2 }.is_valid());
    assert!(!WorldGenerator { seed: 1, world_size: 100, block_size: 64, octaves: 0 }.is_valid());
    assert!(!WorldGenerator { seed: 1, world_size: 100, block_size: 64, octaves: 9 }.is_valid());
}

#[test]
fn block_may_be_larger_than_the_world() {
    let generator = WorldGenerator::layout(1, 10, 4096, 2).unwrap();
    assert_eq!(generator.block_count(), 1);
    assert_eq!(generator.block_bounds(0), (0, 0, 10, 10));
    assert_eq!(generator.block_reading_count(0), 400);
}
