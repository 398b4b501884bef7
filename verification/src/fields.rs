//! The three scalar fields of the world: where the coherent noise behind each
//! is read, and how the readings are combined into elevation, temperature and
//! moisture.
//!
//! All quantities are integers counting millionths: a reading of `-1_000_000`
//! stands for -1, a field value of `1_000_000` for 1, a coordinate of
//! `10_000` for 0.01.

use crate::generator::{WorldGenerator, MAX_OCTAVES};
use vstd::prelude::*;

verus! {

/// The number that stands for 1.
pub const UNIT: u32 = 1_000_000;

/// Distance between the elevation readings of neighbouring tiles in the first
/// octave: 0.01.
pub const ELEVATION_STEP: u64 = 10_000;

/// Distance between the temperature readings of neighbouring tiles: 0.005.
pub const TEMPERATURE_STEP: u64 = 5_000;

/// Distance between the moisture readings of neighbouring tiles: 0.008.
pub const MOISTURE_STEP: u64 = 8_000;

/// A place in one of the noise fields: the seed of the field and the two
/// coordinates at which it is read.
#[derive(Debug, Clone, Copy, PartialEq, Eq, Structural)]
pub struct SamplePoint {
    pub seed: u32,
    pub u: u64,
    pub v: u64,
}

/// Two to the power `k`.
pub open spec fn pow2(k: nat) -> int
    decreases k,
{
    if k == 0 {
        1
    } else {
        2 * pow2((k - 1) as nat)
    }
}

/// A noise reading brought into the range from -1 to 1.
pub open spec fn clamp_reading(reading: int) -> int {
    if reading < -(UNIT as int) {
        -(UNIT as int)
    } else if reading > UNIT as int {
        UNIT as int
    } else {
        reading
    }
}

/// A value brought into the range from 0 to 1.
pub open spec fn clamp_unit(value: int) -> int {
    if value < 0 {
        0
    } else if value > UNIT as int {
        UNIT as int
    } else {
        value
    }
}

/// The octaves in `readings` added up, each with half the weight of the one
/// before, as a multiple of the weight of a would-be next octave: with `n`
/// readings the result is the sum of `clamp_reading(readings[k]) * 2^(n - k)`.
pub open spec fn fractal_sum(readings: Seq<i32>) -> int
    decreases readings.len(),
{
    if readings.len() == 0 {
        0
    } else {
        2 * (fractal_sum(readings.drop_last()) + clamp_reading(readings.last() as int))
    }
}

/// Elevation from the octave readings: the fractal sum, in which the first
/// octave has weight 1, moved from the range -1..1 to 0..1 and held there.
pub open spec fn elevation_of(readings: Seq<i32>) -> int {
    let n = readings.len();
    clamp_unit((fractal_sum(readings) + UNIT * pow2(n)) / (2 * pow2(n)))
}

/// Temperature in row `y` of a world of side `world_size`: a gradient from 1
/// in row 0 towards 0 at the far edge, plus three tenths of the reading, held
/// in 0..1.
pub open spec fn temperature_of(y: int, world_size: int, reading: int) -> int {
    clamp_unit(
        (10 * UNIT * (world_size - y) + 3 * clamp_reading(reading) * world_size) / (10
            * world_size),
    )
}

/// Moisture: the reading moved from the range -1..1 to 0..1.
pub open spec fn moisture_of(reading: int) -> int {
    (clamp_reading(reading) + UNIT) / 2
}

impl WorldGenerator {
    /// Seed of the elevation field.
    pub open spec fn elevation_seed(&self) -> u32 {
        self.seed
    }

    /// Seed of the temperature field: the seed plus one, wrapping at the top.
    pub open spec fn temperature_seed(&self) -> u32 {
        if self.seed == u32::MAX {
            0
        } else {
            (self.seed + 1) as u32
        }
    }

    /// Seed of the moisture field: the seed plus two, wrapping at the top.
    pub open spec fn moisture_seed(&self) -> u32 {
        if self.seed >= u32::MAX - 1 {
            (self.seed - (u32::MAX - 1)) as u32
        } else {
            (self.seed + 2) as u32
        }
    }

    /// Where octave `octave` of the elevation field is read for tile `(x, y)`:
    /// the distance between neighbouring tiles doubles with each octave.
    pub open spec fn elevation_point_of(&self, x: int, y: int, octave: nat) -> SamplePoint {
        SamplePoint {
            seed: self.elevation_seed(),
            u: (x * ELEVATION_STEP * pow2(octave)) as u64,
            v: (y * ELEVATION_STEP * pow2(octave)) as u64,
        }
    }

    /// Where the temperature field is read for tile `(x, y)`.
    pub open spec fn temperature_point_of(&self, x: int, y: int) -> SamplePoint {
        SamplePoint {
            seed: self.temperature_seed(),
            u: (x * TEMPERATURE_STEP) as u64,
            v: (y * TEMPERATURE_STEP) as u64,
        }
    }

    /// Where the moisture field is read for tile `(x, y)`.
    pub open spec fn moisture_point_of(&self, x: int, y: int) -> SamplePoint {
        SamplePoint {
            seed: self.moisture_seed(),
            u: (x * MOISTURE_STEP) as u64,
            v: (y * MOISTURE_STEP) as u64,
        }
    }

    pub fn elevation_point(&self, x: usize, y: usize, octave: usize) -> (point: SamplePoint)
        requires
            self.wf(),
            x < self.world_size,
            y < self.world_size,
            octave < self.octaves,
        ensures
            point == self.elevation_point_of(x as int, y as int, octave as nat),
    {
        let mut scale: u64 = 1;
        let mut k: usize = 0;
        while k < octave
            invariant
                k <= octave < MAX_OCTAVES,
                scale == pow2(k as nat),
                1 <= scale <= 128,
            decreases octave - k,
        {
            proof {
                lemma_pow2_bound(k as nat, 6);
            }
            scale = scale * 2;
            k = k + 1;
        }
        assert(x * ELEVATION_STEP * scale <= 32768 * 10_000 * 128) by (nonlinear_arith)
            requires
                x < 32768,
                ELEVATION_STEP == 10_000,
                scale <= 128,
        ;
        assert(y * ELEVATION_STEP * scale <= 32768 * 10_000 * 128) by (nonlinear_arith)
            requires
                y < 32768,
                ELEVATION_STEP == 10_000,
                scale <= 128,
        ;
        SamplePoint {
            seed: self.seed,
            u: x as u64 * ELEVATION_STEP * scale,
            v: y as u64 * ELEVATION_STEP * scale,
        }
    }

    pub fn temperature_point(&self, x: usize, y: usize) -> (point: SamplePoint)
        requires
            self.wf(),
            x < self.world_size,
            y < self.world_size,
        ensures
            point == self.temperature_point_of(x as int, y as int),
    {
        SamplePoint {
            seed: self.seed.wrapping_add(1),
            u: x as u64 * TEMPERATURE_STEP,
            v: y as u64 * TEMPERATURE_STEP,
        }
    }

    pub fn moisture_point(&self, x: usize, y: usize) -> (point: SamplePoint)
        requires
            self.wf(),
            x < self.world_size,
            y < self.world_size,
        ensures
            point == self.moisture_point_of(x as int, y as int),
    {
        SamplePoint {
            seed: self.seed.wrapping_add(2),
            u: x as u64 * MOISTURE_STEP,
            v: y as u64 * MOISTURE_STEP,
        }
    }

    /// Elevation of a tile from its octave readings, which stand in `readings`
    /// from index `start` on.
    pub fn generate_elevation(&self, readings: &Vec<i32>, start: usize) -> (elevation: u32)
        requires
            self.wf(),
            start + self.octaves <= readings.len(),
        ensures
            elevation == elevation_of(
                readings@.subrange(start as int, start + self.octaves as int),
            ),
            elevation <= UNIT,
    {
        let ghost octaves = readings@.subrange(start as int, start + self.octaves as int);
        let mut sum: i64 = 0;
        let mut scale: i64 = 1;
        let mut k: usize = 0;
        while k < self.octaves
            invariant
                k <= self.octaves <= MAX_OCTAVES,
                start + self.octaves <= readings.len(),
                octaves == readings@.subrange(start as int, start + self.octaves as int),
                scale == pow2(k as nat),
                1 <= scale <= 256,
                sum == fractal_sum(octaves.take(k as int)),
                -2_000_000 * (scale - 1) <= sum <= 2_000_000 * (scale - 1),
            decreases self.octaves - k,
        {
            let reading: i64 = clamp_reading_exec(readings[start + k]) as i64;
            proof {
                lemma_pow2_bound(k as nat, 7);
                let next = octaves.take(k + 1);
                assert(next.drop_last() =~= octaves.take(k as int));
                assert(next.last() == readings@[start + k]);
            }
            sum = 2 * (sum + reading);
            scale = scale * 2;
            k = k + 1;
        }
        assert(octaves.take(k as int) =~= octaves);
        let shifted: i64 = sum + 1_000_000 * scale;
        if shifted < 0 {
            assert((shifted as int) / (2 * scale) < 0) by (nonlinear_arith)
                requires
                    shifted < 0,
                    scale > 0,
            ;
            0
        } else {
            let raw: i64 = shifted / (2 * scale);
            assert(raw >= 0) by (nonlinear_arith)
                requires
                    raw == (shifted as int) / (2 * scale),
                    shifted >= 0,
                    scale > 0,
            ;
            if raw > 1_000_000 {
                UNIT
            } else {
                raw as u32
            }
        }
    }

    /// Temperature of a tile in row `y` from its reading.
    pub fn generate_temperature(&self, y: usize, reading: i32) -> (temperature: u32)
        requires
            self.wf(),
            y < self.world_size,
        ensures
            temperature == temperature_of(y as int, self.world_size as int, reading as int),
            temperature <= UNIT,
    {
        let size: i64 = self.world_size as i64;
        let noise: i64 = clamp_reading_exec(reading) as i64;
        assert(10 * UNIT * (size - y) <= 10 * 1_000_000 * 32768) by (nonlinear_arith)
            requires
                UNIT == 1_000_000,
                0 <= y < size <= 32768,
        ;
        assert(-3 * 1_000_000 * 32768 <= 3 * noise * size <= 3 * 1_000_000 * 32768)
            by (nonlinear_arith)
            requires
                -1_000_000 <= noise <= 1_000_000,
                0 < size <= 32768,
        ;
        let gradient: i64 = 10 * (UNIT as i64) * (size - y as i64);
        let blend: i64 = gradient + 3 * noise * size;
        if blend < 0 {
            assert((blend as int) / (10 * size) < 0) by (nonlinear_arith)
                requires
                    blend < 0,
                    size > 0,
            ;
            0
        } else {
            let raw: i64 = blend / (10 * size);
            assert(raw >= 0) by (nonlinear_arith)
                requires
                    raw == (blend as int) / (10 * size),
                    blend >= 0,
                    size > 0,
            ;
            if raw > UNIT as i64 {
                UNIT
            } else {
                raw as u32
            }
        }
    }

    /// Moisture of a tile from its reading.
    pub fn generate_moisture(&self, reading: i32) -> (moisture: u32)
        ensures
            moisture == moisture_of(reading as int),
            moisture <= UNIT,
    {
        let noise: i32 = clamp_reading_exec(reading);
        ((noise + UNIT as i32) / 2) as u32
    }
}

/// Brings a noise reading into the range from -1 to 1.
pub fn clamp_reading_exec(reading: i32) -> (clamped: i32)
    ensures
        clamped == clamp_reading(reading as int),
        -UNIT <= clamped <= UNIT,
{
    if reading < -1_000_000 {
        -1_000_000
    } else if reading > 1_000_000 {
        1_000_000
    } else {
        reading
    }
}

/// Powers of two grow with the exponent.
pub proof fn lemma_pow2_bound(k: nat, limit: nat)
    requires
        k <= limit,
    ensures
        1 <= pow2(k) <= pow2(limit),
        pow2(0) == 1,
        pow2(6) == 64,
        pow2(7) == 128,
        pow2(8) == 256,
    decreases limit,
{
    reveal_with_fuel(pow2, 9);
    if k < limit {
        lemma_pow2_bound(k, (limit - 1) as nat);
    } else if k > 0 {
        lemma_pow2_bound((k - 1) as nat, (limit - 1) as nat);
    }
}

/// With two octaves the second counts half as much as the first: the
/// elevation is `(first + second / 2 + 1) / 2`, held between 0 and 1.
pub proof fn lemma_two_octaves(first: i32, second: i32)
    ensures
        elevation_of(seq![first, second]) == clamp_unit(
            (2 * clamp_reading(first as int) + clamp_reading(second as int) + 2 * UNIT) / 4,
        ),
{
    let both = seq![first, second];
    let one = seq![first];
    reveal_with_fuel(fractal_sum, 3);
    reveal_with_fuel(pow2, 3);
    assert(both.drop_last() =~= one);
    assert(one.drop_last() =~= Seq::<i32>::empty());
    let sum = fractal_sum(both);
    assert(sum == 4 * clamp_reading(first as int) + 2 * clamp_reading(second as int));
    assert(both.len() == 2);
    assert(pow2(2) == 4);
    let half = 2 * clamp_reading(first as int) + clamp_reading(second as int) + 2 * UNIT;
    assert(sum + UNIT * pow2(2) == 2 * half);
    assert((2 * half) / 8 == half / 4);
}

/// Every field value lies between 0 and 1.
pub proof fn lemma_fields_in_unit_range(readings: Seq<i32>, y: int, world_size: int, reading: int)
    ensures
        0 <= elevation_of(readings) <= UNIT,
        0 <= temperature_of(y, world_size, reading) <= UNIT,
        0 <= moisture_of(reading) <= UNIT,
{
}

} // verus!
