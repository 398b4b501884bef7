//! Progress of a generation run, kept in one place.
//!
//! Workers tell the tracker how many tiles they have finished and how many
//! milliseconds have passed since the run began. The tracker answers with a
//! report to pass on to an observer, at most once in every 50 milliseconds,
//! and never with a fraction below one it has reported before. Fractions
//! count millionths. While the run lasts they stay at or below 0.7; the
//! report that ends the run says 1.

use crate::fields::UNIT;
use vstd::prelude::*;

verus! {

/// Least time, in milliseconds, between two reports.
pub const REPORT_INTERVAL_MS: u64 = 50;

/// Number of stages that a run is presented in.
pub const STAGE_COUNT: usize = 11;

/// The highest fraction reported while the run lasts: 0.7.
pub const RUNNING_SHARE: u32 = 700_000;

/// Time, in milliseconds, that a run is presented as taking at least.
pub const LEAST_RUN_MS: u64 = 1500;

/// Time, in milliseconds, that the stages take together.
pub const STAGES_MS: u64 = 1100;

#[derive(Debug, Clone, Copy, PartialEq, Eq, Structural)]
pub struct ProgressReport {
    pub fraction: u32,
    pub stage: usize,
}

#[derive(Debug, Clone, Copy, PartialEq, Eq, Structural)]
pub struct ProgressTracker {
    pub total_tiles: u64,
    pub tiles_done: u64,
    pub last_report_ms: u64,
    pub last_fraction: u32,
}

/// Time, in milliseconds from the start of the run, at which a stage ends.
pub open spec fn stage_end_ms(stage: int) -> int {
    if stage <= 0 {
        150
    } else if stage == 1 {
        270
    } else if stage == 2 {
        370
    } else if stage == 3 {
        470
    } else if stage == 4 {
        590
    } else if stage == 5 {
        690
    } else if stage == 6 {
        790
    } else if stage == 7 {
        870
    } else if stage == 8 {
        950
    } else if stage == 9 {
        1000
    } else {
        1100
    }
}

/// The stage shown at a presented time: the one after the last stage that
/// has ended, and the last stage once all have.
pub open spec fn stage_at(presented_ms: int) -> int {
    if presented_ms < 150 {
        0
    } else if presented_ms < 270 {
        1
    } else if presented_ms < 370 {
        2
    } else if presented_ms < 470 {
        3
    } else if presented_ms < 590 {
        4
    } else if presented_ms < 690 {
        5
    } else if presented_ms < 790 {
        6
    } else if presented_ms < 870 {
        7
    } else if presented_ms < 950 {
        8
    } else if presented_ms < 1000 {
        9
    } else {
        10
    }
}

/// The time that the finished tiles stand for: their share of the least time
/// of a run. A run of no tiles is finished from the start.
pub open spec fn tiles_ms(done: int, total: int) -> int {
    if total == 0 {
        LEAST_RUN_MS as int
    } else {
        done * LEAST_RUN_MS / total
    }
}

/// The time presented to the observer: the time that has passed, or the time
/// that the finished tiles stand for, whichever is more.
pub open spec fn presented_ms(elapsed_ms: int, done: int, total: int) -> int {
    if elapsed_ms >= tiles_ms(done, total) {
        elapsed_ms
    } else {
        tiles_ms(done, total)
    }
}

/// The fraction presented at a presented time: its share of the time of all
/// stages, held at 0.7.
pub open spec fn running_fraction(presented_ms: int) -> int {
    if presented_ms * UNIT / (STAGES_MS as int) >= RUNNING_SHARE {
        RUNNING_SHARE as int
    } else {
        presented_ms * UNIT / (STAGES_MS as int)
    }
}

/// The name of a stage.
pub open spec fn stage_text(stage: int) -> Seq<char> {
    if stage <= 0 {
        "Raising mountains from the depths..."@
    } else if stage == 1 {
        "Sculpting volcanic peaks..."@
    } else if stage == 2 {
        "Setting perfect temperatures..."@
    } else if stage == 3 {
        "Adding arctic chill to the north..."@
    } else if stage == 4 {
        "Distributing moisture across lands..."@
    } else if stage == 5 {
        "Filling rivers and lakes..."@
    } else if stage == 6 {
        "Shaping diverse biomes..."@
    } else if stage == 7 {
        "Planting forests and grasslands..."@
    } else if stage == 8 {
        "Scattering precious minerals..."@
    } else if stage == 9 {
        "Growing mushrooms in caves..."@
    } else {
        "Adding final magical touches..."@
    }
}

/// The name of a stage. A number past the last stage names the last stage.
pub fn stage_label(stage: usize) -> (label: &'static str)
    ensures
        label@ == stage_text(stage as int),
{
    if stage == 0 {
        "Raising mountains from the depths..."
    } else if stage == 1 {
        "Sculpting volcanic peaks..."
    } else if stage == 2 {
        "Setting perfect temperatures..."
    } else if stage == 3 {
        "Adding arctic chill to the north..."
    } else if stage == 4 {
        "Distributing moisture across lands..."
    } else if stage == 5 {
        "Filling rivers and lakes..."
    } else if stage == 6 {
        "Shaping diverse biomes..."
    } else if stage == 7 {
        "Planting forests and grasslands..."
    } else if stage == 8 {
        "Scattering precious minerals..."
    } else if stage == 9 {
        "Growing mushrooms in caves..."
    } else {
        "Adding final magical touches..."
    }
}

impl ProgressTracker {
    /// No more tiles are finished than there are, and the last fraction
    /// reported is at most 1.
    pub open spec fn wf(&self) -> bool {
        self.tiles_done <= self.total_tiles && self.last_fraction <= UNIT
    }

    /// The tiles finished once `tiles` more are: never more than there are.
    pub open spec fn done_after(&self, tiles: u64) -> u64 {
        if self.tiles_done + tiles >= self.total_tiles {
            self.total_tiles
        } else {
            (self.tiles_done + tiles) as u64
        }
    }

    /// A report is due: at least 50 milliseconds have passed since the last
    /// one, or since the start of the run if there was none.
    pub open spec fn report_due(&self, elapsed_ms: u64) -> bool {
        elapsed_ms >= self.last_report_ms + REPORT_INTERVAL_MS
    }

    /// The report that is due after `tiles` more tiles at `elapsed_ms`.
    pub open spec fn report_of(&self, tiles: u64, elapsed_ms: u64) -> ProgressReport {
        let presented = presented_ms(
            elapsed_ms as int,
            self.done_after(tiles) as int,
            self.total_tiles as int,
        );
        let fraction = running_fraction(presented);
        ProgressReport {
            fraction: if fraction >= self.last_fraction {
                fraction as u32
            } else {
                self.last_fraction
            },
            stage: stage_at(presented) as usize,
        }
    }

    /// The tracker of a run of `total_tiles` tiles, at its start.
    pub fn new(total_tiles: u64) -> (tracker: Self)
        ensures
            tracker == (ProgressTracker {
                total_tiles,
                tiles_done: 0,
                last_report_ms: 0,
                last_fraction: 0,
            }),
            tracker.wf(),
    {
        ProgressTracker { total_tiles, tiles_done: 0, last_report_ms: 0, last_fraction: 0 }
    }

    /// Takes note that `tiles` more tiles are finished, `elapsed_ms`
    /// milliseconds after the start of the run, and hands back the report to
    /// pass on, if one is due.
    pub fn record(&mut self, tiles: u64, elapsed_ms: u64) -> (report: Option<ProgressReport>)
        requires
            old(self).wf(),
        ensures
            final(self).wf(),
            final(self).total_tiles == old(self).total_tiles,
            final(self).tiles_done == old(self).done_after(tiles),
            report.is_some() == old(self).report_due(elapsed_ms),
            report matches Some(r) ==> {
                &&& r == old(self).report_of(tiles, elapsed_ms)
                &&& old(self).last_fraction <= r.fraction <= UNIT
                &&& r.stage < STAGE_COUNT
                &&& final(self).last_report_ms == elapsed_ms
                &&& final(self).last_fraction == r.fraction
            },
            report.is_none() ==> final(self).last_report_ms == old(self).last_report_ms
                && final(self).last_fraction == old(self).last_fraction,
    {
        let room: u64 = self.total_tiles - self.tiles_done;
        if tiles >= room {
            self.tiles_done = self.total_tiles;
        } else {
            self.tiles_done = self.tiles_done + tiles;
        }
        if elapsed_ms < self.last_report_ms || elapsed_ms - self.last_report_ms
            < REPORT_INTERVAL_MS {
            return None;
        }
        let from_tiles: u64 = if self.total_tiles == 0 {
            LEAST_RUN_MS
        } else {
            proof {
                let done = self.tiles_done as int;
                let total = self.total_tiles as int;
                assert(0 <= done * 1500 <= total * 1500) by (nonlinear_arith)
                    requires
                        0 <= done <= total,
                ;
                vstd::arithmetic::div_mod::lemma_div_is_ordered(done * 1500, total * 1500, total);
                vstd::arithmetic::div_mod::lemma_div_pos_is_pos(done * 1500, total);
                vstd::arithmetic::div_mod::lemma_fundamental_div_mod_converse(
                    total * 1500,
                    total,
                    1500,
                    0,
                );
            }
            ((self.tiles_done as u128 * LEAST_RUN_MS as u128) / self.total_tiles as u128) as u64
        };
        let presented: u64 = if elapsed_ms >= from_tiles {
            elapsed_ms
        } else {
            from_tiles
        };
        let running: u32 = if presented >= 770 {
            RUNNING_SHARE
        } else {
            (presented * 1_000_000 / STAGES_MS) as u32
        };
        let fraction: u32 = if running >= self.last_fraction {
            running
        } else {
            self.last_fraction
        };
        let stage: usize = if presented < 150 {
            0
        } else if presented < 270 {
            1
        } else if presented < 370 {
            2
        } else if presented < 470 {
            3
        } else if presented < 590 {
            4
        } else if presented < 690 {
            5
        } else if presented < 790 {
            6
        } else if presented < 870 {
            7
        } else if presented < 950 {
            8
        } else if presented < 1000 {
            9
        } else {
            10
        };
        self.last_report_ms = elapsed_ms;
        self.last_fraction = fraction;
        Some(ProgressReport { fraction, stage })
    }

    /// Ends the run: every tile is finished, and the report says 1 and names
    /// the last stage.
    pub fn finish(&mut self) -> (report: ProgressReport)
        ensures
            final(self).wf(),
            final(self).total_tiles == old(self).total_tiles,
            final(self).tiles_done == old(self).total_tiles,
            final(self).last_report_ms == old(self).last_report_ms,
            final(self).last_fraction == UNIT,
            report == (ProgressReport { fraction: UNIT, stage: (STAGE_COUNT - 1) as usize }),
    {
        self.tiles_done = self.total_tiles;
        self.last_fraction = UNIT;
        ProgressReport { fraction: UNIT, stage: STAGE_COUNT - 1 }
    }
}

/// The stage shown at a presented time is the number of stages that have
/// ended by then, but never past the last stage.
pub proof fn lemma_stage_at(presented_ms: int, stage: int)
    requires
        0 <= stage < STAGE_COUNT - 1,
    ensures
        0 <= stage_at(presented_ms) < STAGE_COUNT,
        stage_at(presented_ms) > stage <==> presented_ms >= stage_end_ms(stage),
{
}

/// The presented time and the fraction never go down as time passes and
/// tiles are finished.
pub proof fn lemma_progress_monotone(
    elapsed_ms: int,
    done: int,
    later_ms: int,
    later_done: int,
    total: int,
)
    requires
        0 <= elapsed_ms <= later_ms,
        0 <= done <= later_done <= total,
    ensures
        presented_ms(elapsed_ms, done, total) <= presented_ms(later_ms, later_done, total),
        0 <= running_fraction(presented_ms(elapsed_ms, done, total)) <= running_fraction(
            presented_ms(later_ms, later_done, total),
        ) <= RUNNING_SHARE,
        stage_at(presented_ms(elapsed_ms, done, total)) <= stage_at(
            presented_ms(later_ms, later_done, total),
        ),
{
    if total > 0 {
        assert(0 <= done * 1500 <= later_done * 1500);
        vstd::arithmetic::div_mod::lemma_div_is_ordered(done * 1500, later_done * 1500, total);
        vstd::arithmetic::div_mod::lemma_div_pos_is_pos(done * 1500, total);
    }
}

} // verus!
