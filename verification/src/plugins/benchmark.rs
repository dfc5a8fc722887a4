//! The frame schedule of a benchmark run: a warm-up that is not measured,
//! then a fixed number of measured frames, then the report.

use vstd::prelude::*;

verus! {

/// Frames run before any sample is taken.
pub const BENCH_WARMUP_FRAMES: u32 = 120;

/// Frames measured after the warm-up.
pub const BENCH_MEASURE_FRAMES: u32 = 600;

/// What a benchmark frame does.
#[derive(Clone, Copy, Debug, PartialEq, Eq, Structural)]
pub enum BenchPhase {
    /// Still warming up: nothing is sampled.
    Warmup,
    /// The frame rate is sampled.
    Sample,
    /// The frame rate is sampled, then the results are printed and the run ends.
    Report,
}

/// The phase of the `frame`-th frame (counting from one).
pub fn bench_phase(frame: u32) -> (r: BenchPhase)
    ensures
        frame <= BENCH_WARMUP_FRAMES ==> r == BenchPhase::Warmup,
        BENCH_WARMUP_FRAMES < frame < BENCH_WARMUP_FRAMES + BENCH_MEASURE_FRAMES ==> r
            == BenchPhase::Sample,
        frame >= BENCH_WARMUP_FRAMES + BENCH_MEASURE_FRAMES ==> r == BenchPhase::Report,
{
    if frame <= BENCH_WARMUP_FRAMES {
        BenchPhase::Warmup
    } else if frame >= BENCH_WARMUP_FRAMES + BENCH_MEASURE_FRAMES {
        BenchPhase::Report
    } else {
        BenchPhase::Sample
    }
}

} // verus!
