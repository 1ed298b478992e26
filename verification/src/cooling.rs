//! The discrete side of the cooling schedules: which rule gives the
//! acceptance probability, and what a schedule does after an accepted
//! move. The temperatures themselves are floating-point numbers kept by
//! the caller.

use vstd::prelude::*;

verus! {

/// How many updates the schedules spend calibrating the temperature
/// before they start cooling.
pub const WARMUP: usize = 100;

/// Every how many updates the cooling schedule of [`cooler1_step`]
/// reports its temperature.
pub const REPORT_EVERY: usize = 300;

/// The cooling schedules that can be asked for.
#[derive(Debug, Clone, Copy, PartialEq, Eq, Structural)]
pub enum CoolerKind {
    /// Hill climbing: uphill moves are never accepted.
    Climb,
    /// The first schedule of the literature's comparison (adaptive cooling).
    Cooler1,
    /// The second one (geometric cooling).
    Cooler2,
    /// Cooling by a fixed law of the progress.
    Cooler3,
}

/// Where an acceptance probability comes from.
#[derive(Debug, Clone, Copy, PartialEq, Eq, Structural)]
pub enum ProbRule {
    /// The schedule's initial acceptance ratio.
    Initial,
    /// `exp(-delta / c)` at the current temperature `c`.
    Boltzmann,
}

/// What a schedule does with its temperature after an accepted move.
#[derive(Debug, Clone, Copy, PartialEq, Eq, Structural)]
pub enum Phase {
    /// Nothing yet: no uphill or no downhill move has been seen.
    Hold,
    /// Recompute the temperature and the acceptance ratio from the move
    /// statistics.
    Calibrate,
    /// Lower the temperature.
    Cool,
}

/// The step of the first schedule after an accepted move.
#[derive(Debug, Clone, Copy, PartialEq, Eq, Structural)]
pub struct Cooler1Step {
    /// What happens to the temperature.
    pub phase: Phase,
    /// Whether the log's column header is written first.
    pub header: bool,
    /// Whether the new temperature is written to the log.
    pub report: bool,
}

/// The cooling schedule that a command line name asks for: `climb`, `c1`,
/// `c2`, `c3`; any other name gives hill climbing.
pub open spec fn spec_cooler_kind(name: Seq<char>) -> CoolerKind {
    if name == "c1"@ {
        CoolerKind::Cooler1
    } else if name == "c2"@ {
        CoolerKind::Cooler2
    } else if name == "c3"@ {
        CoolerKind::Cooler3
    } else {
        CoolerKind::Climb
    }
}

fn str_eq(a: &str, b: &str) -> (r: bool)
    ensures
        r == (a@ == b@),
{
    let n = a.unicode_len();
    if b.unicode_len() != n {
        return false;
    }
    let mut k: usize = 0;
    while k < n
        invariant
            k <= n,
            n == a@.len(),
            n == b@.len(),
            forall|j: int| 0 <= j < k ==> a@[j] == b@[j],
        decreases n - k,
    {
        if a.get_char(k) != b.get_char(k) {
            return false;
        }
        k = k + 1;
    }
    assert(a@ =~= b@);
    true
}

/// The cooling schedule that a command line name asks for.
pub fn cooler_kind(name: &str) -> (k: CoolerKind)
    ensures
        k == spec_cooler_kind(name@),
{
    if str_eq(name, "c1") {
        CoolerKind::Cooler1
    } else if str_eq(name, "c2") {
        CoolerKind::Cooler2
    } else if str_eq(name, "c3") {
        CoolerKind::Cooler3
    } else {
        CoolerKind::Climb
    }
}

/// The probability rule of the first two schedules: the initial ratio while
/// no uphill move was accepted (`m2 == 0`) or during the first
/// [`WARMUP`] updates, the Boltzmann factor after.
pub fn prob_rule(m2: usize, count: usize) -> (r: ProbRule)
    ensures
        r == (if m2 == 0 || count < WARMUP {
            ProbRule::Initial
        } else {
            ProbRule::Boltzmann
        }),
{
    if m2 == 0 {
        ProbRule::Initial
    } else if count < WARMUP {
        ProbRule::Initial
    } else {
        ProbRule::Boltzmann
    }
}

/// The second schedule counts the probability requests themselves: the
/// request count after this one, and the rule for it.
pub fn cooler2_prob_rule(m2: usize, count: usize) -> (r: (usize, ProbRule))
    requires
        count < usize::MAX,
    ensures
        r.0 == count + 1,
        r.1 == (if m2 == 0 || count + 1 < WARMUP {
            ProbRule::Initial
        } else {
            ProbRule::Boltzmann
        }),
{
    let count = count + 1;
    (count, prob_rule(m2, count))
}

/// The first schedule after an accepted move, with `count` updates done so
/// far and `m1`, `m2` downhill and uphill moves accepted: the update count
/// after this one, and the step. During the first [`WARMUP`] updates it
/// calibrates (once both kinds of move have been seen), writing the log's
/// header at the first; after, it cools, reporting every
/// [`REPORT_EVERY`] updates.
pub fn cooler1_step(count: usize, m1: usize, m2: usize) -> (r: (usize, Cooler1Step))
    requires
        count < usize::MAX,
    ensures
        r.0 == count + 1,
        r.1.phase == (if count + 1 >= WARMUP {
            Phase::Cool
        } else if m1 == 0 || m2 == 0 {
            Phase::Hold
        } else {
            Phase::Calibrate
        }),
        r.1.header == (count + 1 == 1),
        r.1.report == (count + 1 >= WARMUP && (count + 1) % (REPORT_EVERY as int) == 0),
{
    let count = count + 1;
    if count < WARMUP {
        let header = count == 1;
        if m1 == 0 || m2 == 0 {
            return (count, Cooler1Step { phase: Phase::Hold, header, report: false });
        }
        (count, Cooler1Step { phase: Phase::Calibrate, header, report: false })
    } else {
        (count, Cooler1Step { phase: Phase::Cool, header: false, report: count % REPORT_EVERY == 0 })
    }
}

/// The second schedule after an accepted move, with `count` probability
/// requests so far: calibrate during the first [`WARMUP`] (once both kinds
/// of move have been seen), cool after.
pub fn cooler2_phase(count: usize, m1: usize, m2: usize) -> (p: Phase)
    ensures
        p == (if count >= WARMUP {
            Phase::Cool
        } else if m1 == 0 || m2 == 0 {
            Phase::Hold
        } else {
            Phase::Calibrate
        }),
{
    if count < WARMUP {
        if m1 == 0 || m2 == 0 {
            return Phase::Hold;
        }
        Phase::Calibrate
    } else {
        Phase::Cool
    }
}

} // verus!
