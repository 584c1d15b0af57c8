use vstd::prelude::*;
use crate::error::AppError;
use crate::fill::FixedFill;
use crate::model::Availability;
use crate::balance::is_odd;

verus! {

/// When a slot's runs take place.
#[derive(Debug, Clone, Copy, PartialEq, Eq, Structural)]
pub enum SlotTiming {
    /// Every run starts before noon.
    AmOnly,
    /// Every run starts at or after noon.
    PmOnly,
    /// Runs in both halves of the day: only people available all day fit.
    AllDay,
}

/// Classifies a slot by how many of its runs start in each half of the day;
/// a slot without runs is an error.
pub fn slot_timing(am_runs: usize, pm_runs: usize) -> (r: Result<SlotTiming, AppError>)
    ensures
        am_runs > 0 && pm_runs == 0 ==> r == Ok::<SlotTiming, AppError>(SlotTiming::AmOnly),
        am_runs == 0 && pm_runs > 0 ==> r == Ok::<SlotTiming, AppError>(SlotTiming::PmOnly),
        am_runs > 0 && pm_runs > 0 ==> r == Ok::<SlotTiming, AppError>(SlotTiming::AllDay),
        am_runs == 0 && pm_runs == 0 ==> r == Err::<SlotTiming, AppError>(AppError::SlotWithoutRuns),
{
    if am_runs > 0 && pm_runs == 0 {
        Ok(SlotTiming::AmOnly)
    } else if am_runs == 0 && pm_runs > 0 {
        Ok(SlotTiming::PmOnly)
    } else if am_runs > 0 && pm_runs > 0 {
        Ok(SlotTiming::AllDay)
    } else {
        Err(AppError::SlotWithoutRuns)
    }
}

/// The seats of a session's slots, by the half of the day they take place
/// in, in all circuits and in the female-only ones.
#[derive(Debug, Clone, Copy, PartialEq, Eq, Structural)]
pub struct SessionCapacity {
    pub am: usize,
    pub am_female: usize,
    pub pm: usize,
    pub pm_female: usize,
    pub any: usize,
    pub any_female: usize,
}

impl SessionCapacity {
    /// No seats yet.
    pub fn empty() -> (r: SessionCapacity)
        ensures
            r == (SessionCapacity { am: 0, am_female: 0, pm: 0, pm_female: 0, any: 0, any_female: 0 }),
    {
        SessionCapacity { am: 0, am_female: 0, pm: 0, pm_female: 0, any: 0, any_female: 0 }
    }

    /// Adds one slot's seats to the seats of its kind; `None` where a sum
    /// would not fit in a machine word.
    pub fn with_slot(self, timing: SlotTiming, seats: usize, female_seats: usize) -> (r: Option<SessionCapacity>)
        ensures
            timing == SlotTiming::AmOnly ==> r == (if self.am + seats <= usize::MAX
                && self.am_female + female_seats <= usize::MAX {
                Some(SessionCapacity {
                    am: (self.am + seats) as usize,
                    am_female: (self.am_female + female_seats) as usize,
                    ..self
                })
            } else {
                None
            }),
            timing == SlotTiming::PmOnly ==> r == (if self.pm + seats <= usize::MAX
                && self.pm_female + female_seats <= usize::MAX {
                Some(SessionCapacity {
                    pm: (self.pm + seats) as usize,
                    pm_female: (self.pm_female + female_seats) as usize,
                    ..self
                })
            } else {
                None
            }),
            timing == SlotTiming::AllDay ==> r == (if self.any + seats <= usize::MAX
                && self.any_female + female_seats <= usize::MAX {
                Some(SessionCapacity {
                    any: (self.any + seats) as usize,
                    any_female: (self.any_female + female_seats) as usize,
                    ..self
                })
            } else {
                None
            }),
    {
        let (total, female) = match timing {
            SlotTiming::AmOnly => (self.am, self.am_female),
            SlotTiming::PmOnly => (self.pm, self.pm_female),
            SlotTiming::AllDay => (self.any, self.any_female),
        };
        let total = match total.checked_add(seats) {
            Some(t) => t,
            None => {
                return None;
            },
        };
        let female = match female.checked_add(female_seats) {
            Some(f) => f,
            None => {
                return None;
            },
        };
        match timing {
            SlotTiming::AmOnly => Some(SessionCapacity { am: total, am_female: female, ..self }),
            SlotTiming::PmOnly => Some(SessionCapacity { pm: total, pm_female: female, ..self }),
            SlotTiming::AllDay => Some(SessionCapacity { any: total, any_female: female, ..self }),
        }
    }
}

/// The availability of the fillers a slot of this kind gets.
pub fn filler_availability(timing: SlotTiming) -> (r: Availability)
    ensures
        timing == SlotTiming::AmOnly ==> r == (Availability { am: true, pm: false }),
        timing == SlotTiming::PmOnly ==> r == (Availability { am: false, pm: true }),
        timing == SlotTiming::AllDay ==> r == (Availability { am: true, pm: true }),
{
    match timing {
        SlotTiming::AmOnly => Availability::am_only(),
        SlotTiming::PmOnly => Availability::pm_only(),
        SlotTiming::AllDay => Availability::any(),
    }
}

/// Head counts of a population: morning only, afternoon only, any, and all.
#[derive(Debug, Clone, Copy, PartialEq, Eq, Structural)]
pub struct BucketCounts {
    pub am_only: usize,
    pub pm_only: usize,
    pub any: usize,
    pub total: usize,
}

/// The people of `all` who are not in the female-only sub-population
/// `female`, bucket by bucket; `None` where `female` is not part of `all`.
pub fn without_female(all: BucketCounts, female: BucketCounts) -> (r: Option<BucketCounts>)
    ensures
        (female.am_only <= all.am_only && female.pm_only <= all.pm_only && female.any <= all.any
            && female.total <= all.total) ==> r == Some(BucketCounts {
                am_only: (all.am_only - female.am_only) as usize,
                pm_only: (all.pm_only - female.pm_only) as usize,
                any: (all.any - female.any) as usize,
                total: (all.total - female.total) as usize,
            }),
        !(female.am_only <= all.am_only && female.pm_only <= all.pm_only && female.any <= all.any
            && female.total <= all.total) ==> r is None,
{
    if female.am_only <= all.am_only && female.pm_only <= all.pm_only && female.any <= all.any
        && female.total <= all.total {
        Some(BucketCounts {
            am_only: all.am_only - female.am_only,
            pm_only: all.pm_only - female.pm_only,
            any: all.any - female.any,
            total: all.total - female.total,
        })
    } else {
        None
    }
}

/// Candidate seats of a set of circuits: two per station.
pub fn candidate_capacity(circuits: usize, stations: usize) -> (r: usize)
    requires
        circuits * stations * 2 <= usize::MAX,
    ensures
        r == circuits * stations * 2,
{
    assert(circuits * stations <= circuits * stations * 2) by (nonlinear_arith);
    circuits * stations * 2
}

/// Examiner seats of a set of circuits: one per station that is not a rest
/// station.
pub fn examiner_capacity(circuits: usize, stations_not_rest: usize) -> (r: usize)
    requires
        circuits * stations_not_rest <= usize::MAX,
    ensures
        r == circuits * stations_not_rest,
{
    circuits * stations_not_rest
}

/// People who can come in one half of the day only need a slot in that half:
/// `count` of them with no such slot cannot be seated.
pub fn check_fixed_time_slots(count: usize, slots: usize) -> (r: Result<(), AppError>)
    ensures
        r is Err <==> count != 0 && slots == 0,
        r is Err ==> r->Err_0 == (AppError::CapacityExceeded { supply: count, capacity: 0 }),
{
    if count != 0 && slots == 0 {
        Err(AppError::CapacityExceeded { supply: count, capacity: 0 })
    } else {
        Ok(())
    }
}

/// Female examiners beyond the female-only circuits' capacity may move to
/// the other circuits only while those have a free seat.
pub fn check_female_overflow(
    female_examiners: usize,
    female_cap: usize,
    total_examiners: usize,
    cap: usize,
) -> (r: Result<(), AppError>)
    ensures
        r is Err <==> female_examiners > female_cap && total_examiners >= cap,
        r is Err ==> r->Err_0 == (AppError::CapacityExceeded { supply: total_examiners, capacity: cap }),
{
    if female_examiners > female_cap && total_examiners >= cap {
        Err(AppError::CapacityExceeded { supply: total_examiners, capacity: cap })
    } else {
        Ok(())
    }
}

/// Examiner fillers for a single slot whose runs all fall in one half of the
/// day (`am`: the morning): female examiners beyond the female circuits must
/// fit in the others; an odd number of female examiners is made even where
/// the female circuits have room; then an odd total is made even where the
/// circuits have room. A total over capacity is an error.
pub fn fill_fixed_time_examiners(
    total_examiners: usize,
    female_examiners: usize,
    exam_circuit_cap: usize,
    exam_female_circuit_cap: usize,
    am: bool,
) -> (r: Result<FixedFill, AppError>)
    requires
        total_examiners < usize::MAX,
    ensures
        female_examiners > exam_female_circuit_cap && total_examiners >= exam_circuit_cap
            ==> r == Err::<FixedFill, AppError>(AppError::CapacityExceeded {
                supply: total_examiners,
                capacity: exam_circuit_cap,
            }),
        !(female_examiners > exam_female_circuit_cap && total_examiners >= exam_circuit_cap) ==> ({
            let female_filler = female_examiners < exam_female_circuit_cap && female_examiners % 2 == 1;
            let topped = total_examiners + if female_filler { 1int } else { 0int };
            &&& topped > exam_circuit_cap ==> r == Err::<FixedFill, AppError>(
                AppError::CapacityExceeded { supply: topped as usize, capacity: exam_circuit_cap })
            &&& topped <= exam_circuit_cap ==> r == Ok::<FixedFill, AppError>(FixedFill {
                female_filler,
                other_filler: topped < exam_circuit_cap && topped % 2 == 1,
                availability: Availability { am, pm: !am },
            })
        }),
{
    check_female_overflow(female_examiners, exam_female_circuit_cap, total_examiners, exam_circuit_cap)?;
    let female_filler = female_examiners < exam_female_circuit_cap && is_odd(female_examiners);
    let topped = if female_filler { total_examiners + 1 } else { total_examiners };
    if topped > exam_circuit_cap {
        return Err(AppError::CapacityExceeded { supply: topped, capacity: exam_circuit_cap });
    }
    let other_filler = topped < exam_circuit_cap && is_odd(topped);
    Ok(FixedFill { female_filler, other_filler, availability: Availability { am, pm: !am } })
}

/// Across several slots of one half of the day, the overflow that is kept:
/// the next slot's where none is kept yet (`current == 0`), else the
/// smaller of the two.
pub fn least_overflow(current: usize, next: usize) -> (r: usize)
    ensures
        current == 0 ==> r == next,
        current != 0 ==> r == (if next < current { next } else { current }),
{
    if current == 0 || next < current {
        next
    } else {
        current
    }
}

} // verus!
