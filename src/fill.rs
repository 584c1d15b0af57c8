use vstd::prelude::*;
use crate::error::AppError;
use crate::model::{Availability, PeopleType};
use crate::balance::is_odd;

verus! {

/// One synthetic filler person to create.
#[derive(Debug, Clone, Copy, PartialEq, Eq, Structural)]
pub struct FillerRequest {
    pub people: PeopleType,
    pub availability: Availability,
    /// Whether the filler belongs to the female-only sub-population.
    pub female: bool,
}

/// How many examiner fillers a single-window slot needs, or by how many
/// examiners it is over capacity.
#[derive(Debug, Clone, Copy, PartialEq, Eq, Structural)]
pub struct SlotFill {
    /// Female examiners to create, with the slot's availability.
    pub female_fillers: usize,
    /// Other examiners to create, with the slot's availability.
    pub other_fillers: usize,
    /// Examiners beyond capacity, for the caller to move elsewhere.
    pub overflow: usize,
    /// The availability that the fillers get: the slot's.
    pub availability: Availability,
}

/// How many examiner fillers a session with morning and afternoon runs
/// needs: full-day fillers cover both shortfalls at once.
#[derive(Debug, Clone, Copy, PartialEq, Eq, Structural)]
pub struct TimeFill {
    pub full_day: usize,
    pub am_only: usize,
    pub pm_only: usize,
}

/// Which candidate fillers a single fixed-time slot needs.
#[derive(Debug, Clone, Copy, PartialEq, Eq, Structural)]
pub struct FixedFill {
    pub female_filler: bool,
    pub other_filler: bool,
    /// The availability that both fillers get: the slot's half of the day.
    pub availability: Availability,
}

/// Decides which single filler, if any, makes an odd population even. Called
/// once for the female-only sub-population (`female`) and once for the whole
/// population. The priority order: a fixed bucket (morning or afternoon only)
/// that alone is odd is filled where it has room; where the any bucket alone,
/// or all three buckets, are odd, the any bucket is filled where it has room.
/// Without flexible circuits (`z_cap == 0`) people available all day sit in
/// the morning or afternoon circuits, so the room of those is theirs. Where
/// the bucket to fill is full, the call fails.
pub fn fill_any_priority(
    ppl_type: PeopleType,
    female: bool,
    total_count: usize,
    x_fix_count: usize,
    x_cap: usize,
    y_fix_count: usize,
    y_cap: usize,
    z_flex_count: usize,
    z_cap: usize,
) -> (r: Result<Option<FillerRequest>, AppError>)
    ensures
        total_count % 2 == 0 ==> r == Ok::<Option<FillerRequest>, AppError>(None),
        total_count % 2 == 1 && odd_buckets(x_fix_count, y_fix_count, z_flex_count) == 1 && x_fix_count % 2 == 1 ==> {
            &&& x_fix_count < x_cap ==> r == Ok::<Option<FillerRequest>, AppError>(Some(FillerRequest {
                people: ppl_type,
                availability: Availability { am: true, pm: false },
                female,
            }))
            &&& x_fix_count >= x_cap ==> r == Err::<Option<FillerRequest>, AppError>(
                AppError::CapacityExceeded { supply: x_fix_count, capacity: x_cap })
        },
        total_count % 2 == 1 && odd_buckets(x_fix_count, y_fix_count, z_flex_count) == 1 && y_fix_count % 2 == 1 ==> {
            &&& y_fix_count < y_cap ==> r == Ok::<Option<FillerRequest>, AppError>(Some(FillerRequest {
                people: ppl_type,
                availability: Availability { am: false, pm: true },
                female,
            }))
            &&& y_fix_count >= y_cap ==> r == Err::<Option<FillerRequest>, AppError>(
                AppError::CapacityExceeded { supply: y_fix_count, capacity: y_cap })
        },
        total_count % 2 == 1 && (odd_buckets(x_fix_count, y_fix_count, z_flex_count) == 3
            || (odd_buckets(x_fix_count, y_fix_count, z_flex_count) == 1 && z_flex_count % 2 == 1)) ==> {
            let any_filler = Ok::<Option<FillerRequest>, AppError>(Some(FillerRequest {
                people: ppl_type,
                availability: Availability { am: true, pm: true },
                female,
            }));
            &&& z_cap > 0 && z_flex_count < z_cap ==> r == any_filler
            &&& z_cap > 0 && z_flex_count >= z_cap ==> r == Err::<Option<FillerRequest>, AppError>(
                AppError::CapacityExceeded { supply: z_flex_count, capacity: z_cap })
            &&& z_cap == 0 && total_count < x_cap + y_cap ==> r == any_filler
            &&& z_cap == 0 && total_count >= x_cap + y_cap ==> r == Err::<Option<FillerRequest>, AppError>(
                AppError::CapacityExceeded { supply: total_count, capacity: (x_cap + y_cap) as usize })
        },
        total_count % 2 == 1 && odd_buckets(x_fix_count, y_fix_count, z_flex_count) % 2 == 0
            ==> r == Ok::<Option<FillerRequest>, AppError>(None),
        // where the buckets make up the population, a successful call leaves
        // it even once the filler is added
        total_count == x_fix_count + y_fix_count + z_flex_count && r is Ok
            ==> (total_count + if r->Ok_0 is Some { 1int } else { 0int }) % 2 == 0,
{
    if !is_odd(total_count) {
        return Ok(None);
    }
    let x_odd = is_odd(x_fix_count);
    let y_odd = is_odd(y_fix_count);
    let z_odd = is_odd(z_flex_count);
    let odd_count: u8 = (x_odd as u8) + (y_odd as u8) + (z_odd as u8);
    if odd_count == 1 && x_odd {
        if x_fix_count < x_cap {
            Ok(Some(FillerRequest { people: ppl_type, availability: Availability::am_only(), female }))
        } else {
            Err(AppError::CapacityExceeded { supply: x_fix_count, capacity: x_cap })
        }
    } else if odd_count == 1 && y_odd {
        if y_fix_count < y_cap {
            Ok(Some(FillerRequest { people: ppl_type, availability: Availability::pm_only(), female }))
        } else {
            Err(AppError::CapacityExceeded { supply: y_fix_count, capacity: y_cap })
        }
    } else if odd_count == 1 || odd_count == 3 {
        if z_cap > 0 {
            if z_flex_count < z_cap {
                Ok(Some(FillerRequest { people: ppl_type, availability: Availability::any(), female }))
            } else {
                Err(AppError::CapacityExceeded { supply: z_flex_count, capacity: z_cap })
            }
        } else {
            let seats: u128 = x_cap as u128 + y_cap as u128;
            if (total_count as u128) < seats {
                Ok(Some(FillerRequest { people: ppl_type, availability: Availability::any(), female }))
            } else {
                Err(AppError::CapacityExceeded { supply: total_count, capacity: seats as usize })
            }
        }
    } else {
        Ok(None)
    }
}

/// How many of the three bucket counts are odd.
pub open spec fn odd_buckets(x: usize, y: usize, z: usize) -> int {
    x as int % 2 + y as int % 2 + z as int % 2
}

/// Examiner fillers for a slot of one kind (`am`, `pm`: when its runs take
/// place, and so the fillers' availability):
/// female examiners are topped up to the female circuits' capacity first,
/// and count toward the total; then the total is topped up to capacity.
/// Where a count is over capacity, the overflow is returned instead.
pub fn fill_by_slot(
    total_examiners: usize,
    total_female_examiners: usize,
    exam_circuit_cap: usize,
    exam_female_circuit_cap: usize,
    am: bool,
    pm: bool,
) -> (r: SlotFill)
    requires
        total_examiners + exam_female_circuit_cap <= usize::MAX,
    ensures
        total_female_examiners > exam_female_circuit_cap ==> r == (SlotFill {
            female_fillers: 0,
            other_fillers: 0,
            overflow: (total_female_examiners - exam_female_circuit_cap) as usize,
            availability: Availability { am, pm },
        }),
        total_female_examiners <= exam_female_circuit_cap ==> ({
            let female_fillers = exam_female_circuit_cap - total_female_examiners;
            let topped = total_examiners + female_fillers;
            &&& r.female_fillers == female_fillers
            &&& r.availability == (Availability { am, pm })
            &&& topped > exam_circuit_cap ==> r.other_fillers == 0 && r.overflow == topped - exam_circuit_cap
            &&& topped <= exam_circuit_cap ==> r.other_fillers == exam_circuit_cap - topped && r.overflow == 0
        }),
{
    if total_female_examiners > exam_female_circuit_cap {
        return SlotFill {
            female_fillers: 0,
            other_fillers: 0,
            overflow: total_female_examiners - exam_female_circuit_cap,
            availability: Availability { am, pm },
        };
    }
    let female_fillers = exam_female_circuit_cap - total_female_examiners;
    let topped = total_examiners + female_fillers;
    if topped > exam_circuit_cap {
        SlotFill { female_fillers, other_fillers: 0, overflow: topped - exam_circuit_cap, availability: Availability { am, pm } }
    } else {
        SlotFill { female_fillers, other_fillers: exam_circuit_cap - topped, overflow: 0, availability: Availability { am, pm } }
    }
}

/// The shortfall of `count` against `cap`, zero where there is none.
pub open spec fn shortfall(count: int, cap: int) -> int {
    if cap > count { cap - count } else { 0 }
}

/// Examiner fillers for a session with runs in both halves of the day: the
/// shortfall that both halves share is met by full-day fillers, the rest by
/// half-day fillers. Every half then reaches its capacity, with as few new
/// people as possible.
pub fn fill_by_time(
    total_am_examiners: usize,
    total_pm_examiners: usize,
    total_am_cap: usize,
    total_pm_cap: usize,
) -> (r: TimeFill)
    ensures
        ({
            let am_short = shortfall(total_am_examiners as int, total_am_cap as int);
            let pm_short = shortfall(total_pm_examiners as int, total_pm_cap as int);
            &&& r.full_day == (if am_short < pm_short { am_short } else { pm_short })
            &&& r.am_only == am_short - r.full_day
            &&& r.pm_only == pm_short - r.full_day
        }),
        total_am_examiners + r.full_day + r.am_only
            == if total_am_cap > total_am_examiners { total_am_cap as int } else { total_am_examiners as int },
        total_pm_examiners + r.full_day + r.pm_only
            == if total_pm_cap > total_pm_examiners { total_pm_cap as int } else { total_pm_examiners as int },
{
    let am_short: usize = if total_am_cap > total_am_examiners { total_am_cap - total_am_examiners } else { 0 };
    let pm_short: usize = if total_pm_cap > total_pm_examiners { total_pm_cap - total_pm_examiners } else { 0 };
    let full_day: usize = if am_short < pm_short { am_short } else { pm_short };
    TimeFill { full_day, am_only: am_short - full_day, pm_only: pm_short - full_day }
}

/// Candidate fillers for a single slot whose runs all fall in one half of
/// the day (`am`: the morning): the female-only candidates, then all
/// candidates, are made even where their circuits have room; a count that is
/// already over capacity is an error.
pub fn fill_slot_fixed_time(
    total_candidates: usize,
    total_female_candidates: usize,
    can_circuit_cap: usize,
    can_female_circuit_cap: usize,
    am: bool,
) -> (r: Result<FixedFill, AppError>)
    requires
        total_candidates < usize::MAX,
    ensures
        total_female_candidates > can_female_circuit_cap ==> r == Err::<FixedFill, AppError>(
            AppError::CapacityExceeded { supply: total_female_candidates, capacity: can_female_circuit_cap }),
        total_female_candidates <= can_female_circuit_cap ==> ({
            let female_filler = total_female_candidates < can_female_circuit_cap
                && total_female_candidates % 2 == 1;
            let topped = total_candidates + if female_filler { 1int } else { 0int };
            &&& topped > can_circuit_cap ==> r == Err::<FixedFill, AppError>(
                AppError::CapacityExceeded { supply: topped as usize, capacity: can_circuit_cap })
            &&& topped <= can_circuit_cap ==> r == Ok::<FixedFill, AppError>(FixedFill {
                female_filler,
                other_filler: topped < can_circuit_cap && topped % 2 == 1,
                availability: Availability { am, pm: !am },
            })
        }),
        // with even capacities, every bucket that is filled ends up even
        r is Ok && can_female_circuit_cap % 2 == 0 && can_circuit_cap % 2 == 0 ==> ({
            let f = r->Ok_0;
            &&& (total_female_candidates + if f.female_filler { 1int } else { 0int }) % 2 == 0
            &&& (total_candidates + (if f.female_filler { 1int } else { 0int })
                + (if f.other_filler { 1int } else { 0int })) % 2 == 0
        }),
{
    if total_female_candidates > can_female_circuit_cap {
        return Err(AppError::CapacityExceeded {
            supply: total_female_candidates,
            capacity: can_female_circuit_cap,
        });
    }
    let female_filler = total_female_candidates < can_female_circuit_cap && is_odd(total_female_candidates);
    let topped = if female_filler { total_candidates + 1 } else { total_candidates };
    if topped > can_circuit_cap {
        return Err(AppError::CapacityExceeded { supply: topped, capacity: can_circuit_cap });
    }
    let other_filler = topped < can_circuit_cap && is_odd(topped);
    Ok(FixedFill { female_filler, other_filler, availability: Availability { am, pm: !am } })
}

} // verus!
