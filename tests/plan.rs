use mockomatic::error::AppError;
use mockomatic::fill::FixedFill;
use mockomatic::model::Availability;
use mockomatic::plan::{
    candidate_capacity, check_female_overflow, check_fixed_time_slots, examiner_capacity,
    filler_availability, fill_fixed_time_examiners, least_overflow, slot_timing, without_female, BucketCounts,
    SessionCapacity, SlotTiming,
};

#[test]
fn slot_timing_by_runs() {
    assert_eq!(slot_timing(2, 0), Ok(SlotTiming::AmOnly));
    assert_eq!(slot_timing(0, 3), Ok(SlotTiming::PmOnly));
    assert_eq!(slot_timing(1, 1), Ok(SlotTiming::AllDay));
    assert_eq!(slot_timing(0, 0), Err(AppError::SlotWithoutRuns));
}

#[test]
fn capacities() {
    assert_eq!(candidate_capacity(3, 8), 48);
    assert_eq!(examiner_capacity(3, 7), 21);
    assert_eq!(candidate_capacity(0, 8), 0);
}

#[test]
fn fixed_time_people_need_a_slot() {
    assert_eq!(check_fixed_time_slots(0, 0), Ok(()));
    assert_eq!(check_fixed_time_slots(3, 1), Ok(()));
    assert_eq!(check_fixed_time_slots(3, 0), Err(AppError::CapacityExceeded { supply: 3, capacity: 0 }));
}

#[test]
fn female_overflow_needs_free_seats() {
    assert_eq!(check_female_overflow(5, 4, 9, 10), Ok(()));
    assert_eq!(check_female_overflow(5, 4, 10, 10), Err(AppError::CapacityExceeded { supply: 10, capacity: 10 }));
    assert_eq!(check_female_overflow(4, 4, 12, 10), Ok(()));
}

#[test]
fn fixed_time_examiners() {
    assert_eq!(
        fill_fixed_time_examiners(7, 3, 10, 4, true),
        Ok(FixedFill { female_filler: true, other_filler: false, availability: Availability::am_only() })
    );
    assert_eq!(
        fill_fixed_time_examiners(10, 5, 10, 4, false),
        Err(AppError::CapacityExceeded { supply: 10, capacity: 10 })
    );
    assert_eq!(
        fill_fixed_time_examiners(11, 2, 10, 4, false),
        Err(AppError::CapacityExceeded { supply: 11, capacity: 10 })
    );
}

#[test]
fn least_overflow_keeps_smallest_nonzero() {
    assert_eq!(least_overflow(0, 3), 3);
    assert_eq!(least_overflow(3, 1), 1);
    assert_eq!(least_overflow(2, 5), 2);
    assert_eq!(least_overflow(2, 0), 0);
}

#[test]
fn session_capacity_by_slot_timing() {
    let c = SessionCapacity::empty()
        .with_slot(SlotTiming::AmOnly, 16, 4)
        .and_then(|c| c.with_slot(SlotTiming::AllDay, 8, 0))
        .and_then(|c| c.with_slot(SlotTiming::AmOnly, 16, 0))
        .unwrap();
    assert_eq!(c, SessionCapacity { am: 32, am_female: 4, pm: 0, pm_female: 0, any: 8, any_female: 0 });
    assert_eq!(c.with_slot(SlotTiming::PmOnly, usize::MAX, 0).map(|c| c.pm), Some(usize::MAX));
    assert_eq!(c.with_slot(SlotTiming::AmOnly, usize::MAX, 0), None);
}

#[test]
fn filler_availability_follows_slot_timing() {
    assert_eq!(filler_availability(SlotTiming::AmOnly), Availability::am_only());
    assert_eq!(filler_availability(SlotTiming::PmOnly), Availability::pm_only());
    assert_eq!(filler_availability(SlotTiming::AllDay), Availability::any());
}

#[test]
fn others_are_all_but_the_female_only() {
    let all = BucketCounts { am_only: 5, pm_only: 3, any: 8, total: 16 };
    let female = BucketCounts { am_only: 1, pm_only: 0, any: 2, total: 3 };
    assert_eq!(without_female(all, female), Some(BucketCounts { am_only: 4, pm_only: 3, any: 6, total: 13 }));
    assert_eq!(without_female(female, all), None);
}
