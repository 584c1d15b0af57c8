use mockomatic::error::AppError;
use mockomatic::fill::{
    fill_any_priority, fill_by_slot, fill_by_time, fill_slot_fixed_time, FillerRequest, FixedFill, SlotFill,
    TimeFill,
};
use mockomatic::model::{Availability, PeopleType};

fn request(availability: Availability, female: bool) -> Option<FillerRequest> {
    Some(FillerRequest { people: PeopleType::Candidate, availability, female })
}

#[test]
fn priority_fill_even_total_needs_nothing() {
    assert_eq!(fill_any_priority(PeopleType::Candidate, false, 10, 4, 8, 2, 8, 4, 8), Ok(None));
}

#[test]
fn priority_fill_odd_morning_bucket() {
    assert_eq!(
        fill_any_priority(PeopleType::Candidate, true, 7, 3, 8, 2, 8, 2, 8),
        Ok(request(Availability::am_only(), true))
    );
    assert_eq!(
        fill_any_priority(PeopleType::Candidate, true, 7, 3, 3, 2, 8, 2, 8),
        Err(AppError::CapacityExceeded { supply: 3, capacity: 3 })
    );
}

#[test]
fn priority_fill_odd_afternoon_bucket() {
    assert_eq!(
        fill_any_priority(PeopleType::Examiner, false, 7, 2, 8, 3, 8, 2, 8),
        Ok(Some(FillerRequest {
            people: PeopleType::Examiner,
            availability: Availability::pm_only(),
            female: false
        }))
    );
    assert_eq!(
        fill_any_priority(PeopleType::Examiner, false, 7, 2, 8, 3, 2, 2, 8),
        Err(AppError::CapacityExceeded { supply: 3, capacity: 2 })
    );
}

#[test]
fn priority_fill_odd_any_bucket() {
    assert_eq!(
        fill_any_priority(PeopleType::Candidate, false, 7, 2, 4, 2, 4, 3, 0),
        Ok(request(Availability::any(), false))
    );
    assert_eq!(
        fill_any_priority(PeopleType::Candidate, false, 7, 2, 2, 2, 2, 3, 2),
        Err(AppError::CapacityExceeded { supply: 3, capacity: 2 })
    );
    assert_eq!(
        fill_any_priority(PeopleType::Candidate, false, 7, 2, 2, 2, 2, 3, 4),
        Ok(request(Availability::any(), false))
    );
}

#[test]
fn priority_fill_full_any_bucket_is_not_filled() {
    assert_eq!(
        fill_any_priority(PeopleType::Candidate, false, 1, 0, 10, 0, 0, 1, 1),
        Err(AppError::CapacityExceeded { supply: 1, capacity: 1 })
    );
    assert_eq!(
        fill_any_priority(PeopleType::Candidate, false, 3, 1, 10, 1, 0, 1, 1),
        Err(AppError::CapacityExceeded { supply: 1, capacity: 1 })
    );
}

#[test]
fn priority_fill_all_three_odd() {
    assert_eq!(
        fill_any_priority(PeopleType::Candidate, false, 9, 3, 4, 3, 4, 3, 4),
        Ok(request(Availability::any(), false))
    );
    assert_eq!(
        fill_any_priority(PeopleType::Candidate, false, 9, 3, 4, 3, 4, 3, 0),
        Err(AppError::CapacityExceeded { supply: 9, capacity: 8 })
    );
}

#[test]
fn slot_fill_over_capacity_returns_overflow() {
    assert_eq!(fill_by_slot(5, 0, 4, 0, true, false), SlotFill { female_fillers: 0, other_fillers: 0, overflow: 1, availability: Availability::am_only() });
}

#[test]
fn slot_fill_female_overflow() {
    assert_eq!(fill_by_slot(6, 3, 8, 2, true, false), SlotFill { female_fillers: 0, other_fillers: 0, overflow: 1, availability: Availability::am_only() });
}

#[test]
fn slot_fill_tops_up_to_capacity() {
    assert_eq!(fill_by_slot(3, 1, 8, 2, true, false), SlotFill { female_fillers: 1, other_fillers: 4, overflow: 0, availability: Availability::am_only() });
    assert_eq!(fill_by_slot(0, 0, 0, 0, true, false), SlotFill { female_fillers: 0, other_fillers: 0, overflow: 0, availability: Availability::am_only() });
}

#[test]
fn slot_fill_female_fillers_push_over_capacity() {
    assert_eq!(fill_by_slot(8, 0, 8, 2, true, false), SlotFill { female_fillers: 2, other_fillers: 0, overflow: 2, availability: Availability::am_only() });
}

#[test]
fn time_fill_prefers_full_day_fillers() {
    assert_eq!(fill_by_time(3, 5, 8, 8), TimeFill { full_day: 3, am_only: 2, pm_only: 0 });
    assert_eq!(fill_by_time(10, 2, 8, 8), TimeFill { full_day: 0, am_only: 0, pm_only: 6 });
    assert_eq!(fill_by_time(4, 4, 8, 8), TimeFill { full_day: 4, am_only: 0, pm_only: 0 });
    assert_eq!(fill_by_time(9, 9, 8, 8), TimeFill { full_day: 0, am_only: 0, pm_only: 0 });
}

#[test]
fn fixed_time_fill_female_over_capacity() {
    assert_eq!(
        fill_slot_fixed_time(10, 5, 20, 4, true),
        Err(AppError::CapacityExceeded { supply: 5, capacity: 4 })
    );
}

#[test]
fn fixed_time_fill_makes_buckets_even() {
    assert_eq!(
        fill_slot_fixed_time(8, 3, 20, 4, true),
        Ok(FixedFill { female_filler: true, other_filler: true, availability: Availability::am_only() })
    );
    assert_eq!(
        fill_slot_fixed_time(7, 2, 20, 4, false),
        Ok(FixedFill { female_filler: false, other_filler: true, availability: Availability::pm_only() })
    );
    assert_eq!(
        fill_slot_fixed_time(8, 4, 8, 4, true),
        Ok(FixedFill { female_filler: false, other_filler: false, availability: Availability::am_only() })
    );
}

#[test]
fn fixed_time_fill_total_over_capacity() {
    assert_eq!(
        fill_slot_fixed_time(10, 2, 8, 4, true),
        Err(AppError::CapacityExceeded { supply: 10, capacity: 8 })
    );
    assert_eq!(
        fill_slot_fixed_time(8, 1, 8, 4, true),
        Err(AppError::CapacityExceeded { supply: 9, capacity: 8 })
    );
}
