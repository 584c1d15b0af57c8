use mockomatic::error::AppError;
use mockomatic::model::{Candidate, Circuit, Examiner, Station};
use mockomatic::solver::{allocate_stations, allocations_of, pair_weight, read_placements, Placement, StationAllocation};

fn candidate(id: u128, shortcode: &str, female_only: bool, partner_pref: Option<&str>) -> Candidate {
    Candidate {
        id,
        session_id: 1,
        first_name: String::from("first"),
        last_name: String::from("last"),
        shortcode: String::from(shortcode),
        female_only,
        partner_pref: partner_pref.map(String::from),
        checked_in: false,
        am: true,
        pm: true,
    }
}

fn examiner(id: u128, female: bool) -> Examiner {
    Examiner {
        id,
        session_id: 1,
        first_name: String::from("first"),
        last_name: String::from("last"),
        shortcode: format!("e{}", id),
        female,
        am: true,
        pm: true,
        checked_in: false,
    }
}

fn station(id: u128, index: i16) -> Station {
    Station {
        id,
        session_id: 1,
        title: format!("station {}", index),
        index,
        duration_months: 0,
        duration_days: 0,
        duration_microseconds: 600_000_000,
    }
}

fn circuit(id: u128, key: &str, female_only: bool) -> Circuit {
    Circuit {
        id,
        session_id: 1,
        slot_id: 1,
        key: String::from(key),
        female_only,
        current_rotation: None,
        status: String::from("idle"),
        feedback: false,
        intermission: false,
    }
}

fn pair_at(a: &StationAllocation) -> (u128, u128) {
    if a.candidate_1 < a.candidate_2 { (a.candidate_1, a.candidate_2) } else { (a.candidate_2, a.candidate_1) }
}

#[test]
fn mutual_preference_is_placed_together() {
    let circuits = vec![circuit(100, "A", false)];
    let stations = vec![station(200, 1), station(201, 2)];
    let candidates = vec![
        candidate(1, "A", false, Some("B")),
        candidate(2, "B", false, Some("A")),
        candidate(3, "C", false, None),
        candidate(4, "D", false, None),
    ];
    let examiners = vec![examiner(10, false), examiner(11, false)];
    let r = allocate_stations(&circuits, &stations, &candidates, &examiners).unwrap();
    assert_eq!(r.len(), 2);
    assert_eq!(r[0].circuit_id, 100);
    assert_eq!(r[0].station_id, 200);
    assert_eq!(r[1].station_id, 201);
    let mut pairs = vec![pair_at(&r[0]), pair_at(&r[1])];
    pairs.sort();
    assert_eq!(pairs, vec![(1, 2), (3, 4)]);
    assert_ne!(r[0].examiner, r[1].examiner);
}

#[test]
fn female_only_circuit_gets_female_people() {
    let circuits = vec![circuit(100, "A", true), circuit(101, "B", false)];
    let stations = vec![station(200, 1)];
    let candidates = vec![
        candidate(1, "A", false, None),
        candidate(2, "B", true, None),
        candidate(3, "C", false, None),
        candidate(4, "D", true, None),
    ];
    let examiners = vec![examiner(10, false), examiner(11, true)];
    let r = allocate_stations(&circuits, &stations, &candidates, &examiners).unwrap();
    assert_eq!(r.len(), 2);
    assert_eq!(r[0].circuit_id, 100);
    assert_eq!(pair_at(&r[0]), (2, 4));
    assert_eq!(r[0].examiner, 11);
    assert_eq!(pair_at(&r[1]), (1, 3));
    assert_eq!(r[1].examiner, 10);
}

#[test]
fn too_few_candidates_is_infeasible() {
    let circuits = vec![circuit(100, "A", false)];
    let stations = vec![station(200, 1)];
    let candidates = vec![candidate(1, "A", false, None)];
    let examiners = vec![examiner(10, false)];
    assert_eq!(allocate_stations(&circuits, &stations, &candidates, &examiners), Err(AppError::Infeasible));
}

#[test]
fn no_female_examiner_for_female_circuit_is_infeasible() {
    let circuits = vec![circuit(100, "A", true)];
    let stations = vec![station(200, 1)];
    let candidates = vec![candidate(1, "A", true, None), candidate(2, "B", true, None)];
    let examiners = vec![examiner(10, false)];
    assert_eq!(allocate_stations(&circuits, &stations, &candidates, &examiners), Err(AppError::Infeasible));
}

#[test]
fn no_stations_gives_no_allocations() {
    let circuits = vec![circuit(100, "A", false)];
    let stations: Vec<Station> = Vec::new();
    let candidates = vec![candidate(1, "A", false, None)];
    let examiners = vec![examiner(10, false)];
    assert_eq!(allocate_stations(&circuits, &stations, &candidates, &examiners), Ok(Vec::new()));
}

#[test]
fn pair_weight_counts_directional_preferences() {
    let a = candidate(1, "A", false, Some("B"));
    let b = candidate(2, "B", false, Some("A"));
    let c = candidate(3, "C", false, Some("a"));
    let d = candidate(4, "D", false, None);
    assert_eq!(pair_weight(&a, &b), 2);
    assert_eq!(pair_weight(&a, &c), 0);
    assert_eq!(pair_weight(&c, &d), 0);
    let e = candidate(5, "E", false, Some("B"));
    assert_eq!(pair_weight(&b, &e), 1);
    assert_eq!(pair_weight(&e, &b), 1);
}

fn small_slot() -> (Vec<Circuit>, Vec<Station>, Vec<Candidate>, Vec<Examiner>) {
    (
        vec![circuit(100, "A", true)],
        vec![station(200, 1), station(201, 2)],
        vec![
            candidate(1, "A", true, None),
            candidate(2, "B", true, None),
            candidate(3, "C", true, None),
            candidate(4, "D", false, None),
        ],
        vec![examiner(10, true), examiner(11, true)],
    )
}

#[test]
fn read_placements_accepts_a_valid_table() {
    let (circuits, stations, candidates, examiners) = small_slot();
    let cand_at = vec![vec![false, true, true, false], vec![true, false, false, false]];
    let exam_at = vec![vec![false, true], vec![true, false]];
    // the second position holds one candidate only
    assert_eq!(
        read_placements(&circuits, &stations, &candidates, &examiners, &cand_at, &exam_at),
        Err(AppError::InternalConsistency)
    );
    let candidates3 = vec![candidates[0].clone(), candidates[1].clone(), candidates[2].clone(), candidate(5, "E", true, None)];
    let cand_at = vec![vec![false, true, true, false], vec![true, false, false, true]];
    let r = read_placements(&circuits, &stations, &candidates3, &examiners, &cand_at, &exam_at).unwrap();
    assert_eq!(
        r,
        vec![
            Placement { circuit: 0, station: 0, candidate_1: 1, candidate_2: 2, examiner: 1 },
            Placement { circuit: 0, station: 1, candidate_1: 0, candidate_2: 3, examiner: 0 },
        ]
    );
    let a = allocations_of(&circuits, &stations, &candidates3, &examiners, &r);
    assert_eq!(
        a[1],
        StationAllocation { circuit_id: 100, station_id: 201, candidate_1: 1, candidate_2: 5, examiner: 10 }
    );
}

#[test]
fn read_placements_rejects_female_breach() {
    let (circuits, stations, candidates, examiners) = small_slot();
    let cand_at = vec![vec![false, true, true, false], vec![true, false, false, true]];
    let exam_at = vec![vec![false, true], vec![true, false]];
    assert_eq!(
        read_placements(&circuits, &stations, &candidates, &examiners, &cand_at, &exam_at),
        Err(AppError::InternalConsistency)
    );
}

#[test]
fn read_placements_rejects_person_placed_twice() {
    let (circuits, stations, candidates, examiners) = small_slot();
    let cand_at = vec![vec![true, true, false, false], vec![true, false, true, false]];
    let exam_at = vec![vec![false, true], vec![true, false]];
    assert_eq!(
        read_placements(&circuits, &stations, &candidates, &examiners, &cand_at, &exam_at),
        Err(AppError::InternalConsistency)
    );
    let cand_at = vec![vec![true, true, false, false], vec![false, false, true, true]];
    let exam_at = vec![vec![true, false], vec![true, false]];
    assert_eq!(
        read_placements(&circuits, &stations, &candidates, &examiners, &cand_at, &exam_at),
        Err(AppError::InternalConsistency)
    );
}

#[test]
fn read_placements_rejects_wrong_shape() {
    let (circuits, stations, candidates, examiners) = small_slot();
    let cand_at = vec![vec![true, true, false, false]];
    let exam_at = vec![vec![true, false]];
    assert_eq!(
        read_placements(&circuits, &stations, &candidates, &examiners, &cand_at, &exam_at),
        Err(AppError::InternalConsistency)
    );
}
