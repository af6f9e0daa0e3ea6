use hskclustering::experiment::{
    at_component_floor, candidate_valid, check_nominee, default_export, grid_step, is_finalist, minimum_communities, sensitivity_plan,
    DefaultExport, Direction, GridStep, NomineeCheck, Parameter,
};

#[test]
fn grid_expands_until_no_endpoint_is_on_the_front() {
    assert_eq!(grid_step(false, false, 0, 2), GridStep::Done);
    assert_eq!(grid_step(true, false, 2, 2), GridStep::Limited);
    assert_eq!(grid_step(true, true, 1, 2), GridStep::Expand { low: true, high: true });
    assert_eq!(grid_step(false, true, 0, 2), GridStep::Expand { low: false, high: true });
}

#[test]
fn sensitivity_moves_k_only_for_neighbour_graphs() {
    assert_eq!(
        sensitivity_plan(false),
        vec![
            (Direction::Decrease, Parameter::K),
            (Direction::Decrease, Parameter::Resolution),
            (Direction::Increase, Parameter::K),
            (Direction::Increase, Parameter::Resolution)
        ]
    );
    assert_eq!(
        sensitivity_plan(true),
        vec![(Direction::Decrease, Parameter::Resolution), (Direction::Increase, Parameter::Resolution)]
    );
}

#[test]
fn candidates_need_connected_runs_and_complete_stress_tests() {
    assert!(candidate_valid(&vec![true, true], &vec![true; 4], 2));
    assert!(!candidate_valid(&vec![true, false], &vec![true; 4], 2));
    assert!(!candidate_valid(&vec![true], &vec![true; 3], 2));
    assert!(!candidate_valid(&vec![true], &vec![true, false, true, true], 2));
    assert!(candidate_valid(&vec![], &vec![], 0));
    assert_eq!(minimum_communities(&vec![Some(4), None, Some(2)]), 2);
    assert_eq!(minimum_communities(&vec![None]), 0);
}

#[test]
fn nominees_need_a_baseline_and_an_unlimited_search() {
    assert_eq!(check_nominee(false, true, false), NomineeCheck::Absent);
    assert_eq!(check_nominee(true, false, false), NomineeCheck::NoBaseline);
    assert_eq!(check_nominee(true, true, true), NomineeCheck::ExpansionLimited);
    assert_eq!(check_nominee(true, true, false), NomineeCheck::Kept);
    assert_eq!(default_export(true, true), DefaultExport::Nominee);
    assert_eq!(default_export(false, true), DefaultExport::ArchivedBaseline);
    assert_eq!(default_export(false, false), DefaultExport::Nothing);
    assert!(is_finalist(false, true, false));
    assert!(!is_finalist(false, false, false));
}

#[test]
fn component_floor_needs_every_run_at_the_component_count() {
    assert!(at_component_floor(true, &vec![Some(3), Some(3)], 3));
    assert!(!at_component_floor(true, &vec![Some(3), Some(4)], 3));
    assert!(!at_component_floor(true, &vec![Some(3), None], 3));
    assert!(!at_component_floor(false, &vec![Some(3)], 3));
    assert!(at_component_floor(true, &vec![], 3));
}
