use hskclustering::plans::{
    completed_seeds, first_repeated_seed, repeat_pairs, CalibrationSeedError, CalibrationSeeds, SeedError, SeedPlan,
};

fn default_plan() -> SeedPlan {
    SeedPlan {
        screening: vec![42, 43, 44],
        confirmation: (1000..1010).collect(),
        development_perturbation: (10000..10010).collect(),
        confirmation_perturbation: (20000..20010).collect(),
        null: (30000..30100).collect(),
        confirm: true,
    }
}

#[test]
fn first_repeated_seed_reads_lists_in_order() {
    assert_eq!(first_repeated_seed(&vec![vec![1, 2], vec![3, 2, 1]]), Some(2));
    assert_eq!(first_repeated_seed(&vec![vec![5, 5]]), Some(5));
    assert_eq!(first_repeated_seed(&vec![vec![1], vec![], vec![2]]), None);
}

#[test]
fn manifest_seed_plan_rejects_leakage_and_small_cohorts() {
    assert_eq!(default_plan().validate(), Ok(()));
    let mut leaked = default_plan();
    leaked.confirmation[0] = leaked.screening[0];
    assert_eq!(leaked.validate(), Err(SeedError::ReusedSeed(42)));
    let mut small = default_plan();
    small.screening.pop();
    assert_eq!(small.validate(), Err(SeedError::TooFewScreeningSeeds));
    let mut unconfirmed = default_plan();
    unconfirmed.confirmation.clear();
    assert_eq!(unconfirmed.validate(), Err(SeedError::TooFewConfirmationSeeds));
    unconfirmed.confirm = false;
    unconfirmed.confirmation_perturbation.clear();
    assert_eq!(unconfirmed.validate(), Ok(()));
    let mut stress = default_plan();
    stress.development_perturbation.truncate(9);
    assert_eq!(stress.validate(), Err(SeedError::TooFewStressReplicates));
    let mut null = default_plan();
    null.null.truncate(99);
    assert_eq!(null.validate(), Err(SeedError::TooFewNullPermutations));
}

#[test]
fn calibration_seeds_stay_out_of_the_study() {
    let study = SeedPlan { confirm: false, confirmation: vec![], confirmation_perturbation: vec![], ..default_plan() };
    let good = CalibrationSeeds {
        solver: (500..530).collect(),
        perturbation: (40000..40020).collect(),
        resampling: 60000,
        resamples: 10000,
    };
    assert_eq!(good.validate(&study), Ok(()));
    let few = CalibrationSeeds { solver: (500..505).collect(), ..good.clone() };
    assert_eq!(few.validate(&study), Err(CalibrationSeedError::SolverCohorts));
    let few = CalibrationSeeds { perturbation: (40000..40019).collect(), ..good.clone() };
    assert_eq!(few.validate(&study), Err(CalibrationSeedError::PerturbationCohorts));
    let few = CalibrationSeeds { resamples: 999, ..good.clone() };
    assert_eq!(few.validate(&study), Err(CalibrationSeedError::TooFewResamples));
    let mut leaked = good.clone();
    leaked.solver[3] = 42;
    assert_eq!(leaked.validate(&study), Err(CalibrationSeedError::LeakedSeed(42)));
    let overlap = CalibrationSeeds { resampling: 500, ..good.clone() };
    assert_eq!(overlap.validate(&study), Err(CalibrationSeedError::ResamplingSeedOverlap));
}

#[test]
fn completed_perturbations_are_listed_by_kind() {
    let runs = vec![
        ("edge_removal".to_string(), 1, true),
        ("vocabulary_subsample".to_string(), 1, true),
        ("edge_removal".to_string(), 2, false),
        ("edge_removal".to_string(), 3, true),
    ];
    assert_eq!(completed_seeds(&runs, "edge_removal"), vec![1, 3]);
    assert_eq!(completed_seeds(&runs, "vocabulary_subsample"), vec![1]);
    assert!(completed_seeds(&runs, "other").is_empty());
}

#[test]
fn repeat_pairs_cover_every_pair_of_runs() {
    let runs = vec![7, 3, 9];
    let pairs = vec![(7, 3), (9, 7), (3, 9), (7, 3)];
    let matrix = repeat_pairs(&runs, &pairs).unwrap();
    assert_eq!(matrix[0][1], Some(3));
    assert_eq!(matrix[1][0], Some(3));
    assert_eq!(matrix[0][2], Some(1));
    assert_eq!(matrix[2][1], Some(2));
    assert_eq!(matrix[1][1], None);
    assert!(repeat_pairs(&runs, &vec![(7, 3), (9, 7)]).is_none());
    assert!(repeat_pairs(&vec![1], &vec![]).is_some());
}

#[test]
fn manifest_disallows_seed_leakage_and_incomplete_selection_policy() {
    // The default study's seed lists with one confirmation seed reused from screening.
    let mut manifest = default_plan();
    manifest.confirmation[0] = manifest.screening[0];
    assert!(manifest.validate().is_err());
}

#[test]
fn repeat_pairs_fill_the_diagonal_from_self_pairs() {
    let runs = vec![5u64, 6];
    let pairs = vec![(5u64, 6u64), (6, 6), (6, 6)];
    let matrix = repeat_pairs(&runs, &pairs).unwrap();
    assert_eq!(matrix[0][0], None);
    assert_eq!(matrix[1][1], Some(2));
    assert_eq!(matrix[0][1], Some(0));
    assert_eq!(matrix[1][0], Some(0));
}
