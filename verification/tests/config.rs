use hskclustering::config::{
    abtt_components_valid, check_neighbor_counts, check_scale, ensure_distinct_paths, full_covariance_parameters,
    pca_components, GraphCountError, ModelSizeError, PathError, PcaError, PcaWhiteningConfig, Representation,
};

fn shape(rows: &[&[f64]]) -> (Vec<usize>, Vec<bool>) {
    (
        rows.iter().map(|r| r.len()).collect(),
        rows.iter().map(|r| r.iter().all(|x| x.is_finite())).collect(),
    )
}

#[test]
fn rejects_invalid_pca_shape_and_component_count() {
    let config = PcaWhiteningConfig::whitening(None);
    let (l, f) = shape(&[]);
    assert!(pca_components(&l, &f, config).is_err());
    let (l, f) = shape(&[&[1.0]]);
    assert!(pca_components(&l, &f, config).is_err());
    let (l, f) = shape(&[&[1.0], &[1.0, 2.0]]);
    assert!(pca_components(&l, &f, config).is_err());
    let (l, f) = shape(&[&[1.0], &[2.0]]);
    assert!(pca_components(&l, &f, PcaWhiteningConfig::whitening(Some(2))).is_err());
}

#[test]
fn pca_component_count_defaults_to_the_largest_allowed() {
    let config = PcaWhiteningConfig::whitening(None);
    assert!(config.whiten && config.components.is_none());
    let (l, f) = shape(&[&[1.0, 0.0], &[-1.0, 0.0], &[0.0, 2.0], &[0.0, -2.0]]);
    assert_eq!(pca_components(&l, &f, config), Ok(2));
    assert_eq!(pca_components(&l, &f, PcaWhiteningConfig::whitening(Some(1))), Ok(1));
    assert_eq!(pca_components(&l, &f, PcaWhiteningConfig::whitening(Some(0))), Err(PcaError::ComponentCount(2, 0)));
    let (l, f) = shape(&[&[1.0], &[1.0, 2.0]]);
    assert_eq!(pca_components(&l, &f, config), Err(PcaError::RaggedRow(1, 2, 1)));
    let (l, f) = shape(&[&[1.0], &[f64::NAN]]);
    assert_eq!(pca_components(&l, &f, config), Err(PcaError::NonFinite(1)));
    let (l, f) = shape(&[&[], &[]]);
    assert_eq!(pca_components(&l, &f, config), Err(PcaError::ZeroDimension));
    assert_eq!(pca_components(&vec![], &vec![], config), Err(PcaError::TooFewRows));
}

#[test]
fn full_covariance_parameter_count() {
    // Two clusters in two dimensions: 1 weight, 4 means, 6 covariance entries.
    assert_eq!(full_covariance_parameters(80, 2, 2), Ok(11));
    assert_eq!(full_covariance_parameters(80, 3, 1), Ok(9));
    assert_eq!(full_covariance_parameters(0, 3, 1), Err(ModelSizeError::InvalidDimensions));
}

#[test]
fn representation_and_graph_counts() {
    assert_eq!(Representation::Raw.transforms(), 0);
    assert_eq!(Representation::Center.transforms(), 1);
    assert_eq!(Representation::Abtt(3).transforms(), 2);
    assert!(abtt_components_valid(1, 6, 3));
    assert!(!abtt_components_valid(0, 6, 3));
    assert!(!abtt_components_valid(4, 6, 3));
    assert!(!abtt_components_valid(2, 2, 3));
    assert_eq!(check_neighbor_counts(0, 32), Err(GraphCountError::NoNeighbors));
    assert_eq!(check_neighbor_counts(20, 0), Err(GraphCountError::NoBlockRows));
    assert_eq!(check_neighbor_counts(20, 32), Ok(()));
    assert_eq!(check_scale(Some(0)), Err(GraphCountError::ZeroScale));
    assert_eq!(check_scale(None), Ok(()));
}

#[test]
fn outputs_may_not_alias_inputs() {
    assert_eq!(ensure_distinct_paths(b"/data/in.graphml", None), Ok(()));
    assert_eq!(ensure_distinct_paths(b"/data/in.graphml", Some(&b"/data/out.graphml"[..])), Ok(()));
    assert_eq!(ensure_distinct_paths(b"/data/in.graphml", Some(&b"/data/in.graphml"[..])), Err(PathError::SamePath));
}
