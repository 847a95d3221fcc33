use pg_bart::forest::serialize_forest;
use pg_bart::posterior::{
    build_excluded_mask, flatten_size, output_shape, plan_posterior, resolve_seed, resolve_size,
    sample_draw_indices, DrawIndexError, PosteriorDraws, PosteriorError,
};
use pg_bart::tree::DecisionTree;

fn forest(v: f64) -> Vec<DecisionTree> {
    vec![DecisionTree::new(v.to_bits())]
}

#[test]
fn record_step_skips_tuning() {
    let mut d = PosteriorDraws::new();
    d.record_step(true, forest(1.0));
    assert_eq!(d.len(), 0);
    d.record_step(false, forest(2.0));
    assert_eq!(d.len(), 1);
    assert_eq!(d.draws()[0], forest(2.0));
}

#[test]
fn export_draw_as_bytes_serializes_the_draw() {
    let mut d = PosteriorDraws::new();
    d.record_step(false, forest(2.0));
    assert_eq!(d.export_draw_as_bytes(0).unwrap(), serialize_forest(&forest(2.0)));
    assert_eq!(
        d.export_draw_as_bytes(3).unwrap_err(),
        DrawIndexError { draw_idx: 3, n_draws: 1 }
    );
}

#[test]
fn load_all_trees_from_bytes_replaces_draws() {
    let mut d = PosteriorDraws::new();
    d.record_step(false, forest(9.0));
    let blobs = vec![serialize_forest(&forest(1.0)), serialize_forest(&forest(2.0))];
    assert!(d.load_all_trees_from_bytes(blobs).is_ok());
    assert_eq!(d.len(), 2);
    assert_eq!(d.draws()[1], forest(2.0));
}

#[test]
fn load_all_trees_from_bytes_reports_first_bad_blob() {
    let mut d = PosteriorDraws::new();
    d.record_step(false, forest(9.0));
    let mut bad = serialize_forest(&forest(1.0));
    bad.push(7);
    let blobs = vec![serialize_forest(&forest(1.0)), bad, vec![1]];
    let err = d.load_all_trees_from_bytes(blobs).unwrap_err();
    assert_eq!(err.index, 1);
    assert_eq!(err.message, "Trailing bytes after decoding forest.");
    assert_eq!(d.len(), 1);
    assert_eq!(d.draws()[0], forest(9.0));
}

#[test]
fn resolve_size_defaults_to_one() {
    assert_eq!(resolve_size(None), vec![1]);
    assert_eq!(resolve_size(Some(vec![])), vec![1]);
    assert_eq!(resolve_size(Some(vec![2, 3])), vec![2, 3]);
}

#[test]
fn flatten_size_multiplies() {
    assert_eq!(flatten_size(&vec![2, 3, 4]), 24);
    assert_eq!(flatten_size(&vec![5, 0]), 0);
    assert_eq!(flatten_size(&vec![]), 1);
}

#[test]
fn build_excluded_mask_ignores_out_of_range() {
    assert_eq!(build_excluded_mask(&vec![2, 0, 9, 2], 4), vec![true, false, true, false]);
}

#[test]
fn output_shape_appends_obs_and_shape() {
    assert_eq!(output_shape(&vec![2, 3], 10, 1), vec![2, 3, 10, 1]);
}

#[test]
fn sample_draw_indices_in_range_and_seeded() {
    let a = sample_draw_indices(Some(42), 50, 7);
    let b = sample_draw_indices(Some(42), 50, 7);
    assert_eq!(a.len(), 50);
    assert!(a.iter().all(|&i| i < 7));
    assert_eq!(a, b);
    assert_eq!(sample_draw_indices(None, 5, 3), sample_draw_indices(Some(0xD1CE_BA5E), 5, 3));
}

#[test]
fn plan_posterior_refusals() {
    assert_eq!(
        plan_posterior(3, 5, 2, None, None, 2, None).err(),
        Some(PosteriorError::VectorLeaves)
    );
    assert_eq!(
        plan_posterior(0, 5, 2, None, None, 1, None).err(),
        Some(PosteriorError::NoDraws)
    );
    assert!(PosteriorError::NoDraws.message().starts_with("No posterior draws stored in Rust yet."));
}

#[test]
fn plan_posterior_builds_plan() {
    let plan = plan_posterior(3, 5, 2, Some(vec![2, 2]), Some(vec![1]), 1, Some(7)).unwrap();
    assert_eq!(plan.out_shape, vec![2, 2, 5, 1]);
    assert_eq!(plan.draw_indices.len(), 4);
    assert!(plan.draw_indices.iter().all(|&i| i < 3));
    assert_eq!(plan.excluded_mask, Some(vec![false, true]));
}

#[test]
fn resolve_seed_defaults() {
    assert_eq!(resolve_seed(Some(5)), 5);
    assert_eq!(resolve_seed(None), 0xD1CE_BA5E);
}

#[test]
fn plan_posterior_refuses_before_sizing() {
    assert_eq!(
        plan_posterior(0, 5, 2, Some(vec![usize::MAX, 2]), None, 1, None).err(),
        Some(PosteriorError::NoDraws)
    );
    assert_eq!(
        plan_posterior(3, 5, 2, Some(vec![usize::MAX, 2]), None, 4, None).err(),
        Some(PosteriorError::VectorLeaves)
    );
}
