use std::sync::atomic::{AtomicU32, Ordering};
use std::sync::Arc;

use effectful::typed_layer::{validate_requirements_with_planner, LayerError, TypedLayer, TypedLayerExt};

type Recipe = Box<dyn Fn() -> Result<u32, LayerError> + Send + Sync>;

fn layer(value: u32) -> TypedLayer<u32, LayerError, Recipe> {
    TypedLayer::from_fn(Box::new(move || Ok(value)) as Recipe)
}

#[test]
fn providing_and_requiring_keep_sorted_sets() {
    let l = layer(1).providing("Db").providing("Cache").providing("Db").requiring("Config");
    assert_eq!(l.provides(), &vec!["Cache".to_string(), "Db".to_string()]);
    assert_eq!(l.requirements(), &vec!["Config".to_string()]);
    assert_eq!(l.build(), Ok(1));
}

#[test]
fn with_requirements_collects_a_set() {
    let l: TypedLayer<u32, LayerError, Recipe> =
        TypedLayer::with_requirements(Box::new(|| Ok(3u32)) as Recipe, vec!["B".to_string(), "A".to_string(), "B".to_string()]);
    assert_eq!(l.requirements(), &vec!["A".to_string(), "B".to_string()]);
    assert!(l.provides().is_empty());
}

#[test]
fn build_with_dependencies_reports_missing_services_sorted() {
    let l = layer(7).requiring("Db").requiring("Auth").requiring("Config");
    assert_eq!(l.build_with_dependencies(&["Config"]), Err(LayerError::MissingDependencies {
        missing: vec!["Auth".to_string(), "Db".to_string()],
    }));
    assert_eq!(l.build_with_dependencies(&["Config", "Db", "Auth", "Extra"]), Ok(7));
}

#[test]
fn validation_reports_missing_services_whatever_the_available_names() {
    let required = vec!["Db".to_string()];
    assert_eq!(validate_requirements_with_planner("L", &required, &["Db"]), Ok(()));
    assert_eq!(validate_requirements_with_planner("L", &required, &["Db", "Db"]), Ok(()));
    assert_eq!(
        validate_requirements_with_planner("L", &required, &[]),
        Err(LayerError::MissingDependencies { missing: vec!["Db".to_string()] })
    );
    // repeated names and a service named like the layer do not hide a missing requirement
    assert_eq!(
        validate_requirements_with_planner("L", &required, &["Config", "Config"]),
        Err(LayerError::MissingDependencies { missing: vec!["Db".to_string()] })
    );
    assert_eq!(
        validate_requirements_with_planner("L", &required, &["L"]),
        Err(LayerError::MissingDependencies { missing: vec!["Db".to_string()] })
    );
    let l = layer(5).requiring("Db");
    assert_eq!(
        l.build_with_dependencies(&["TypedLayer", "Config", "Config"]),
        Err(LayerError::MissingDependencies { missing: vec!["Db".to_string()] })
    );
    let needs_self = layer(6).requiring("TypedLayer");
    assert_eq!(needs_self.build_with_dependencies(&["TypedLayer"]), Ok(6));
}

#[test]
fn layer_error_diagnostic_uses_planner_messages() {
    let one = LayerError::MissingDependencies { missing: vec!["Db".to_string()] }.to_diagnostic();
    assert_eq!(one.code, "missing-provider");
    assert_eq!(one.message, "Layer `TypedLayer` requires service `Db` but no provider exists.");
    let two = LayerError::MissingDependencies { missing: vec!["Q".to_string(), "A".to_string()] }.to_diagnostic();
    assert_eq!(two.message, "Layer graph requires services `A`, `Q` but no providers exist.");
}

#[test]
fn merge_all_unions_provides_and_drops_satisfied_requirements() {
    let a = layer(1).providing("Db").requiring("Config");
    let b = layer(2).providing("Repo").requiring("Db").requiring("Cache");
    let merged = TypedLayer::merge_all(vec![a, b]);
    assert_eq!(merged.provides(), &vec!["Db".to_string(), "Repo".to_string()]);
    assert_eq!(merged.requirements(), &vec!["Cache".to_string(), "Config".to_string()]);
}

#[test]
fn memoized_layer_builds_once() {
    let calls = Arc::new(AtomicU32::new(0));
    let c = calls.clone();
    let l: TypedLayer<u32, LayerError, Recipe> = TypedLayer::from_fn(Box::new(move || {
        Ok(c.fetch_add(1, Ordering::SeqCst) + 10)
    }) as Recipe);
    let mut m = l.providing("Counter").memoized();
    assert_eq!(m.build(), Ok(10));
    assert_eq!(m.build(), Ok(10));
    assert_eq!(calls.load(Ordering::SeqCst), 1);
    assert_eq!(m.provides(), &vec!["Counter".to_string()]);
    assert!(m.requirements().is_empty());
}
