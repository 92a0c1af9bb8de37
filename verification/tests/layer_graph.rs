use effectful::layer_graph::{
    LayerGraph, LayerMissingProvider, LayerNode, LayerPlannerError,
};

fn node(id: &str, required: &[&str], provided: &[&str]) -> LayerNode {
    LayerNode::new(id, required, provided)
}

#[test]
fn plan_topological_with_acyclic_dependencies_orders_nodes_in_dependency_order() {
    let graph = LayerGraph::new(vec![
        node("repo", &["Db", "Cache"], &["Repo"]),
        node("api", &["Repo"], &["Api"]),
        node("db", &[], &["Db"]),
        node("cache", &[], &["Cache"]),
    ]);
    let plan = graph.plan_topological().expect("plan should succeed");
    assert_eq!(plan.build_order, ["cache", "db", "repo", "api"]);
}

#[test]
fn layer_graph_topo_sort_with_mutable_list_matches_original() {
    let graph = LayerGraph::new(vec![
        node("db", &[], &["Db"]),
        node("cache", &[], &["Cache"]),
        node("repo", &["Db", "Cache"], &["Repo"]),
        node("api", &["Repo"], &["Api"]),
    ]);
    let plan = graph.plan_topological().expect("plan should succeed");
    let pos = |id: &str, order: &[String]| order.iter().position(|n| n == id).expect("node must exist");
    let o = plan.build_order.as_slice();
    assert!(pos("db", o) < pos("repo", o));
    assert!(pos("cache", o) < pos("repo", o));
    assert!(pos("repo", o) < pos("api", o));
}

#[test]
fn plan_topological_with_no_nodes_returns_empty_build_order() {
    let graph = LayerGraph::new(Vec::new());
    let plan = graph.plan_topological().expect("empty graph should succeed");
    assert!(plan.build_order.is_empty());
}

#[test]
fn plan_topological_with_duplicate_node_ids_returns_duplicate_node_id_error() {
    let graph = LayerGraph::new(vec![node("db", &[], &["Db"]), node("db", &[], &["DbShadow"])]);
    let err = graph.plan_topological().expect_err("duplicate id should fail");
    assert_eq!(err, LayerPlannerError::DuplicateNodeId { id: String::from("db") });
}

#[test]
fn plan_topological_with_conflicting_service_providers_returns_conflicting_provider_error() {
    let graph = LayerGraph::new(vec![node("db_a", &[], &["Db"]), node("db_b", &[], &["Db"])]);
    let err = graph.plan_topological().expect_err("conflicting provider should fail");
    assert_eq!(
        err,
        LayerPlannerError::ConflictingProvider {
            service: String::from("Db"),
            first: String::from("db_a"),
            second: String::from("db_b"),
        }
    );
}

#[test]
fn plan_topological_with_missing_providers_returns_stable_missing_provider_error() {
    let graph = LayerGraph::new(vec![node("repo", &["Queue", "Db"], &["Repo"]), node("api", &["Auth"], &["Api"])]);
    let err = graph.plan_topological().expect_err("missing providers should fail");
    assert_eq!(
        err,
        LayerPlannerError::MissingProviders {
            missing: vec![
                LayerMissingProvider::new("api", "Auth"),
                LayerMissingProvider::new("repo", "Db"),
                LayerMissingProvider::new("repo", "Queue"),
            ],
        }
    );
}

#[test]
fn plan_topological_with_dependency_cycle_returns_cycle_detected_error() {
    let graph = LayerGraph::new(vec![node("a", &["B"], &["A"]), node("b", &["A"], &["B"])]);
    let err = graph.plan_topological().expect_err("cycle should fail");
    assert!(matches!(err, LayerPlannerError::CycleDetected { .. }));
}

#[test]
fn plan_topological_with_self_required_service_does_not_create_self_edge() {
    let graph = LayerGraph::new(vec![node("db", &["Db"], &["Db"])]);
    let plan = graph.plan_topological().expect("self-provided requirement should succeed");
    assert_eq!(plan.build_order, vec![String::from("db")]);
}

#[test]
fn diagnostics_with_valid_graph_returns_empty_diagnostics() {
    let graph = LayerGraph::new(vec![node("db", &[], &["Db"])]);
    assert!(graph.diagnostics().is_empty());
}

fn check_diagnostic(error: LayerPlannerError, code: &str, message: &str, suggestion: &str) {
    let diagnostic = error.to_diagnostic();
    assert_eq!(diagnostic.code, code);
    assert!(diagnostic.message.contains(message));
    assert!(diagnostic.suggestion.contains(suggestion));
}

#[test]
fn to_diagnostic_for_duplicate_returns_expected_code_and_actionable_text() {
    check_diagnostic(
        LayerPlannerError::DuplicateNodeId { id: String::from("db") },
        "duplicate-node-id",
        "duplicate node id",
        "unique",
    );
}

#[test]
fn to_diagnostic_for_conflicting_returns_expected_code_and_actionable_text() {
    check_diagnostic(
        LayerPlannerError::ConflictingProvider {
            service: String::from("Db"),
            first: String::from("db_a"),
            second: String::from("db_b"),
        },
        "conflicting-provider",
        "Multiple providers found",
        "canonical provider",
    );
}

#[test]
fn to_diagnostic_for_missing_returns_expected_code_and_actionable_text() {
    check_diagnostic(
        LayerPlannerError::MissingProviders { missing: vec![LayerMissingProvider::new("repo", "Db")] },
        "missing-provider",
        "requires service `Db`",
        "provider layer",
    );
}

#[test]
fn to_diagnostic_for_cycle_returns_expected_code_and_actionable_text() {
    check_diagnostic(
        LayerPlannerError::CycleDetected { nodes: vec![String::from("a"), String::from("b")] },
        "cycle-detected",
        "dependency cycle",
        "Break the cycle",
    );
}

#[test]
fn diagnostics_with_missing_providers_returns_stable_service_keys() {
    let graph = LayerGraph::new(vec![node("repo", &["Queue", "Db"], &["Repo"]), node("api", &["Auth"], &["Api"])]);
    let diagnostics = graph.diagnostics();
    assert_eq!(diagnostics.len(), 1);
    assert_eq!(diagnostics[0].code, "missing-provider");
    assert!(diagnostics[0].message.contains("`Auth`, `Db`, `Queue`"));
    assert!(diagnostics[0].suggestion.contains("provider"));
}

#[test]
fn layer_graph_plan_clone_is_independent() {
    let graph = LayerGraph::new(vec![node("db", &[], &["Db"]), node("api", &["Db"], &["Api"])]);
    let plan = graph.plan_topological().expect("plan");
    let mut clone = plan.clone();
    clone.build_order.push(String::from("tamper"));
    assert_eq!(plan.build_order.len(), 2);
    assert_eq!(clone.build_order.len(), 3);
    assert!(!plan.build_order.contains(&String::from("tamper")));
}

#[test]
fn diagnostic_messages_are_exact() {
    let d = LayerPlannerError::DuplicateNodeId { id: String::from("db") }.to_diagnostic();
    assert_eq!(d.message, "Layer graph contains duplicate node id `db`.");
    assert_eq!(d.suggestion, "Ensure each layer node has a unique `id`.");
    let d = LayerPlannerError::ConflictingProvider {
        service: String::from("Db"),
        first: String::from("a"),
        second: String::from("b"),
    }
    .to_diagnostic();
    assert_eq!(d.message, "Multiple providers found for service `Db` (`a`, `b`).");
    let d = LayerPlannerError::MissingProvider { node: String::from("repo"), service: String::from("Db") }
        .to_diagnostic();
    assert_eq!(d.code, "missing-provider");
    assert_eq!(d.message, "Layer `repo` requires service `Db` but no provider exists.");
    let d = LayerPlannerError::CycleDetected { nodes: vec![String::from("a"), String::from("b")] }.to_diagnostic();
    assert_eq!(d.message, "Layer dependency cycle detected across nodes: a -> b.");
    let d = LayerPlannerError::MissingProviders {
        missing: vec![
            LayerMissingProvider::new("x", "Q"),
            LayerMissingProvider::new("y", "A"),
            LayerMissingProvider::new("z", "Q"),
        ],
    }
    .to_diagnostic();
    assert_eq!(d.message, "Layer graph requires services `A`, `Q` but no providers exist.");
    assert_eq!(d.suggestion, "Add provider layers for the missing services or remove the dependency edges.");
}

#[test]
fn cycle_reports_the_unbuilt_nodes_sorted() {
    let graph = LayerGraph::new(vec![
        node("root", &[], &["Root"]),
        node("z", &["Y", "Root"], &["Z"]),
        node("y", &["Z"], &["Y"]),
        node("leaf", &["Y"], &["Leaf"]),
    ]);
    let err = graph.plan_topological().expect_err("cycle should fail");
    assert_eq!(
        err,
        LayerPlannerError::CycleDetected { nodes: vec![String::from("leaf"), String::from("y"), String::from("z")] }
    );
}

#[test]
fn build_order_puts_every_node_after_its_providers() {
    let graph = LayerGraph::new(vec![
        node("e", &["D"], &["E"]),
        node("d", &["B", "C"], &["D"]),
        node("c", &["A"], &["C"]),
        node("b", &["A"], &["B"]),
        node("a", &[], &["A"]),
    ]);
    let plan = graph.plan_topological().expect("plan");
    assert_eq!(plan.build_order, ["a", "b", "c", "d", "e"]);
}

#[test]
fn first_duplicate_and_first_conflict_win() {
    let graph = LayerGraph::new(vec![
        node("x", &[], &["S"]),
        node("y", &[], &["S"]),
        node("x", &[], &[]),
    ]);
    assert_eq!(graph.plan_topological(), Err(LayerPlannerError::DuplicateNodeId { id: String::from("x") }));
    let graph = LayerGraph::new(vec![
        node("x", &[], &["S", "T"]),
        node("y", &[], &["T", "S"]),
    ]);
    assert_eq!(
        graph.plan_topological(),
        Err(LayerPlannerError::ConflictingProvider {
            service: String::from("T"),
            first: String::from("x"),
            second: String::from("y"),
        })
    );
}

#[test]
fn missing_providers_are_deduplicated() {
    let graph = LayerGraph::new(vec![node("a", &["Q", "Q"], &[])]);
    assert_eq!(
        graph.plan_topological(),
        Err(LayerPlannerError::MissingProviders { missing: vec![LayerMissingProvider::new("a", "Q")] })
    );
}

#[test]
fn missing_services_are_listed_in_the_order_of_their_quoted_names() {
    let d = LayerPlannerError::MissingProviders {
        missing: vec![
            LayerMissingProvider::new("a", "Db"),
            LayerMissingProvider::new("b", "DbReplica"),
            LayerMissingProvider::new("c", "Db"),
        ],
    }
    .to_diagnostic();
    assert_eq!(d.message, "Layer graph requires services `DbReplica`, `Db` but no providers exist.");
}

#[test]
fn services_already_present_satisfy_requirements_in_diagnostics() {
    let graph = LayerGraph::new(vec![node("repo", &["Db"], &["Repo"])]);
    assert!(graph.diagnostics_with_services(&["Db"]).is_empty());
    let d = graph.diagnostics_with_services(&["Cache"]);
    assert_eq!(d.len(), 1);
    assert_eq!(d[0].code, "missing-provider");
    assert_eq!(d[0].message, "Layer `repo` requires service `Db` but no provider exists.");
    let dup = graph.diagnostics_with_services(&["repo"]);
    assert_eq!(dup[0].code, "duplicate-node-id");
}
