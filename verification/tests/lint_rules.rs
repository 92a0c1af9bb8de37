use effectful::lint_rules::{
    classify_callee, reports_raw_get_bound, where_bounds_checked, CalleeFacts, ItemKind, effect_interop_call_finding, effect_interop_fn_reports_legacy_tilde, effect_style_call_findings,
    effect_style_fn_findings, CallFinding, EffectCallee, FnFacts, StyleFinding,
};

fn facts(name: &str, success_is_param: Option<bool>, body: Option<&str>) -> FnFacts {
    FnFacts {
        crate_name: "app".to_string(),
        is_closure: false,
        is_trait_item: false,
        is_async: false,
        has_test_attr: false,
        file_path: Some("/w/crates/app/src/lib.rs".to_string()),
        name: name.to_string(),
        effect_success_is_type_param: success_is_param,
        unbounded_type_params: 0,
        body_snippet: body.map(|b| b.to_string()),
    }
}

#[test]
fn well_formed_effect_function_has_no_findings() {
    let f = facts("load", Some(true), Some("effect!(|r| { 1 })"));
    assert_eq!(effect_style_fn_findings(&f), vec![]);
}

#[test]
fn function_not_returning_effect_has_no_findings() {
    let f = facts("load_effect", None, Some("1 + 1"));
    assert_eq!(effect_style_fn_findings(&f), vec![]);
}

#[test]
fn style_findings_come_in_pass_order() {
    let mut f = facts("load_effect", Some(false), Some("effect!(|r| { 1 }); effect!(|r| { 2 })"));
    f.unbounded_type_params = 2;
    assert_eq!(
        effect_style_fn_findings(&f),
        vec![
            StyleFinding::NoEffectSuffixOnGraphBuilder,
            StyleFinding::SuccessShouldBeFnTypeParam,
            StyleFinding::EffectGenericsNeedBounds,
            StyleFinding::EffectGenericsNeedBounds,
            StyleFinding::MultipleTopLevelEffectMacros,
        ]
    );
}

#[test]
fn blocking_suffix_is_allowed_and_missing_macro_is_reported() {
    let f = facts("load_effect_blocking", Some(true), Some("succeed(1)"));
    assert_eq!(effect_style_fn_findings(&f), vec![StyleFinding::ReturningEffectShouldUseEffectMacro]);
}

#[test]
fn async_application_function_is_reported_outside_harness_files() {
    let mut f = facts("handler", None, None);
    f.is_async = true;
    assert_eq!(effect_style_fn_findings(&f), vec![StyleFinding::NoAsyncFnApplication]);
    f.file_path = Some("/w/crates/app/tests/it.rs".to_string());
    assert_eq!(effect_style_fn_findings(&f), vec![]);
    f.file_path = None;
    assert_eq!(effect_style_fn_findings(&f), vec![]);
    f.file_path = Some("/w/crates/app/src/lib.rs".to_string());
    f.has_test_attr = true;
    assert_eq!(effect_style_fn_findings(&f), vec![]);
}

#[test]
fn async_effect_function_skips_success_and_macro_rules() {
    let mut f = facts("fetch", Some(false), Some("no macro here"));
    f.is_async = true;
    f.file_path = None;
    assert_eq!(effect_style_fn_findings(&f), vec![]);
}

#[test]
fn skipped_crates_closures_and_trait_items_have_no_findings() {
    let mut f = facts("load_effect", Some(false), None);
    f.crate_name = "forge_core".to_string();
    assert_eq!(effect_style_fn_findings(&f), vec![]);
    let mut g = facts("load_effect", Some(false), None);
    g.is_closure = true;
    assert_eq!(effect_style_fn_findings(&g), vec![]);
    let mut h = facts("load_effect", Some(false), None);
    h.is_trait_item = true;
    assert_eq!(effect_style_fn_findings(&h), vec![]);
}

#[test]
fn interop_reports_postfix_tilde_in_effect_functions() {
    let body = "effect!(|_r| {\n    x ~ foo();\n})\n";
    let f = facts("load", Some(true), Some(body));
    assert!(effect_interop_fn_reports_legacy_tilde(&f));
    let g = facts("load", None, Some(body));
    assert!(!effect_interop_fn_reports_legacy_tilde(&g));
    let mut h = facts("load", Some(true), Some(body));
    h.crate_name = "effect".to_string();
    assert!(!effect_interop_fn_reports_legacy_tilde(&h));
    let k = facts("load", Some(true), Some("effect!(|_r| {\n    let x = ~foo();\n})\n"));
    assert!(!effect_interop_fn_reports_legacy_tilde(&k));
    let n = facts("load", Some(true), None);
    assert!(!effect_interop_fn_reports_legacy_tilde(&n));
}

#[test]
fn run_calls_outside_boundary_are_reported() {
    assert_eq!(
        effect_style_call_findings("app", EffectCallee::RunBlocking, false, None),
        vec![CallFinding::RunBlockingOutsideBoundary]
    );
    assert_eq!(effect_style_call_findings("app", EffectCallee::RunBlocking, true, None), vec![]);
    assert_eq!(
        effect_style_call_findings("app", EffectCallee::RunAsync, false, None),
        vec![CallFinding::RunAsyncOutsideBoundary]
    );
    assert_eq!(effect_style_call_findings("effect_macro", EffectCallee::RunAsync, false, None), vec![]);
}

#[test]
fn new_async_and_from_async_rules() {
    assert_eq!(
        effect_style_call_findings("app", EffectCallee::NewAsync, true, Some("|_r| async { a().await }")),
        vec![CallFinding::PreferFromAsyncOverNewAsync]
    );
    assert_eq!(
        effect_style_call_findings("app", EffectCallee::NewAsync, true, Some("|r| async move { e.run(r).await }")),
        vec![]
    );
    assert_eq!(
        effect_style_call_findings("app", EffectCallee::FromAsync, true, Some("async { a().await; b().await }")),
        vec![CallFinding::FromAsyncSingleAwait]
    );
    assert_eq!(effect_style_call_findings("app", EffectCallee::FromAsync, true, Some("async { a().await }")), vec![]);
    assert_eq!(effect_style_call_findings("app", EffectCallee::Other, false, None), vec![]);
}

#[test]
fn interop_call_rules() {
    assert_eq!(
        effect_interop_call_finding("app", EffectCallee::New, false),
        Some(CallFinding::NoEffectNewOutsideEffectCrate)
    );
    assert_eq!(
        effect_interop_call_finding("app", EffectCallee::InstantNow, false),
        Some(CallFinding::NoInstantNowOutsideBoundary)
    );
    assert_eq!(effect_interop_call_finding("app", EffectCallee::New, true), None);
    assert_eq!(effect_interop_call_finding("effect", EffectCallee::New, false), None);
    assert_eq!(effect_interop_call_finding("app", EffectCallee::RunBlocking, false), None);
}

fn callee(krate: &str, item: &str, in_effect_impl: bool, path: &str) -> CalleeFacts {
    CalleeFacts {
        crate_name: krate.to_string(),
        item_name: item.to_string(),
        in_effect_impl,
        def_path: path.to_string(),
    }
}

#[test]
fn callees_are_classified_by_crate_name_and_impl() {
    assert_eq!(classify_callee(&callee("effect", "run_blocking", false, "effect::run_blocking")), EffectCallee::RunBlocking);
    assert_eq!(classify_callee(&callee("effect", "run_async", false, "effect::run_async")), EffectCallee::RunAsync);
    assert_eq!(classify_callee(&callee("effect", "new_async", true, "effect::Effect::new_async")), EffectCallee::NewAsync);
    assert_eq!(classify_callee(&callee("effect", "from_async", false, "effect::from_async")), EffectCallee::FromAsync);
    assert_eq!(classify_callee(&callee("effect", "new", true, "effect::Effect::new")), EffectCallee::New);
    assert_eq!(classify_callee(&callee("std", "now", false, "std::time::Instant::now")), EffectCallee::InstantNow);
    assert_eq!(classify_callee(&callee("app", "run_blocking", false, "app::run_blocking")), EffectCallee::Other);
    assert_eq!(classify_callee(&callee("effect", "new", false, "effect::Queue::new")), EffectCallee::Other);
}

#[test]
fn where_bounds_are_checked_except_on_needs_traits() {
    assert!(where_bounds_checked("app", ItemKind::Fn, "load", None));
    assert!(where_bounds_checked("app", ItemKind::Trait, "Repo", None));
    assert!(!where_bounds_checked("app", ItemKind::Trait, "NeedsDb", None));
    assert!(where_bounds_checked("app", ItemKind::Impl, "", Some("Display")));
    assert!(where_bounds_checked("app", ItemKind::Impl, "", None));
    assert!(!where_bounds_checked("app", ItemKind::Impl, "", Some("NeedsDb")));
    assert!(where_bounds_checked("app", ItemKind::TypeDef, "Wrapper", None));
    assert!(!where_bounds_checked("app", ItemKind::Other, "x", None));
    assert!(!where_bounds_checked("effect_config", ItemKind::Fn, "load", None));
}

#[test]
fn only_raw_get_bounds_of_the_effect_crate_are_reported() {
    assert!(reports_raw_get_bound("effect", "Get"));
    assert!(reports_raw_get_bound("effect", "GetMut"));
    assert!(!reports_raw_get_bound("effect", "GetOption"));
    assert!(!reports_raw_get_bound("other", "Get"));
}
