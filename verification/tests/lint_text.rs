use effectful::lint_text::{
    attr_is_test_like, boundary_ok_for_run, count_substr, effect_interop_skip_crate, effect_style_late_skip_crate,
    is_std_time_instant_now, new_async_snippet_suggests_run_env_across_await, path_is_tests_examples_or_benches,
    reports_raw_tracing, snippet_has_legacy_postfix_tilde,
};

#[test]
fn returns_zero_when_needle_missing() {
    assert_eq!(count_substr("hello", "x"), 0);
}

#[test]
fn counts_non_overlapping_occurrences() {
    assert_eq!(count_substr("ababab", "ab"), 3);
}

#[test]
fn counts_effect_macro_invocations_in_snippet() {
    let sn = "let a = effect!(|r| { 1 });\nlet b = effect!(|r| { 2 });";
    assert_eq!(count_substr(sn, "effect!("), 2);
}

#[test]
fn count_substr_with_edge_inputs() {
    assert_eq!(count_substr("", "a"), 0);
    assert_eq!(count_substr("abc", "x"), 0);
    assert_eq!(count_substr("aaaa", "aa"), 2);
    assert_eq!(count_substr("aaa", "aa"), 1);
    assert_eq!(count_substr("abc", ""), 4);
    assert_eq!(count_substr("", ""), 1);
}

#[test]
fn detects_obsolete_postfix_form() {
    assert!(snippet_has_legacy_postfix_tilde("effect!(|_r| {\n    x ~ foo();\n})\n"));
}

#[test]
fn allows_prefix_tilde_bind() {
    assert!(!snippet_has_legacy_postfix_tilde("effect!(|_r| {\n    let x = ~foo();\n})\n"));
}

#[test]
fn ignores_comment_lines() {
    assert!(!snippet_has_legacy_postfix_tilde("// x ~ foo();\nlet y = ~bar();\n"));
}

#[test]
fn legacy_tilde_edge_cases() {
    assert!(snippet_has_legacy_postfix_tilde("a_1 ~ b"));
    assert!(snippet_has_legacy_postfix_tilde("  x ~ y\r\n"));
    assert!(!snippet_has_legacy_postfix_tilde("let x ~ y"));
    assert!(!snippet_has_legacy_postfix_tilde(" ~ y"));
    assert!(!snippet_has_legacy_postfix_tilde("x.y ~ z"));
    assert!(!snippet_has_legacy_postfix_tilde("/* x ~ y */"));
    assert!(!snippet_has_legacy_postfix_tilde(" * x ~ y"));
    assert!(!snippet_has_legacy_postfix_tilde("x~y"));
    assert!(snippet_has_legacy_postfix_tilde("ok\nfoo bar ~ baz"));
    assert!(!snippet_has_legacy_postfix_tilde(""));
}

#[test]
fn path_boundary_returns_true_for_harness_dirs() {
    for path in [
        "/home/u/proj/my-crate/tests/integration.rs",
        "/home/u/proj/my-crate/examples/demo.rs",
        "/home/u/proj/my-crate/benches/throughput.rs",
        "/home/u/proj/my-crate/src/bin/cli.rs",
        "/home/u/proj/my-crate/src/main.rs",
        r"C:\proj\my-crate\tests\foo.rs",
        r"C:\proj\my-crate\examples\foo.rs",
        r"C:\proj\my-crate\benches\foo.rs",
        r"C:\proj\my-crate\src\bin\tool.rs",
        r"C:\proj\my-crate\src\main.rs",
    ] {
        assert!(path_is_tests_examples_or_benches(path), "{path}");
    }
}

#[test]
fn path_boundary_returns_false_for_library_sources() {
    for path in [
        "/home/u/proj/my-crate/src/lib.rs",
        "/home/u/proj/my-crate/src/thing/mod.rs",
        "",
        "/home/proj-footests/src/lib.rs",
    ] {
        assert!(!path_is_tests_examples_or_benches(path), "{path}");
    }
}

#[test]
fn test_like_attributes_are_recognised() {
    assert!(attr_is_test_like("test"));
    assert!(attr_is_test_like("tokio::test"));
    assert!(attr_is_test_like("effectful::test"));
    assert!(attr_is_test_like("rstest"));
    assert!(attr_is_test_like("rstest::rstest"));
    assert!(!attr_is_test_like("inline"));
    assert!(!attr_is_test_like("tests"));
    assert!(!attr_is_test_like("testing"));
}

#[test]
fn run_boundary_allows_closures_main_blocking_tests_and_harness_files() {
    assert!(boundary_ok_for_run(true, "load", false, None));
    assert!(boundary_ok_for_run(false, "main", false, None));
    assert!(boundary_ok_for_run(false, "load_blocking", false, Some("/w/src/lib.rs")));
    assert!(boundary_ok_for_run(false, "load", true, None));
    assert!(boundary_ok_for_run(false, "load", false, Some("/w/crates/a/tests/it.rs")));
    assert!(!boundary_ok_for_run(false, "load", false, Some("/w/crates/a/src/lib.rs")));
    assert!(!boundary_ok_for_run(false, "load", false, None));
    assert!(!boundary_ok_for_run(false, "mainly", false, None));
}

#[test]
fn crates_skipped_by_each_pass() {
    assert!(effect_style_late_skip_crate("forge_app"));
    assert!(effect_style_late_skip_crate("effect_logger"));
    assert!(effect_style_late_skip_crate("effect_macro"));
    assert!(effect_style_late_skip_crate("effect_proc_macro"));
    assert!(!effect_style_late_skip_crate("effect"));
    assert!(!effect_style_late_skip_crate("app_forge_"));

    assert!(effect_interop_skip_crate("effect"));
    assert!(effect_interop_skip_crate("effect_config"));
    assert!(effect_interop_skip_crate("effect_dylint_rules"));
    assert!(!effect_interop_skip_crate("forge_app"));
    assert!(!effect_interop_skip_crate("effects"));
}

#[test]
fn raw_tracing_is_reported_outside_the_effect_crates() {
    assert!(reports_raw_tracing(Some("app"), &["tracing", "info"]));
    assert!(!reports_raw_tracing(Some("app"), &["tracing"]));
    assert!(!reports_raw_tracing(Some("app"), &["log", "info"]));
    assert!(!reports_raw_tracing(Some("effect_logger"), &["tracing", "info"]));
    assert!(!reports_raw_tracing(Some("forge_x"), &["tracing", "info"]));
    assert!(!reports_raw_tracing(None, &["tracing", "info"]));
}

#[test]
fn instant_now_paths() {
    assert!(is_std_time_instant_now("std::time::Instant::now"));
    assert!(is_std_time_instant_now("tokio::time::Instant::now"));
    assert!(!is_std_time_instant_now("std::time::Instant::elapsed"));
    assert!(!is_std_time_instant_now("Instant::now"));
}

#[test]
fn new_async_snippet_needs_both_run_and_await() {
    assert!(new_async_snippet_suggests_run_env_across_await("|r| async move { inner.run(r).await }"));
    assert!(!new_async_snippet_suggests_run_env_across_await("|_r| async move { fetch().await }"));
    assert!(!new_async_snippet_suggests_run_env_across_await("|r| inner.run(r)"));
}
