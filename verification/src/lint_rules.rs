//! The decisions of the effect style lints: given what the compiler reports
//! about a function or a call (plain facts), which findings are reported.
use vstd::prelude::*;

use crate::lint_text::{
    count_matches, count_substr, effect_interop_skip_crate, effect_style_late_skip_crate,
    ends_with, ends_with_str, instant_now_path, interop_lints_skip_crate, is_std_time_instant_now, is_harness_path, legacy_tilde_line, lines,
    new_async_snippet_suggests_run_env_across_await, path_is_tests_examples_or_benches,
    snippet_has_legacy_postfix_tilde, style_lints_skip_crate,
};
use crate::text::{chars_equal, has_sub, matches_at, starts_with, str_chars};

verus! {

/// What the style and interop passes know about one function.
pub struct FnFacts {
    /// Name of the crate being checked.
    pub crate_name: String,
    /// The function is a closure.
    pub is_closure: bool,
    /// The function is a trait item or belongs to a trait impl.
    pub is_trait_item: bool,
    /// The function is `async`.
    pub is_async: bool,
    /// The function carries a test attribute.
    pub has_test_attr: bool,
    /// Path of the source file, when known.
    pub file_path: Option<String>,
    /// The function's name.
    pub name: String,
    /// `Some(is_param)` when the function's result is `Effect<A, ..>`: whether `A`
    /// is one of the function's type parameters.
    pub effect_success_is_type_param: Option<bool>,
    /// Type parameters (not `impl Trait` ones) with no bound at all.
    pub unbounded_type_params: usize,
    /// Source text of the body, when available.
    pub body_snippet: Option<String>,
}

/// Findings of the style pass on a function, in the order it reports them.
#[derive(Clone, Copy, Debug, PartialEq, Eq)]
pub enum StyleFinding {
    /// `async fn` in application code.
    NoAsyncFnApplication,
    /// A function returning `Effect` named `..._effect`.
    NoEffectSuffixOnGraphBuilder,
    /// The `Effect` success type is not a type parameter of the function.
    SuccessShouldBeFnTypeParam,
    /// A type parameter without any bound (one finding per parameter).
    EffectGenericsNeedBounds,
    /// More than one `effect!(` in the body.
    MultipleTopLevelEffectMacros,
    /// No `effect!(` in the body.
    ReturningEffectShouldUseEffectMacro,
}

/// The optional text as characters.
pub open spec fn opt_view(s: Option<String>) -> Option<Seq<char>> {
    match s {
        Some(x) => Some(x@),
        None => None,
    }
}

/// The style findings for a function.
pub open spec fn style_findings(f: FnFacts) -> Seq<StyleFinding> {
    if style_lints_skip_crate(f.crate_name@) || f.is_closure || f.is_trait_item {
        Seq::empty()
    } else {
        let gives_effect = f.effect_success_is_type_param is Some;
        let async_app = f.is_async && !f.has_test_attr && (opt_view(f.file_path) matches Some(p) && !is_harness_path(p));
        let suffix = gives_effect && ends_with(f.name@, "_effect"@) && !ends_with(f.name@, "_blocking"@);
        let concrete = gives_effect && !f.is_async && f.effect_success_is_type_param == Some(false);
        let bounds = if gives_effect {
            Seq::new(f.unbounded_type_params as nat, |i: int| StyleFinding::EffectGenericsNeedBounds)
        } else {
            Seq::empty()
        };
        let macros = if gives_effect && !f.is_async && f.body_snippet is Some {
            let n = count_matches(f.body_snippet->0@, "effect!("@);
            if n > 1 {
                seq![StyleFinding::MultipleTopLevelEffectMacros]
            } else if n == 0 {
                seq![StyleFinding::ReturningEffectShouldUseEffectMacro]
            } else {
                Seq::empty()
            }
        } else {
            Seq::empty()
        };
        (if async_app { seq![StyleFinding::NoAsyncFnApplication] } else { Seq::empty() })
            + (if suffix { seq![StyleFinding::NoEffectSuffixOnGraphBuilder] } else { Seq::empty() })
            + (if concrete { seq![StyleFinding::SuccessShouldBeFnTypeParam] } else { Seq::empty() }) + bounds + macros
    }
}

/// Appends `x` to `v`.
fn push_finding(v: &mut Vec<StyleFinding>, x: StyleFinding, Ghost(s): Ghost<Seq<StyleFinding>>)
    requires
        old(v)@ == s,
    ensures
        final(v)@ == s + seq![x],
{
    v.push(x);
    assert(v@ =~= s + seq![x]);
}

/// The style findings for a function (the style pass's function check).
pub fn effect_style_fn_findings(f: &FnFacts) -> (r: Vec<StyleFinding>)
    requires
        f.body_snippet matches Some(s) ==> s@.len() < usize::MAX,
    ensures
        r@ == style_findings(*f),
{
    let mut r: Vec<StyleFinding> = Vec::new();
    if effect_style_late_skip_crate(f.crate_name.as_str()) || f.is_closure || f.is_trait_item {
        return r;
    }
    let gives_effect = f.effect_success_is_type_param.is_some();
    let name = str_chars(f.name.as_str());
    let async_app = f.is_async && !f.has_test_attr && match &f.file_path {
        Some(p) => !path_is_tests_examples_or_benches(p.as_str()),
        None => false,
    };
    let ghost s0 = r@;
    if async_app {
        push_finding(&mut r, StyleFinding::NoAsyncFnApplication, Ghost(s0));
    }
    let ghost s1 = r@;
    let suffix = gives_effect && ends_with_str(&name, "_effect") && !ends_with_str(&name, "_blocking");
    if suffix {
        push_finding(&mut r, StyleFinding::NoEffectSuffixOnGraphBuilder, Ghost(s1));
    }
    let ghost s2 = r@;
    let concrete = match f.effect_success_is_type_param {
        Some(p) => !p && !f.is_async,
        None => false,
    };
    if concrete {
        push_finding(&mut r, StyleFinding::SuccessShouldBeFnTypeParam, Ghost(s2));
    }
    let ghost s3 = r@;
    if gives_effect {
        let mut k: usize = 0;
        while k < f.unbounded_type_params
            invariant
                k <= f.unbounded_type_params,
                r@ == s3 + Seq::new(k as nat, |i: int| StyleFinding::EffectGenericsNeedBounds),
            decreases f.unbounded_type_params - k,
        {
            let ghost before = r@;
            r.push(StyleFinding::EffectGenericsNeedBounds);
            proof {
                assert(r@ =~= s3 + Seq::new((k + 1) as nat, |i: int| StyleFinding::EffectGenericsNeedBounds));
            }
            k = k + 1;
        }
    }
    let ghost s4 = r@;
    if gives_effect && !f.is_async {
        match &f.body_snippet {
            Some(sn) => {
                let n = count_substr(sn.as_str(), "effect!(");
                if n > 1 {
                    push_finding(&mut r, StyleFinding::MultipleTopLevelEffectMacros, Ghost(s4));
                } else if n == 0 {
                    push_finding(&mut r, StyleFinding::ReturningEffectShouldUseEffectMacro, Ghost(s4));
                }
            },
            None => {},
        }
    }
    proof {
        let ghost expected = style_findings(*f);
        assert(s4 == s3 + (if gives_effect { Seq::new(f.unbounded_type_params as nat, |i: int| StyleFinding::EffectGenericsNeedBounds) } else { Seq::<StyleFinding>::empty() })) by {
            if !gives_effect {
                assert(s4 =~= s3 + Seq::<StyleFinding>::empty());
            }
        }
        assert(r@ =~= expected);
    }
    r
}

/// The interop pass reports the obsolete postfix `~` in a function returning
/// `Effect` whose body snippet holds it.
pub open spec fn interop_reports_legacy_tilde(f: FnFacts) -> bool {
    &&& !interop_lints_skip_crate(f.crate_name@)
    &&& !f.is_closure
    &&& !f.is_trait_item
    &&& f.effect_success_is_type_param is Some
    &&& !f.is_async
    &&& match opt_view(f.body_snippet) {
        Some(sn) => snippet_has_tilde(sn),
        None => false,
    }
}

/// Some line of the snippet uses the obsolete postfix `~`.
pub open spec fn snippet_has_tilde(sn: Seq<char>) -> bool {
    exists|i: int| 0 <= i < lines(sn).len() && legacy_tilde_line(#[trigger] lines(sn)[i])
}

/// Whether the interop pass reports the obsolete postfix `~` in this function.
pub fn effect_interop_fn_reports_legacy_tilde(f: &FnFacts) -> (b: bool)
    ensures
        b == interop_reports_legacy_tilde(*f),
{
    if effect_interop_skip_crate(f.crate_name.as_str()) || f.is_closure || f.is_trait_item {
        return false;
    }
    if f.effect_success_is_type_param.is_none() || f.is_async {
        return false;
    }
    match &f.body_snippet {
        Some(sn) => {
            let b = snippet_has_legacy_postfix_tilde(sn.as_str());
            proof {
                assert(opt_view(f.body_snippet) == Some(sn@));
                assert(b == snippet_has_tilde(sn@));
            }
            b
        },
        None => false,
    }
}

/// What kind of effect-system function a call targets.
#[derive(Clone, Copy, Debug, PartialEq, Eq)]
pub enum EffectCallee {
    /// `effect::run_blocking`.
    RunBlocking,
    /// `effect::run_async`.
    RunAsync,
    /// `Effect::new_async`.
    NewAsync,
    /// `effect::from_async`.
    FromAsync,
    /// `Effect::new`.
    New,
    /// `Instant::now`.
    InstantNow,
    /// Anything else.
    Other,
}

/// Findings on a call, in the order the passes report them.
#[derive(Clone, Copy, Debug, PartialEq, Eq)]
pub enum CallFinding {
    /// `run_blocking` outside a run boundary.
    RunBlockingOutsideBoundary,
    /// `run_async` outside a run boundary.
    RunAsyncOutsideBoundary,
    /// `Effect::new_async` where `from_async` would do.
    PreferFromAsyncOverNewAsync,
    /// More than one `.await` in the future given to `from_async`.
    FromAsyncSingleAwait,
    /// `Effect::new` outside a run boundary.
    NoEffectNewOutsideEffectCrate,
    /// `Instant::now` outside a run boundary.
    NoInstantNowOutsideBoundary,
}

/// The style pass's findings on a call.
pub open spec fn style_call_findings(crate_name: Seq<char>, callee: EffectCallee, boundary_ok: bool, first_arg: Option<Seq<char>>) -> Seq<CallFinding> {
    if style_lints_skip_crate(crate_name) {
        Seq::empty()
    } else {
        match callee {
            EffectCallee::RunBlocking => if boundary_ok { Seq::empty() } else { seq![CallFinding::RunBlockingOutsideBoundary] },
            EffectCallee::RunAsync => if boundary_ok { Seq::empty() } else { seq![CallFinding::RunAsyncOutsideBoundary] },
            EffectCallee::NewAsync => if first_arg matches Some(sn) && has_sub(sn, ".run("@) && has_sub(sn, ".await"@) {
                Seq::empty()
            } else {
                seq![CallFinding::PreferFromAsyncOverNewAsync]
            },
            EffectCallee::FromAsync => if first_arg matches Some(sn) && count_matches(sn, ".await"@) > 1 {
                seq![CallFinding::FromAsyncSingleAwait]
            } else {
                Seq::empty()
            },
            _ => Seq::empty(),
        }
    }
}

/// The style pass's findings on a call to `callee`; `boundary_ok` says
/// whether the enclosing function may run effects, `first_arg` is the source
/// of the call's first argument.
pub fn effect_style_call_findings(crate_name: &str, callee: EffectCallee, boundary_ok: bool, first_arg: Option<&str>) -> (r: Vec<CallFinding>)
    requires
        first_arg matches Some(s) ==> s@.len() < usize::MAX,
    ensures
        r@ == style_call_findings(crate_name@, callee, boundary_ok, match first_arg { Some(s) => Some(s@), None => None }),
{
    let mut r: Vec<CallFinding> = Vec::new();
    if effect_style_late_skip_crate(crate_name) {
        return r;
    }
    match callee {
        EffectCallee::RunBlocking => {
            if !boundary_ok {
                r.push(CallFinding::RunBlockingOutsideBoundary);
            }
        },
        EffectCallee::RunAsync => {
            if !boundary_ok {
                r.push(CallFinding::RunAsyncOutsideBoundary);
            }
        },
        EffectCallee::NewAsync => {
            let drives_run = match first_arg {
                Some(sn) => new_async_snippet_suggests_run_env_across_await(sn),
                None => false,
            };
            if !drives_run {
                r.push(CallFinding::PreferFromAsyncOverNewAsync);
            }
        },
        EffectCallee::FromAsync => {
            match first_arg {
                Some(sn) => {
                    if count_substr(sn, ".await") > 1 {
                        r.push(CallFinding::FromAsyncSingleAwait);
                    }
                },
                None => {},
            }
        },
        _ => {},
    }
    proof {
        assert(r@ =~= style_call_findings(crate_name@, callee, boundary_ok, match first_arg { Some(s) => Some(s@), None => None }));
    }
    r
}

/// The interop pass's finding on a call, if any.
pub open spec fn interop_call_finding(crate_name: Seq<char>, callee: EffectCallee, boundary_ok: bool) -> Option<CallFinding> {
    if interop_lints_skip_crate(crate_name) || boundary_ok {
        None
    } else {
        match callee {
            EffectCallee::New => Some(CallFinding::NoEffectNewOutsideEffectCrate),
            EffectCallee::InstantNow => Some(CallFinding::NoInstantNowOutsideBoundary),
            _ => None,
        }
    }
}

/// The interop pass's finding on a call to `callee`.
pub fn effect_interop_call_finding(crate_name: &str, callee: EffectCallee, boundary_ok: bool) -> (r: Option<CallFinding>)
    ensures
        r == interop_call_finding(crate_name@, callee, boundary_ok),
{
    if effect_interop_skip_crate(crate_name) || boundary_ok {
        return None;
    }
    match callee {
        EffectCallee::New => Some(CallFinding::NoEffectNewOutsideEffectCrate),
        EffectCallee::InstantNow => Some(CallFinding::NoInstantNowOutsideBoundary),
        _ => None,
    }
}

// ---------------------------------------------------------------------------
// Recognising callees and bounds.

/// What the compiler reports about the target of a call.
pub struct CalleeFacts {
    /// Name of the crate defining the callee.
    pub crate_name: String,
    /// The callee's own name.
    pub item_name: String,
    /// The callee is an inherent method of the `Effect` type of the `effect` crate.
    pub in_effect_impl: bool,
    /// The callee's full definition path.
    pub def_path: String,
}

/// The kind of effect-system function a call targets.
pub open spec fn callee_kind(crate_name: Seq<char>, item_name: Seq<char>, in_effect_impl: bool, def_path: Seq<char>) -> EffectCallee {
    if crate_name == "effect"@ && item_name == "run_blocking"@ {
        EffectCallee::RunBlocking
    } else if crate_name == "effect"@ && item_name == "run_async"@ {
        EffectCallee::RunAsync
    } else if in_effect_impl && item_name == "new_async"@ {
        EffectCallee::NewAsync
    } else if crate_name == "effect"@ && item_name == "from_async"@ {
        EffectCallee::FromAsync
    } else if in_effect_impl && item_name == "new"@ {
        EffectCallee::New
    } else if instant_now_path(def_path) {
        EffectCallee::InstantNow
    } else {
        EffectCallee::Other
    }
}

/// Which effect-system function a call targets.
pub fn classify_callee(c: &CalleeFacts) -> (k: EffectCallee)
    ensures
        k == callee_kind(c.crate_name@, c.item_name@, c.in_effect_impl, c.def_path@),
{
    let krate = str_chars(c.crate_name.as_str());
    let item = str_chars(c.item_name.as_str());
    let in_effect = chars_equal(&krate, "effect");
    if in_effect && chars_equal(&item, "run_blocking") {
        EffectCallee::RunBlocking
    } else if in_effect && chars_equal(&item, "run_async") {
        EffectCallee::RunAsync
    } else if c.in_effect_impl && chars_equal(&item, "new_async") {
        EffectCallee::NewAsync
    } else if in_effect && chars_equal(&item, "from_async") {
        EffectCallee::FromAsync
    } else if c.in_effect_impl && chars_equal(&item, "new") {
        EffectCallee::New
    } else if is_std_time_instant_now(c.def_path.as_str()) {
        EffectCallee::InstantNow
    } else {
        EffectCallee::Other
    }
}

/// Kinds of items whose `where` clauses the interop pass checks.
#[derive(Clone, Copy, Debug, PartialEq, Eq)]
pub enum ItemKind {
    /// A function that is neither a closure nor a trait item or a method of a trait impl.
    Fn,
    /// A trait.
    Trait,
    /// An impl block.
    Impl,
    /// A struct, enum, union or type alias.
    TypeDef,
    /// Anything else.
    Other,
}

/// The interop pass checks the explicit bounds of an item: every function it
/// checks, traits not named `Needs...`, impls not implementing a `Needs...`
/// trait, and type definitions.
pub open spec fn bounds_checked(crate_name: Seq<char>, kind: ItemKind, name: Seq<char>, implemented_trait: Option<Seq<char>>) -> bool {
    !interop_lints_skip_crate(crate_name) && match kind {
        ItemKind::Fn => true,
        ItemKind::Trait => !starts_with(name, "Needs"@),
        ItemKind::Impl => !(implemented_trait matches Some(t) && starts_with(t, "Needs"@)),
        ItemKind::TypeDef => true,
        ItemKind::Other => false,
    }
}

/// Whether the interop pass checks the bounds of this item; `name` is the
/// item's name and `implemented_trait` the name of the trait an impl block
/// implements.
pub fn where_bounds_checked(crate_name: &str, kind: ItemKind, name: &str, implemented_trait: Option<&str>) -> (b: bool)
    ensures
        b == bounds_checked(crate_name@, kind, name@, match implemented_trait { Some(t) => Some(t@), None => None }),
{
    if effect_interop_skip_crate(crate_name) {
        return false;
    }
    let needs = str_chars("Needs");
    match kind {
        ItemKind::Fn => true,
        ItemKind::Trait => !matches_at(&str_chars(name), &needs, 0),
        ItemKind::Impl => match implemented_trait {
            Some(t) => !matches_at(&str_chars(t), &needs, 0),
            None => true,
        },
        ItemKind::TypeDef => true,
        ItemKind::Other => false,
    }
}

/// A bound on the raw environment traits `Get` or `GetMut` of the `effect` crate.
pub open spec fn raw_get_bound(trait_crate: Seq<char>, trait_name: Seq<char>) -> bool {
    trait_crate == "effect"@ && (trait_name == "Get"@ || trait_name == "GetMut"@)
}

/// Whether a checked bound names `Get` or `GetMut` of the `effect` crate (reported:
/// a `Needs...` supertrait should be used instead).
pub fn reports_raw_get_bound(trait_crate: &str, trait_name: &str) -> (b: bool)
    ensures
        b == raw_get_bound(trait_crate@, trait_name@),
{
    let c = str_chars(trait_crate);
    let n = str_chars(trait_name);
    chars_equal(&c, "effect") && (chars_equal(&n, "Get") || chars_equal(&n, "GetMut"))
}

// ---------------------------------------------------------------------------
// Laws.

/// An item of a concatenation comes from one of its parts.
proof fn lemma_concat_contains<A>(s: Seq<A>, t: Seq<A>, x: A)
    ensures
        (s + t).contains(x) <==> s.contains(x) || t.contains(x),
{
    if (s + t).contains(x) {
        let k = choose|k: int| 0 <= k < (s + t).len() && (s + t)[k] == x;
        if k >= s.len() {
            assert(t[k - s.len()] == x);
        }
    }
    if s.contains(x) {
        let k = choose|k: int| 0 <= k < s.len() && s[k] == x;
        assert((s + t)[k] == x);
    }
    if t.contains(x) {
        let k = choose|k: int| 0 <= k < t.len() && t[k] == x;
        assert((s + t)[s.len() + k] == x);
    }
}

/// The style pass checks this function at all.
pub open spec fn style_checked(f: FnFacts) -> bool {
    !style_lints_skip_crate(f.crate_name@) && !f.is_closure && !f.is_trait_item
}

/// Whether the rule behind finding `x` applies to a checked function.
pub open spec fn rule_applies(f: FnFacts, x: StyleFinding) -> bool {
    let gives_effect = f.effect_success_is_type_param is Some;
    let known_body = opt_view(f.body_snippet);
    match x {
        StyleFinding::NoAsyncFnApplication => f.is_async && !f.has_test_attr && (opt_view(f.file_path) matches Some(p)
            && !is_harness_path(p)),
        StyleFinding::NoEffectSuffixOnGraphBuilder => gives_effect && ends_with(f.name@, "_effect"@) && !ends_with(
            f.name@,
            "_blocking"@,
        ),
        StyleFinding::SuccessShouldBeFnTypeParam => f.effect_success_is_type_param == Some(false) && !f.is_async,
        StyleFinding::EffectGenericsNeedBounds => gives_effect && f.unbounded_type_params > 0,
        StyleFinding::MultipleTopLevelEffectMacros => gives_effect && !f.is_async && (known_body matches Some(sn)
            && count_matches(sn, "effect!("@) > 1),
        StyleFinding::ReturningEffectShouldUseEffectMacro => gives_effect && !f.is_async && (known_body matches Some(sn)
            && count_matches(sn, "effect!("@) == 0),
    }
}

/// A checked function gets finding `x` exactly when its rule applies.
#[verifier::rlimit(40)]
proof fn lemma_style_contains(f: FnFacts, x: StyleFinding)
    requires
        style_checked(f),
    ensures
        style_findings(f).contains(x) <==> rule_applies(f, x),
{
    let gives_effect = f.effect_success_is_type_param is Some;
    let async_app = f.is_async && !f.has_test_attr && (opt_view(f.file_path) matches Some(p) && !is_harness_path(p));
    let suffix = gives_effect && ends_with(f.name@, "_effect"@) && !ends_with(f.name@, "_blocking"@);
    let concrete = gives_effect && !f.is_async && f.effect_success_is_type_param == Some(false);
    let bounds = if gives_effect {
        Seq::new(f.unbounded_type_params as nat, |i: int| StyleFinding::EffectGenericsNeedBounds)
    } else {
        Seq::empty()
    };
    let macros = if gives_effect && !f.is_async && f.body_snippet is Some {
        let n = count_matches(f.body_snippet->0@, "effect!("@);
        if n > 1 {
            seq![StyleFinding::MultipleTopLevelEffectMacros]
        } else if n == 0 {
            seq![StyleFinding::ReturningEffectShouldUseEffectMacro]
        } else {
            Seq::empty()
        }
    } else {
        Seq::empty()
    };
    let a: Seq<StyleFinding> = if async_app { seq![StyleFinding::NoAsyncFnApplication] } else { Seq::empty() };
    let b: Seq<StyleFinding> = if suffix { seq![StyleFinding::NoEffectSuffixOnGraphBuilder] } else { Seq::empty() };
    let c: Seq<StyleFinding> = if concrete { seq![StyleFinding::SuccessShouldBeFnTypeParam] } else { Seq::empty() };
    assert(style_findings(f) == a + b + c + bounds + macros);
    lemma_concat_contains(a, b, x);
    lemma_concat_contains(a + b, c, x);
    lemma_concat_contains(a + b + c, bounds, x);
    lemma_concat_contains(a + b + c + bounds, macros, x);
    assert(a.contains(x) <==> (async_app && x == StyleFinding::NoAsyncFnApplication)) by {
        if async_app {
            assert(a[0] == StyleFinding::NoAsyncFnApplication);
        }
    }
    assert(b.contains(x) <==> (suffix && x == StyleFinding::NoEffectSuffixOnGraphBuilder)) by {
        if suffix {
            assert(b[0] == StyleFinding::NoEffectSuffixOnGraphBuilder);
        }
    }
    assert(c.contains(x) <==> (concrete && x == StyleFinding::SuccessShouldBeFnTypeParam)) by {
        if concrete {
            assert(c[0] == StyleFinding::SuccessShouldBeFnTypeParam);
        }
    }
    assert(bounds.contains(x) <==> (gives_effect && f.unbounded_type_params > 0 && x
        == StyleFinding::EffectGenericsNeedBounds)) by {
        if gives_effect && f.unbounded_type_params > 0 {
            assert(bounds[0] == StyleFinding::EffectGenericsNeedBounds);
        }
    }
    if f.body_snippet is Some {
        assert(opt_view(f.body_snippet) == Some(f.body_snippet->0@));
    }
    if macros.len() > 0 {
        assert(macros.contains(x) <==> macros[0] == x);
    }
}

/// Which findings the style pass reports on a function, each stated on its
/// own: nothing for skipped crates, closures and trait items; otherwise
/// - the `_effect` suffix rule for every function returning `Effect` whose name
///   ends in `_effect` but not `_blocking`, whatever its success type;
/// - the success-type rule for a non-async function whose `Effect` success
///   type is not one of its type parameters;
/// - the async rule for an async function without a test attribute in a
///   known file outside test, example and bench sources;
/// - the bounds rule when a function returning `Effect` has an unbounded
///   type parameter;
/// - the macro rules, for a non-async function returning `Effect` whose
///   body is known, when it holds more than one `effect!(` or none.
pub proof fn law_style_findings_by_rule(f: FnFacts)
    ensures
        !style_checked(f) ==> style_findings(f).len() == 0,
        style_findings(f).contains(StyleFinding::NoEffectSuffixOnGraphBuilder) <==> (style_checked(f)
            && f.effect_success_is_type_param is Some && ends_with(f.name@, "_effect"@) && !ends_with(
            f.name@,
            "_blocking"@,
        )),
        style_findings(f).contains(StyleFinding::SuccessShouldBeFnTypeParam) <==> (style_checked(f)
            && f.effect_success_is_type_param == Some(false) && !f.is_async),
        style_findings(f).contains(StyleFinding::NoAsyncFnApplication) <==> (style_checked(f) && f.is_async
            && !f.has_test_attr && (opt_view(f.file_path) matches Some(p) && !is_harness_path(p))),
        style_findings(f).contains(StyleFinding::EffectGenericsNeedBounds) <==> (style_checked(f)
            && f.effect_success_is_type_param is Some && f.unbounded_type_params > 0),
        style_findings(f).contains(StyleFinding::MultipleTopLevelEffectMacros) <==> (style_checked(f)
            && f.effect_success_is_type_param is Some && !f.is_async && (opt_view(f.body_snippet) matches Some(sn)
            && count_matches(sn, "effect!("@) > 1)),
        style_findings(f).contains(StyleFinding::ReturningEffectShouldUseEffectMacro) <==> (style_checked(f)
            && f.effect_success_is_type_param is Some && !f.is_async && (opt_view(f.body_snippet) matches Some(sn)
            && count_matches(sn, "effect!("@) == 0)),
{
    if style_checked(f) {
        lemma_style_contains(f, StyleFinding::NoEffectSuffixOnGraphBuilder);
        lemma_style_contains(f, StyleFinding::SuccessShouldBeFnTypeParam);
        lemma_style_contains(f, StyleFinding::NoAsyncFnApplication);
        lemma_style_contains(f, StyleFinding::EffectGenericsNeedBounds);
        lemma_style_contains(f, StyleFinding::MultipleTopLevelEffectMacros);
        lemma_style_contains(f, StyleFinding::ReturningEffectShouldUseEffectMacro);
    }
}

} // verus!
