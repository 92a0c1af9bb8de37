//! Layers with named dependency tracking: what a layer provides and requires,
//! checked against the available services with the layer graph planner.
use vstd::prelude::*;

use std::marker::PhantomData;

use crate::layer_graph::{
    conflict_at, dup_at, first_conflict, first_dup, ids_unique, is_provided, missing_set, provided_pairs,
    providers_unique, copy_strings, missing_diagnostic, missing_services, missing_view, plan_outcome, sorted_missing_services, sorted_seq_of,
    LayerDiagnostic, LayerGraph, LayerMissingProvider, LayerNode, LayerPlannerError, NodeView,
};
use crate::order::{sorted_insert_str, strictly_sorted};
use crate::text::chars_to_string;

verus! {

/// Error type for layer operations.
#[derive(Clone, Debug, PartialEq)]
pub enum LayerError {
    /// Required dependencies are missing.
    MissingDependencies {
        /// Names of missing services.
        missing: Vec<String>,
    },
}

impl LayerError {
    /// Maps this error to a [`LayerDiagnostic`] using stable service keys.
    pub fn to_diagnostic(&self) -> (d: LayerDiagnostic)
        ensures
            match self {
                LayerError::MissingDependencies { missing } => d@ == missing_diagnostic(
                    missing.deep_view().map_values(|s: Seq<char>| ("TypedLayer"@, s)),
                ),
            },
    {
        match self {
            LayerError::MissingDependencies { missing } => {
                let mut planner_missing: Vec<LayerMissingProvider> = Vec::new();
                let mut i: usize = 0;
                while i < missing.len()
                    invariant
                        i <= missing@.len(),
                        planner_missing@.len() == i,
                        forall|k: int| 0 <= k < i ==> #[trigger] planner_missing@[k]@ == ("TypedLayer"@, missing@[k]@),
                    decreases missing@.len() - i,
                {
                    planner_missing.push(LayerMissingProvider::new("TypedLayer", missing[i].as_str()));
                    i = i + 1;
                }
                proof {
                    assert(missing_view(planner_missing@) =~= missing.deep_view().map_values(
                        |s: Seq<char>| ("TypedLayer"@, s),
                    )) by {
                        assert forall|k: int| 0 <= k < planner_missing@.len() implies #[trigger] missing_view(
                            planner_missing@,
                        )[k] == missing.deep_view().map_values(|s: Seq<char>| ("TypedLayer"@, s))[k] by {
                            assert(missing.deep_view()[k] == missing@[k]@);
                        }
                    }
                }
                let e = LayerPlannerError::MissingProviders { missing: planner_missing };
                e.to_diagnostic()
            },
        }
    }
}

/// The nodes requirements are checked with: one node per available service,
/// providing it, then the layer itself requiring `required`.
pub open spec fn validation_nodes(layer_id: Seq<char>, required: Seq<Seq<char>>, available: Seq<Seq<char>>) -> Seq<
    NodeView,
> {
    available.map_values(|a: Seq<char>| (a, Seq::<Seq<char>>::empty(), seq![a])) + seq![
        (layer_id, required, Seq::<Seq<char>>::empty()),
    ]
}

/// The characters of each string slice.
pub open spec fn strs_view(s: Seq<&str>) -> Seq<Seq<char>> {
    s.map_values(|x: &str| x@)
}

/// What checking requirements reports for a planner outcome: the missing
/// services, sorted and distinct, when the planner reports missing
/// providers; success for any other outcome.
pub open spec fn validation_result(p: Result<crate::layer_graph::LayerPlan, LayerPlannerError>, r: Result<(), LayerError>) -> bool {
    match p {
        Err(LayerPlannerError::MissingProviders { missing }) => r matches Err(LayerError::MissingDependencies { missing: names })
            && names.deep_view() == sorted_seq_of(missing_services(missing_view(missing@))),
        _ => r is Ok,
    }
}

/// The required services that are not among the available ones.
pub open spec fn missing_requirements(required: Set<Seq<char>>, available: Set<Seq<char>>) -> Set<Seq<char>> {
    required.difference(available)
}

/// `e` is what `E::from` makes of the missing-dependencies error naming the
/// services of `missing`, sorted.
pub open spec fn converted_missing<E: From<LayerError>>(e: E, missing: Set<Seq<char>>) -> bool {
    exists|le: LayerError|
        #![trigger call_ensures(E::from, (le,), e)]
        call_ensures(E::from, (le,), e) && (le matches LayerError::MissingDependencies { missing: names }
            && names.deep_view() == sorted_seq_of(missing))
}

/// The available names, each once, strictly sorted.
fn distinct_names(available: &[&str]) -> (names: Vec<String>)
    ensures
        strictly_sorted(names.deep_view()),
        names.deep_view().to_set() == strs_view(available@).to_set(),
{
    let mut names: Vec<String> = Vec::new();
    let mut i: usize = 0;
    proof {
        assert(names.deep_view() =~= Seq::<Seq<char>>::empty());
        assert(strs_view(available@).take(0) =~= Seq::<Seq<char>>::empty());
    }
    while i < available.len()
        invariant
            i <= available@.len(),
            strictly_sorted(names.deep_view()),
            names.deep_view().to_set() == strs_view(available@).take(i as int).to_set(),
        decreases available@.len() - i,
    {
        let name = available[i];
        sorted_insert_str(&mut names, name.to_owned());
        proof {
            assert(strs_view(available@).take(i + 1) =~= strs_view(available@).take(i as int).push(name@));
            strs_view(available@).take(i as int).lemma_push_to_set_commute(name@);
        }
        i = i + 1;
    }
    proof {
        assert(strs_view(available@).take(i as int) =~= strs_view(available@));
    }
    names
}

/// `layer_id` followed by more `#` than any of `names` has characters: an id
/// that no service name can take.
fn fresh_layer_id(layer_id: &str, names: &Vec<String>) -> (id: String)
    ensures
        !names.deep_view().contains(id@),
{
    let mut longest: usize = 0;
    let mut i: usize = 0;
    while i < names.len()
        invariant
            i <= names@.len(),
            forall|k: int| 0 <= k < i ==> (#[trigger] names.deep_view()[k]).len() <= longest,
        decreases names@.len() - i,
    {
        let n = crate::text::str_chars(names[i].as_str()).len();
        proof {
            assert(names.deep_view()[i as int] == names@[i as int]@);
        }
        if n > longest {
            longest = n;
        }
        i = i + 1;
    }
    let mut id = String::from_str(layer_id);
    crate::text::push_char(&mut id, '#');
    let mut j: usize = 0;
    while j < longest
        invariant
            j <= longest,
            id@.len() == layer_id@.len() + 1 + j,
        decreases longest - j,
    {
        crate::text::push_char(&mut id, '#');
        j = j + 1;
    }
    proof {
        if names.deep_view().contains(id@) {
            let k = choose|k: int| 0 <= k < names.deep_view().len() && names.deep_view()[k] == id@;
            assert(names.deep_view()[k].len() <= longest);
        }
    }
    id
}

/// Checks `required` against the `available` services using the planner:
/// the available services become provider nodes (each name once), and the
/// layer a node of its own whose id no service name takes. The result is the
/// missing required services, sorted and distinct, when there are any.
pub fn validate_requirements_with_planner(layer_id: &str, required: &Vec<String>, available: &[&str]) -> (r: Result<(), LayerError>)
    ensures
        missing_requirements(required.deep_view().to_set(), strs_view(available@).to_set()).is_empty() ==> r is Ok,
        !missing_requirements(required.deep_view().to_set(), strs_view(available@).to_set()).is_empty() ==> (r matches Err(
            LayerError::MissingDependencies { missing },
        ) && missing.deep_view() == sorted_seq_of(
            missing_requirements(required.deep_view().to_set(), strs_view(available@).to_set()),
        )),
{
    let names = distinct_names(available);
    proof {
        crate::order::lemma_sorted_no_duplicates(names.deep_view());
    }
    let id = fresh_layer_id(layer_id, &names);
    let ghost ns = validation_nodes(id@, required.deep_view(), names.deep_view());
    let mut nodes: Vec<LayerNode> = Vec::new();
    let mut i: usize = 0;
    while i < names.len()
        invariant
            i <= names@.len(),
            nodes@.len() == i,
            forall|k: int| 0 <= k < i ==> #[trigger] nodes@[k]@ == (names.deep_view()[k], Seq::<Seq<char>>::empty(), seq![names.deep_view()[k]]),
        decreases names@.len() - i,
    {
        let name = names[i].as_str();
        proof {
            assert(names.deep_view()[i as int] == name@);
        }
        let mut provides: Vec<String> = Vec::new();
        provides.push(name.to_owned());
        let node = LayerNode { id: name.to_owned(), requires: Vec::new(), provides };
        proof {
            assert(node@.1 =~= Seq::<Seq<char>>::empty());
            assert(node@.2 =~= seq![name@]) by {
                assert(node.provides.deep_view()[0] == node.provides@[0]@);
            }
        }
        nodes.push(node);
        i = i + 1;
    }
    let layer = LayerNode { id: id, requires: copy_strings(required), provides: Vec::new() };
    proof {
        assert(layer@.2 =~= Seq::<Seq<char>>::empty());
    }
    nodes.push(layer);
    let graph = LayerGraph::new(nodes);
    proof {
        assert(graph@ =~= ns) by {
            assert forall|k: int| 0 <= k < graph@.len() implies #[trigger] graph@[k] == ns[k] by {
                assert(graph@[k] == graph.nodes@[k]@);
            }
        }
    }
    let p = graph.plan_topological();
    let r = match p {
        Err(LayerPlannerError::MissingProviders { missing }) => {
            let services = sorted_missing_services(&missing);
            let mut out: Vec<String> = Vec::new();
            let mut k: usize = 0;
            while k < services.len()
                invariant
                    k <= services@.len(),
                    out@.len() == k,
                    forall|q: int| 0 <= q < k ==> #[trigger] out@[q]@ == services@[q]@,
                decreases services@.len() - k,
            {
                out.push(chars_to_string(&services[k]));
                k = k + 1;
            }
            proof {
                assert(out.deep_view() =~= services.deep_view()) by {
                    assert forall|q: int| 0 <= q < out@.len() implies #[trigger] out.deep_view()[q] == services.deep_view()[q] by {
                        assert(out.deep_view()[q] == out@[q]@);
                        assert(services.deep_view()[q] =~= services@[q]@);
                    }
                }
            }
            let r = Err(LayerError::MissingDependencies { missing: out });
            proof {
                let pp: Result<crate::layer_graph::LayerPlan, LayerPlannerError> = Err(LayerPlannerError::MissingProviders { missing });
                assert(plan_outcome(ns, pp));
                assert(validation_result(pp, r));
                law_validation_reports_missing_requirements(id@, required.deep_view(), names.deep_view(), pp, r);
            }
            r
        },
        _ => {
            let r = Ok(());
            proof {
                assert(plan_outcome(ns, p));
                assert(validation_result(p, r));
                law_validation_reports_missing_requirements(id@, required.deep_view(), names.deep_view(), p, r);
            }
            r
        },
    };
    proof {
        let req = required.deep_view();
        let av = names.deep_view();
        let want = Set::new(|s: Seq<char>| req.contains(s) && !av.contains(s));
        let miss = missing_requirements(req.to_set(), strs_view(available@).to_set());
        assert(miss =~= want);
        if miss.is_empty() {
            assert forall|s: Seq<char>| req.contains(s) implies av.contains(s) by {
                assert(!want.contains(s));
            }
        } else {
            let s = choose|s: Seq<char>| miss.contains(s);
            assert(want.contains(s));
        }
    }
    r
}

/// Whether `x` is one of the strings of `v`.
fn contains_string(v: &Vec<String>, x: &String) -> (b: bool)
    ensures
        b == v.deep_view().to_set().contains(x@),
{
    let mut i: usize = 0;
    while i < v.len()
        invariant
            i <= v@.len(),
            forall|k: int| 0 <= k < i ==> v@[k]@ != x@,
        decreases v@.len() - i,
    {
        let eq = crate::order::compare_chars(&crate::text::str_chars(v[i].as_str()), &crate::text::str_chars(x.as_str())) == 0;
        if eq {
            proof {
                assert(v.deep_view()[i as int] == v@[i as int]@);
                assert(v.deep_view().contains(x@));
            }
            return true;
        }
        i = i + 1;
    }
    proof {
        if v.deep_view().to_set().contains(x@) {
            let k = choose|k: int| 0 <= k < v.deep_view().len() && #[trigger] v.deep_view()[k] == x@;
            assert(v.deep_view()[k] == v@[k]@);
        }
    }
    false
}

/// A layer recipe annotated with the services it provides and requires.
///
/// `build_fn` is the constructor (any `Fn() -> Result<O, E>`, boxed or not);
/// The provided and required services are kept as strictly sorted lists, that is, sets.
pub struct TypedLayer<O, E, F> {
    build_fn: F,
    provided_list: Vec<String>,
    required_list: Vec<String>,
    _pd: PhantomData<(O, E)>,
}

impl<O, E, F> TypedLayer<O, E, F> {
    #[verifier::type_invariant]
    spec fn sets_sorted(self) -> bool {
        strictly_sorted(self.provided_list.deep_view()) && strictly_sorted(self.required_list.deep_view())
    }

    /// The constructor.
    pub closed spec fn recipe(self) -> F {
        self.build_fn
    }

    /// Services this layer provides.
    pub closed spec fn provided(self) -> Set<Seq<char>> {
        self.provided_list.deep_view().to_set()
    }

    /// Services this layer requires.
    pub closed spec fn required(self) -> Set<Seq<char>> {
        self.required_list.deep_view().to_set()
    }

    /// Create a layer from a fallible constructor.
    pub fn from_fn(f: F) -> (l: Self)
        ensures
            l.recipe() == f,
            l.provided() == Set::<Seq<char>>::empty(),
            l.required() == Set::<Seq<char>>::empty(),
    {
        let l = TypedLayer { build_fn: f, provided_list: Vec::new(), required_list: Vec::new(), _pd: PhantomData };
        proof {
            assert(l.provided_list.deep_view().to_set() =~= Set::<Seq<char>>::empty());
            assert(l.required_list.deep_view().to_set() =~= Set::<Seq<char>>::empty());
        }
        l
    }

    /// Declare what this layer provides.
    pub fn providing(self, name: &str) -> (l: Self)
        ensures
            l.recipe() == self.recipe(),
            l.provided() == self.provided().insert(name@),
            l.required() == self.required(),
    {
        proof {
            use_type_invariant(&self);
        }
        let TypedLayer { build_fn, mut provided_list, required_list, _pd } = self;
        sorted_insert_str(&mut provided_list, name.to_owned());
        TypedLayer { build_fn, provided_list, required_list, _pd }
    }

    /// Declare what this layer requires.
    pub fn requiring(self, name: &str) -> (l: Self)
        ensures
            l.recipe() == self.recipe(),
            l.provided() == self.provided(),
            l.required() == self.required().insert(name@),
    {
        proof {
            use_type_invariant(&self);
        }
        let TypedLayer { build_fn, provided_list, mut required_list, _pd } = self;
        sorted_insert_str(&mut required_list, name.to_owned());
        TypedLayer { build_fn, provided_list, required_list, _pd }
    }

    /// Create with an explicit requirements list.
    pub fn with_requirements(f: F, required: Vec<String>) -> (l: Self)
        ensures
            l.recipe() == f,
            l.provided() == Set::<Seq<char>>::empty(),
            l.required() == required.deep_view().to_set(),
    {
        let mut set: Vec<String> = Vec::new();
        let mut i: usize = 0;
        proof {
            assert(set.deep_view().to_set() =~= required.deep_view().take(0).to_set());
        }
        while i < required.len()
            invariant
                i <= required@.len(),
                strictly_sorted(set.deep_view()),
                set.deep_view().to_set() == required.deep_view().take(i as int).to_set(),
            decreases required@.len() - i,
        {
            sorted_insert_str(&mut set, required[i].clone());
            proof {
                assert(required.deep_view()[i as int] == required@[i as int]@);
                assert(required.deep_view().take(i as int + 1) =~= required.deep_view().take(i as int).push(required@[i as int]@));
                crate::collections::hash_set::lemma_push_to_set(required.deep_view().take(i as int), required@[i as int]@);
            }
            i = i + 1;
        }
        assert(required.deep_view().take(i as int) =~= required.deep_view());
        let l = TypedLayer { build_fn: f, provided_list: Vec::new(), required_list: set, _pd: PhantomData };
        proof {
            assert(l.provided_list.deep_view().to_set() =~= Set::<Seq<char>>::empty());
        }
        l
    }

    /// Services this layer provides, in increasing order.
    pub fn provides(&self) -> (v: &Vec<String>)
        ensures
            strictly_sorted(v.deep_view()),
            v.deep_view().to_set() == self.provided(),
    {
        proof {
            use_type_invariant(self);
        }
        &self.provided_list
    }

    /// Services this layer requires, in increasing order.
    pub fn requirements(&self) -> (v: &Vec<String>)
        ensures
            strictly_sorted(v.deep_view()),
            v.deep_view().to_set() == self.required(),
    {
        proof {
            use_type_invariant(self);
        }
        &self.required_list
    }

    /// Build the layer, returning the output or error.
    pub fn build(&self) -> (r: Result<O, E>) where F: Fn() -> Result<O, E>
        requires
            call_requires(self.recipe(), ()),
        ensures
            call_ensures(self.recipe(), (), r),
    {
        (self.build_fn)()
    }

    /// Build with dependency validation against the `available` services:
    /// `Err` naming the missing required services (sorted, each once) if any
    /// is missing, without running the recipe; otherwise the build result.
    pub fn build_with_dependencies(&self, available: &[&str]) -> (r: Result<O, E>) where
        F: Fn() -> Result<O, E>,
        E: From<LayerError>,

        requires
            call_requires(self.recipe(), ()),
        ensures
            missing_requirements(self.required(), strs_view(available@).to_set()).is_empty() ==> call_ensures(
                self.recipe(),
                (),
                r,
            ),
            !missing_requirements(self.required(), strs_view(available@).to_set()).is_empty() ==> (r matches Err(e)
                && converted_missing(e, missing_requirements(self.required(), strs_view(available@).to_set()))),
    {
        proof {
            use_type_invariant(self);
        }
        let v = validate_requirements_with_planner("TypedLayer", &self.required_list, available);
        match v {
            Err(le) => {
                let ghost leg = le;
                let e = E::from(le);
                proof {
                    assert(call_ensures(E::from, (leg,), e));
                    assert(self.required_list.deep_view().to_set() == self.required());
                    assert(!missing_requirements(self.required(), strs_view(available@).to_set()).is_empty());
                    assert(leg matches LayerError::MissingDependencies { missing } && missing.deep_view() == sorted_seq_of(
                        missing_requirements(self.required(), strs_view(available@).to_set())));
                    assert(converted_missing(e, missing_requirements(self.required(), strs_view(available@).to_set())));
                }
                Err(e)
            },
            Ok(()) => self.build(),
        }
    }
}

/// Services provided by any of the layers.
pub open spec fn all_provided<O, E, F>(ls: Seq<TypedLayer<O, E, F>>) -> Set<Seq<char>>
    decreases ls.len(),
{
    if ls.len() == 0 {
        Set::empty()
    } else {
        all_provided(ls.drop_last()).union(ls.last().provided())
    }
}

/// Services required by any of the layers.
pub open spec fn all_required<O, E, F>(ls: Seq<TypedLayer<O, E, F>>) -> Set<Seq<char>>
    decreases ls.len(),
{
    if ls.len() == 0 {
        Set::empty()
    } else {
        all_required(ls.drop_last()).union(ls.last().required())
    }
}

/// Adds every string of `from` to the sorted set `into`.
fn insert_all(into: &mut Vec<String>, from: &Vec<String>)
    requires
        strictly_sorted(old(into).deep_view()),
    ensures
        strictly_sorted(final(into).deep_view()),
        final(into).deep_view().to_set() == old(into).deep_view().to_set().union(from.deep_view().to_set()),
{
    let ghost start = into.deep_view().to_set();
    let mut i: usize = 0;
    proof {
        assert(from.deep_view().take(0).to_set() =~= Set::<Seq<char>>::empty());
        assert(start.union(Set::<Seq<char>>::empty()) =~= start);
    }
    while i < from.len()
        invariant
            i <= from@.len(),
            strictly_sorted(into.deep_view()),
            into.deep_view().to_set() == start.union(from.deep_view().take(i as int).to_set()),
        decreases from@.len() - i,
    {
        sorted_insert_str(into, from[i].clone());
        proof {
            assert(from.deep_view()[i as int] == from@[i as int]@);
            assert(from.deep_view().take(i as int + 1) =~= from.deep_view().take(i as int).push(from@[i as int]@));
            crate::collections::hash_set::lemma_push_to_set(from.deep_view().take(i as int), from@[i as int]@);
            assert(into.deep_view().to_set() =~= start.union(from.deep_view().take(i as int + 1).to_set()));
        }
        i = i + 1;
    }
    assert(from.deep_view().take(i as int) =~= from.deep_view());
}

/// The strings of the sorted `v` that are not in `drop`, in order.
fn without_all(v: &Vec<String>, drop: &Vec<String>) -> (r: Vec<String>)
    requires
        strictly_sorted(v.deep_view()),
    ensures
        strictly_sorted(r.deep_view()),
        r.deep_view().to_set() == v.deep_view().to_set().difference(drop.deep_view().to_set()),
{
    let mut r: Vec<String> = Vec::new();
    let mut i: usize = 0;
    while i < v.len()
        invariant
            i <= v@.len(),
            strictly_sorted(v.deep_view()),
            strictly_sorted(r.deep_view()),
            r.deep_view().to_set() == v.deep_view().take(i as int).to_set().difference(drop.deep_view().to_set()),
            forall|k: int| 0 <= k < r@.len() ==> exists|j: int| 0 <= j < i && #[trigger] r.deep_view()[k] == v.deep_view()[j],
        decreases v@.len() - i,
    {
        let keep = !contains_string(drop, &v[i]);
        let ghost vi = v.deep_view()[i as int];
        proof {
            assert(vi == v@[i as int]@);
            assert(v.deep_view().take(i as int + 1) =~= v.deep_view().take(i as int).push(vi));
            crate::collections::hash_set::lemma_push_to_set(v.deep_view().take(i as int), vi);
        }
        if keep {
            let ghost before = r.deep_view();
            r.push(v[i].clone());
            proof {
                assert(r.deep_view() =~= before.push(vi)) by {
                    assert forall|k: int| 0 <= k < r@.len() implies #[trigger] r.deep_view()[k] == before.push(vi)[k] by {
                        assert(r.deep_view()[k] == r@[k]@);
                    }
                }
                assert forall|a: int, b: int| 0 <= a < b < r.deep_view().len() implies crate::order::lex_lt(#[trigger] r.deep_view()[a], #[trigger] r.deep_view()[b]) by {
                    if b == r.deep_view().len() - 1 {
                        let j = choose|j: int| 0 <= j < i && #[trigger] before[a] == v.deep_view()[j];
                        assert(crate::order::lex_lt(v.deep_view()[j], v.deep_view()[i as int]));
                    }
                }
                crate::collections::hash_set::lemma_push_to_set(before, vi);
                assert(r.deep_view().to_set() =~= v.deep_view().take(i as int + 1).to_set().difference(drop.deep_view().to_set()));
                assert forall|k: int| 0 <= k < r@.len() implies exists|j: int| 0 <= j < i + 1 && #[trigger] r.deep_view()[k] == v.deep_view()[j] by {
                    if k == r@.len() - 1 {
                        assert(r.deep_view()[k] == v.deep_view()[i as int]);
                    } else {
                        let j = choose|j: int| 0 <= j < i && #[trigger] before[k] == v.deep_view()[j];
                        assert(r.deep_view()[k] == v.deep_view()[j]);
                    }
                }
            }
        } else {
            proof {
                assert(r.deep_view().to_set() =~= v.deep_view().take(i as int + 1).to_set().difference(drop.deep_view().to_set()));
            }
        }
        i = i + 1;
    }
    assert(v.deep_view().take(i as int) =~= v.deep_view());
    r
}

/// A merged layer combining multiple sub-layers.
pub struct MergedLayer<O, E, F> {
    layers: Vec<TypedLayer<O, E, F>>,
    provided_list: Vec<String>,
    required_list: Vec<String>,
}

impl<O, E, F> MergedLayer<O, E, F> {
    #[verifier::type_invariant]
    spec fn sets_sorted(self) -> bool {
        strictly_sorted(self.provided_list.deep_view()) && strictly_sorted(self.required_list.deep_view())
    }

    /// The merged layers, in order.
    pub closed spec fn parts(self) -> Seq<TypedLayer<O, E, F>> {
        self.layers@
    }

    /// Services the merged layer provides.
    pub closed spec fn provided(self) -> Set<Seq<char>> {
        self.provided_list.deep_view().to_set()
    }

    /// Services the merged layer still requires.
    pub closed spec fn required(self) -> Set<Seq<char>> {
        self.required_list.deep_view().to_set()
    }

    /// Services this merged layer provides, in increasing order.
    pub fn provides(&self) -> (v: &Vec<String>)
        ensures
            strictly_sorted(v.deep_view()),
            v.deep_view().to_set() == self.provided(),
    {
        proof {
            use_type_invariant(self);
        }
        &self.provided_list
    }

    /// Services this merged layer still requires, in increasing order.
    pub fn requirements(&self) -> (v: &Vec<String>)
        ensures
            strictly_sorted(v.deep_view()),
            v.deep_view().to_set() == self.required(),
    {
        proof {
            use_type_invariant(self);
        }
        &self.required_list
    }
}

impl<O, E, F> TypedLayer<O, E, F> {
    /// Merge layers into one: it provides every service any of them
    /// provides, and requires what any of them requires that none provides.
    pub fn merge_all(layers: Vec<Self>) -> (m: MergedLayer<O, E, F>)
        ensures
            m.parts() == layers@,
            m.provided() == all_provided(layers@),
            m.required() == all_required(layers@).difference(all_provided(layers@)),
    {
        let mut provided_list: Vec<String> = Vec::new();
        let mut required_list: Vec<String> = Vec::new();
        let mut i: usize = 0;
        proof {
            assert(provided_list.deep_view().to_set() =~= Set::<Seq<char>>::empty());
            assert(required_list.deep_view().to_set() =~= Set::<Seq<char>>::empty());
            assert(layers@.take(0) =~= Seq::<TypedLayer<O, E, F>>::empty());
        }
        while i < layers.len()
            invariant
                i <= layers@.len(),
                strictly_sorted(provided_list.deep_view()),
                strictly_sorted(required_list.deep_view()),
                provided_list.deep_view().to_set() == all_provided(layers@.take(i as int)),
                required_list.deep_view().to_set() == all_required(layers@.take(i as int)),
            decreases layers@.len() - i,
        {
            let l = &layers[i];
            proof {
                use_type_invariant(l);
                assert(layers@.take(i as int + 1).drop_last() =~= layers@.take(i as int));
                assert(layers@.take(i as int + 1).last() == *l);
            }
            insert_all(&mut provided_list, l.provides());
            insert_all(&mut required_list, l.requirements());
            i = i + 1;
        }
        assert(layers@.take(i as int) =~= layers@);
        let still_required = without_all(&required_list, &provided_list);
        MergedLayer { layers, provided_list, required_list: still_required }
    }
}

/// A copy of a build result.
fn clone_result<O: Clone, E: Clone>(r: &Result<O, E>) -> (c: Result<O, E>)
    ensures
        result_cloned(*r, c),
{
    match r {
        Ok(a) => Ok(a.clone()),
        Err(e) => Err(e.clone()),
    }
}

/// `c` is a copy of `r`: same variant, payload cloned.
pub open spec fn result_cloned<O: Clone, E: Clone>(r: Result<O, E>, c: Result<O, E>) -> bool {
    match (r, c) {
        (Ok(a), Ok(b)) => cloned(a, b),
        (Err(a), Err(b)) => cloned(a, b),
        _ => false,
    }
}

/// One `build` call on a memoized layer: with a cached result, a copy of it
/// is returned and the cache kept; without one, the recipe runs, its result
/// is returned and a copy of it cached.
pub open spec fn build_step<O: Clone, E: Clone, F: Fn() -> Result<O, E>>(
    before: MemoizedLayer<O, E, F>,
    after: MemoizedLayer<O, E, F>,
    r: Result<O, E>,
) -> bool {
    &&& after.layer() == before.layer()
    &&& match before.cache() {
        Some(c) => after.cache() == before.cache() && result_cloned(c, r),
        None => {
            &&& call_ensures(before.layer().recipe(), (), r)
            &&& after.cache() matches Some(c) && result_cloned(r, c)
        },
    }
}

/// A layer that builds once and then hands out copies of that first result.
pub struct MemoizedLayer<O, E, F> {
    inner: TypedLayer<O, E, F>,
    cached: Option<Result<O, E>>,
}

impl<O, E, F> MemoizedLayer<O, E, F> {
    /// The underlying layer.
    pub closed spec fn layer(self) -> TypedLayer<O, E, F> {
        self.inner
    }

    /// The first build result, once there is one.
    pub closed spec fn cache(self) -> Option<Result<O, E>> {
        self.cached
    }

    /// Build the layer, using the cached result if there is one.
    pub fn build(&mut self) -> (r: Result<O, E>) where O: Clone, E: Clone, F: Fn() -> Result<O, E>
        requires
            old(self).cache() is None ==> call_requires(old(self).layer().recipe(), ()),
        ensures
            build_step(*old(self), *final(self), r),
    {
        match &self.cached {
            Some(c) => {
                return clone_result(c);
            },
            None => {},
        }
        let result = self.inner.build();
        self.cached = Some(clone_result(&result));
        result
    }

    /// The underlying layer's provided services.
    pub fn provides(&self) -> (v: &Vec<String>)
        ensures
            strictly_sorted(v.deep_view()),
            v.deep_view().to_set() == self.layer().provided(),
    {
        self.inner.provides()
    }

    /// The underlying layer's required services.
    pub fn requirements(&self) -> (v: &Vec<String>)
        ensures
            strictly_sorted(v.deep_view()),
            v.deep_view().to_set() == self.layer().required(),
    {
        self.inner.requirements()
    }
}

/// Extension combinators for [`TypedLayer`].
pub trait TypedLayerExt<O, E, F>: Sized {
    /// Wrap this layer with memoization: the build function is called at
    /// most once; later builds return copies of the first result.
    fn memoized(self) -> MemoizedLayer<O, E, F>;
}

impl<O, E, F> TypedLayerExt<O, E, F> for TypedLayer<O, E, F> {
    fn memoized(self) -> (m: MemoizedLayer<O, E, F>)
        ensures
            m.layer() == self,
            m.cache() is None,
    {
        MemoizedLayer { inner: self, cached: None }
    }
}

// ---------------------------------------------------------------------------
// Laws.

/// A merged layer never still requires a service one of its parts provides,
/// and still requires every other service some part requires.
pub proof fn law_merge_drops_satisfied_requirements<O, E, F>(ls: Seq<TypedLayer<O, E, F>>, service: Seq<char>)
    ensures
        all_provided(ls).contains(service) ==> !all_required(ls).difference(all_provided(ls)).contains(service),
        all_required(ls).contains(service) && !all_provided(ls).contains(service) ==> all_required(ls).difference(
            all_provided(ls),
        ).contains(service),
{
}

/// The provided `(service, node)` entries of the first `i` checking nodes:
/// node `k` provides the `k`-th available service.
proof fn lemma_validation_provided_pairs(layer_id: Seq<char>, required: Seq<Seq<char>>, available: Seq<Seq<char>>, i: int)
    requires
        0 <= i <= available.len(),
    ensures
        provided_pairs(validation_nodes(layer_id, required, available), i) == Seq::new(
            i as nat,
            |k: int| (available[k], k),
        ),
    decreases i,
{
    let ns = validation_nodes(layer_id, required, available);
    if i > 0 {
        lemma_validation_provided_pairs(layer_id, required, available, i - 1);
        assert(ns[i - 1].2 == seq![available[i - 1]]);
        assert(ns[i - 1].2.map_values(|s: Seq<char>| (s, i - 1)) =~= seq![(available[i - 1], i - 1)]);
        assert(provided_pairs(ns, i) =~= Seq::new(i as nat, |k: int| (available[k], k)));
    } else {
        assert(provided_pairs(ns, i) =~= Seq::new(i as nat, |k: int| (available[k], k)));
    }
}

/// Checking requirements against distinct available services (none named
/// like the layer itself, as the services of a context are) fails exactly
/// when some required service is not available, and then names exactly
/// those services, sorted.
pub proof fn law_validation_reports_missing_requirements(
    layer_id: Seq<char>,
    required: Seq<Seq<char>>,
    available: Seq<Seq<char>>,
    p: Result<crate::layer_graph::LayerPlan, LayerPlannerError>,
    r: Result<(), LayerError>,
)
    requires
        plan_outcome(validation_nodes(layer_id, required, available), p),
        validation_result(p, r),
        available.no_duplicates(),
        !available.contains(layer_id),
    ensures
        r is Ok <==> forall|s: Seq<char>| required.contains(s) ==> available.contains(s),
        r matches Err(LayerError::MissingDependencies { missing }) ==> missing.deep_view() == sorted_seq_of(
            Set::new(|s: Seq<char>| required.contains(s) && !available.contains(s)),
        ),
{
    let ns = validation_nodes(layer_id, required, available);
    let n = available.len() as int;
    assert(ns.len() == n + 1);
    assert forall|k: int| 0 <= k < n implies #[trigger] ns[k] == (available[k], Seq::<Seq<char>>::empty(), seq![available[k]]) by {}
    assert(ns[n] == (layer_id, required, Seq::<Seq<char>>::empty()));
    // unique ids
    assert forall|j: int| !dup_at(ns, j) by {
        if dup_at(ns, j) {
            let i = choose|i: int| 0 <= i < j && ns[i].0 == ns[j].0;
            if j == n {
                assert(available[i] == layer_id);
            }
        }
    }
    assert(ids_unique(ns));
    // unique providers
    lemma_validation_provided_pairs(layer_id, required, available, n);
    let pp = provided_pairs(ns, n + 1);
    assert(ns[n].2.map_values(|s: Seq<char>| (s, n)) =~= Seq::<(Seq<char>, int)>::empty());
    assert(pp =~= Seq::new(n as nat, |k: int| (available[k], k)));
    assert forall|q: int| !conflict_at(pp, q) by {
        if conflict_at(pp, q) {
            let k = choose|k: int| 0 <= k < q && pp[k].0 == pp[q].0;
            assert(available[k] == available[q]);
        }
    }
    assert(providers_unique(ns));
    // what is missing
    let want = Set::new(|s: Seq<char>| required.contains(s) && !available.contains(s));
    assert forall|s: Seq<char>| is_provided(ns, s) <==> available.contains(s) by {
        if is_provided(ns, s) {
            let i = choose|i: int| 0 <= i < ns.len() && ns[i].2.contains(s);
            assert(i < n);
            assert(ns[i].2[0] == s);
        }
        if available.contains(s) {
            let i = choose|i: int| 0 <= i < n && available[i] == s;
            assert(ns[i].2[0] == s);
        }
    }
    assert forall|m: (Seq<char>, Seq<char>)| missing_set(ns).contains(m) <==> (m.0 == layer_id && want.contains(m.1)) by {
        if missing_set(ns).contains(m) {
            let i = choose|i: int|
                0 <= i < ns.len() && ns[i].0 == m.0 && ns[i].1.contains(m.1) && !is_provided(ns, m.1);
            assert(i == n);
        }
        if m.0 == layer_id && want.contains(m.1) {
            assert(ns[n].1.contains(m.1));
        }
    }
    if forall|s: Seq<char>| required.contains(s) ==> available.contains(s) {
        assert(missing_set(ns) =~= Set::<(Seq<char>, Seq<char>)>::empty());
    } else {
        let s = choose|s: Seq<char>| !(required.contains(s) ==> available.contains(s));
        assert(missing_set(ns).contains((layer_id, s)));
        match p {
            Err(LayerPlannerError::DuplicateNodeId { .. }) => {
                let j = choose|j: int| first_dup(ns, j);
                assert(dup_at(ns, j));
            },
            Err(LayerPlannerError::ConflictingProvider { .. }) => {
                let (q, k) = choose|q: int, k: int|
                    #![trigger pp[q], pp[k]]
                    first_conflict(pp, q) && 0 <= k < q && pp[k].0 == pp[q].0;
                assert(conflict_at(pp, q));
            },
            Err(LayerPlannerError::MissingProviders { missing }) => {
                let mv = missing_view(missing@);
                assert(missing_services(mv) =~= want) by {
                    assert forall|x: Seq<char>| missing_services(mv).contains(x) <==> want.contains(x) by {
                        let svc = mv.map_values(|y: (Seq<char>, Seq<char>)| y.1);
                        if missing_services(mv).contains(x) {
                            let i = choose|i: int| 0 <= i < svc.len() && svc[i] == x;
                            assert(mv.to_set().contains(mv[i]));
                        }
                        if want.contains(x) {
                            assert(missing_set(ns).contains((layer_id, x)));
                            assert(mv.to_set().contains((layer_id, x)));
                            let i = choose|i: int| 0 <= i < mv.len() && mv[i] == (layer_id, x);
                            assert(svc[i] == x);
                        }
                    }
                }
            },
            _ => {},
        }
    }
}

/// After the first of a run of `build` calls, the cache holds what the first
/// call cached.
proof fn lemma_cache_kept<O: Clone, E: Clone, F: Fn() -> Result<O, E>>(
    states: Seq<MemoizedLayer<O, E, F>>,
    results: Seq<Result<O, E>>,
    k: int,
)
    requires
        states.len() == results.len() + 1,
        states[0].cache() is None,
        forall|j: int| 0 <= j < results.len() ==> build_step(#[trigger] states[j], states[j + 1], results[j]),
        1 <= k < states.len(),
    ensures
        states[k].cache() == states[1].cache(),
        states[k].cache() is Some,
        states[k].layer() == states[0].layer(),
    decreases k,
{
    assert(build_step(states[0], states[1], results[0]));
    if k > 1 {
        lemma_cache_kept(states, results, k - 1);
        assert(build_step(states[k - 1], states[k], results[k - 1]));
    }
}

/// Over any run of `build` calls on a freshly memoized layer, the recipe runs
/// in the first call only: every later call finds the first result cached
/// (an error too) and returns a copy of it.
pub proof fn law_memoized_builds_once<O: Clone, E: Clone, F: Fn() -> Result<O, E>>(
    states: Seq<MemoizedLayer<O, E, F>>,
    results: Seq<Result<O, E>>,
)
    requires
        states.len() == results.len() + 1,
        states[0].cache() is None,
        forall|k: int| 0 <= k < results.len() ==> build_step(#[trigger] states[k], states[k + 1], results[k]),
    ensures
        results.len() > 0 ==> call_ensures(states[0].layer().recipe(), (), results[0]),
        results.len() > 0 ==> (states[1].cache() matches Some(c) && result_cloned(results[0], c)),
        forall|k: int|
            1 <= k < results.len() ==> (#[trigger] states[k]).cache() == states[1].cache() && states[k].cache() is Some
                && result_cloned(states[1].cache()->0, results[k]),
        forall|k: int| 0 <= k < states.len() ==> (#[trigger] states[k]).layer() == states[0].layer(),
{
    if results.len() > 0 {
        assert(build_step(states[0], states[1], results[0]));
    }
    assert forall|k: int| 1 <= k < results.len() implies (#[trigger] states[k]).cache() == states[1].cache()
        && states[k].cache() is Some && result_cloned(states[1].cache()->0, results[k]) by {
        lemma_cache_kept(states, results, k);
        assert(build_step(states[k], states[k + 1], results[k]));
    }
    assert forall|k: int| 0 <= k < states.len() implies (#[trigger] states[k]).layer() == states[0].layer() by {
        if k >= 1 {
            lemma_cache_kept(states, results, k);
        }
    }
}

} // verus!
