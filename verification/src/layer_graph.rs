//! Layer graph planner: validates a graph of layer nodes (unique ids, one
//! provider per service, every requirement provided) and computes a build order
//! in which every node comes after the nodes providing what it requires.
//!
//! The build order is Kahn's algorithm with an ordered ready set: among the
//! nodes whose providers are all built, the one with the smallest id is built
//! next.
use vstd::prelude::*;

use crate::order::{
    compare_chars, lemma_lex_asymmetric, lemma_lex_irreflexive, lemma_lex_total,
    lemma_sorted_no_duplicates, lex_lt, sorted_insert, strictly_sorted,
};
use crate::text::{chars_to_string, clone_chars, join_strings, joined, str_chars, ticked};

verus! {

/// A node as the planner sees it: id, required services, provided services.
pub type NodeView = (Seq<char>, Seq<Seq<char>>, Seq<Seq<char>>);

/// One node in a dependency layer graph: unique id, required services, and provided services.
#[derive(Clone, Debug, PartialEq, Eq)]
pub struct LayerNode {
    /// Stable identifier for this layer (must be unique in the graph).
    pub id: String,
    /// Service names this layer depends on (must be provided by some other node).
    pub requires: Vec<String>,
    /// Service names this layer supplies to dependents.
    pub provides: Vec<String>,
}

impl View for LayerNode {
    type V = NodeView;

    open spec fn view(&self) -> NodeView {
        (self.id@, self.requires.deep_view(), self.provides.deep_view())
    }
}

/// Owned copies of string slices.
pub fn to_strings(items: &[&str]) -> (v: Vec<String>)
    ensures
        v.deep_view() == items@.map_values(|s: &str| s@),
{
    let mut v: Vec<String> = Vec::new();
    let mut i: usize = 0;
    while i < items.len()
        invariant
            i <= items@.len(),
            v@.len() == i,
            forall|k: int| 0 <= k < i ==> #[trigger] v@[k]@ == items@[k]@,
        decreases items@.len() - i,
    {
        let s = items[i].to_owned();
        v.push(s);
        i = i + 1;
    }
    assert(v.deep_view() =~= items@.map_values(|s: &str| s@)) by {
        assert forall|k: int| 0 <= k < v@.len() implies #[trigger] v.deep_view()[k] == items@.map_values(|s: &str| s@)[k] by {
            assert(v.deep_view()[k] == v@[k]@);
        }
    }
    v
}

/// Owned copies of the strings.
pub(crate) fn copy_strings(v: &Vec<String>) -> (r: Vec<String>)
    ensures
        r.deep_view() == v.deep_view(),
{
    let mut r: Vec<String> = Vec::new();
    let mut i: usize = 0;
    while i < v.len()
        invariant
            i <= v@.len(),
            r@.len() == i,
            forall|k: int| 0 <= k < i ==> #[trigger] r@[k]@ == v@[k]@,
        decreases v@.len() - i,
    {
        r.push(v[i].clone());
        i = i + 1;
    }
    assert(r.deep_view() =~= v.deep_view()) by {
        assert forall|k: int| 0 <= k < r@.len() implies #[trigger] r.deep_view()[k] == v.deep_view()[k] by {
            assert(r.deep_view()[k] == r@[k]@);
            assert(v.deep_view()[k] == v@[k]@);
        }
    }
    r
}

impl LayerNode {
    /// Builds a node with the given id, requirement keys, and provided service keys.
    pub fn new(id: &str, required: &[&str], provided: &[&str]) -> (n: Self)
        ensures
            n@.0 == id@,
            n@.1 == required@.map_values(|s: &str| s@),
            n@.2 == provided@.map_values(|s: &str| s@),
    {
        LayerNode { id: id.to_owned(), requires: to_strings(required), provides: to_strings(provided) }
    }
}

/// Directed graph of [`LayerNode`] values used to plan a valid build order.
#[derive(Clone, Debug, PartialEq, Eq)]
pub struct LayerGraph {
    /// All nodes participating in planning.
    pub nodes: Vec<LayerNode>,
}

impl View for LayerGraph {
    type V = Seq<NodeView>;

    open spec fn view(&self) -> Seq<NodeView> {
        self.nodes@.map_values(|n: LayerNode| n@)
    }
}

// ---------------------------------------------------------------------------
// What the planner checks, over the nodes' views.

/// Node `j` repeats the id of an earlier node.
pub open spec fn dup_at(ns: Seq<NodeView>, j: int) -> bool {
    0 <= j < ns.len() && exists|i: int| 0 <= i < j && ns[i].0 == ns[j].0
}

/// Node `j` is the first node that repeats an earlier id.
pub open spec fn first_dup(ns: Seq<NodeView>, j: int) -> bool {
    dup_at(ns, j) && forall|k: int| 0 <= k < j ==> !dup_at(ns, k)
}

/// All ids differ.
pub open spec fn ids_unique(ns: Seq<NodeView>) -> bool {
    forall|j: int| !dup_at(ns, j)
}

/// `(service, node index)` for every provided service of nodes `0..i`, in
/// node order and, within a node, in `provides` order.
pub open spec fn provided_pairs(ns: Seq<NodeView>, i: int) -> Seq<(Seq<char>, int)>
    decreases i,
{
    if i <= 0 {
        Seq::empty()
    } else {
        provided_pairs(ns, i - 1) + ns[i - 1].2.map_values(|s: Seq<char>| (s, i - 1))
    }
}

/// Entry `q` names a service that an earlier entry already named.
pub open spec fn conflict_at(p: Seq<(Seq<char>, int)>, q: int) -> bool {
    0 <= q < p.len() && exists|k: int| 0 <= k < q && p[k].0 == p[q].0
}

/// Entry `q` is the first entry that names an already provided service.
pub open spec fn first_conflict(p: Seq<(Seq<char>, int)>, q: int) -> bool {
    conflict_at(p, q) && forall|k: int| 0 <= k < q ==> !conflict_at(p, k)
}

/// No service is provided twice.
pub open spec fn providers_unique(ns: Seq<NodeView>) -> bool {
    forall|q: int| !conflict_at(provided_pairs(ns, ns.len() as int), q)
}

/// Some node provides service `s`.
pub open spec fn is_provided(ns: Seq<NodeView>, s: Seq<char>) -> bool {
    exists|i: int| 0 <= i < ns.len() && ns[i].2.contains(s)
}

/// `(node id, service)` for every requirement that no node provides.
pub open spec fn missing_set(ns: Seq<NodeView>) -> Set<(Seq<char>, Seq<char>)> {
    Set::new(
        |p: (Seq<char>, Seq<char>)|
            exists|i: int|
                0 <= i < ns.len() && ns[i].0 == p.0 && ns[i].1.contains(p.1) && !is_provided(ns, p.1),
    )
}

/// Order on `(node, service)` pairs: by node id, then by service.
pub open spec fn pair_lt(a: (Seq<char>, Seq<char>), b: (Seq<char>, Seq<char>)) -> bool {
    lex_lt(a.0, b.0) || (a.0 == b.0 && lex_lt(a.1, b.1))
}

/// Each pair sorts strictly before the next.
pub open spec fn pairs_sorted(s: Seq<(Seq<char>, Seq<char>)>) -> bool {
    forall|i: int, j: int| 0 <= i < j < s.len() ==> pair_lt(#[trigger] s[i], #[trigger] s[j])
}

/// Node `v` needs a service that node `u`, another node, provides.
pub open spec fn depends_on(ns: Seq<NodeView>, v: int, u: int) -> bool {
    u != v && exists|r: Seq<char>| ns[v].1.contains(r) && ns[u].2.contains(r)
}

/// Node `v` is not built yet and every node it depends on is.
pub open spec fn ready(ns: Seq<NodeView>, built: Seq<int>, v: int) -> bool {
    &&& 0 <= v < ns.len()
    &&& !built.contains(v)
    &&& forall|u: int| 0 <= u < ns.len() && #[trigger] depends_on(ns, v, u) ==> built.contains(u)
}

/// `v` is the ready node with the smallest id.
pub open spec fn next_ready(ns: Seq<NodeView>, built: Seq<int>, v: int) -> bool {
    ready(ns, built, v) && forall|w: int| #[trigger] ready(ns, built, w) && w != v ==> lex_lt(ns[v].0, ns[w].0)
}

/// The first `k` steps of the build order: at each step the ready node with the
/// smallest id is built; the order stops growing when no node is ready.
pub open spec fn build_steps(ns: Seq<NodeView>, k: nat) -> Seq<int>
    decreases k,
{
    if k == 0 {
        Seq::empty()
    } else {
        let built = build_steps(ns, (k - 1) as nat);
        if exists|v: int| next_ready(ns, built, v) {
            built.push(choose|v: int| next_ready(ns, built, v))
        } else {
            built
        }
    }
}

/// The complete greedy build order (node indices).
pub open spec fn build_order(ns: Seq<NodeView>) -> Seq<int> {
    build_steps(ns, ns.len())
}

/// Ids of the nodes the build order never reaches.
pub open spec fn unbuilt_ids(ns: Seq<NodeView>) -> Set<Seq<char>> {
    Set::new(
        |id: Seq<char>|
            exists|v: int| 0 <= v < ns.len() && !build_order(ns).contains(v) && ns[v].0 == id,
    )
}

// ---------------------------------------------------------------------------
// Facts about the definitions.

proof fn lemma_provided_pairs_prefix(ns: Seq<NodeView>, i: int, j: int)
    requires
        0 <= i <= j,
    ensures
        provided_pairs(ns, i).len() <= provided_pairs(ns, j).len(),
        provided_pairs(ns, j).take(provided_pairs(ns, i).len() as int) == provided_pairs(ns, i),
    decreases j,
{
    if i < j {
        lemma_provided_pairs_prefix(ns, i, j - 1);
        let a = provided_pairs(ns, i);
        let b = provided_pairs(ns, j - 1);
        let c = provided_pairs(ns, j);
        assert(c == b + ns[j - 1].2.map_values(|s: Seq<char>| (s, j - 1)));
        assert(c.take(a.len() as int) =~= b.take(a.len() as int));
    } else {
        assert(provided_pairs(ns, j).take(provided_pairs(ns, i).len() as int) =~= provided_pairs(ns, i));
    }
}

proof fn lemma_provided_pairs_entries(ns: Seq<NodeView>, i: int)
    requires
        0 <= i <= ns.len(),
    ensures
        forall|q: int|
            0 <= q < provided_pairs(ns, i).len() ==> 0 <= #[trigger] provided_pairs(ns, i)[q].1 < i
                && ns[provided_pairs(ns, i)[q].1].2.contains(provided_pairs(ns, i)[q].0),
        forall|v: int, s: Seq<char>|
            0 <= v < i && #[trigger] ns[v].2.contains(s) ==> provided_pairs(ns, i).contains((s, v)),
    decreases i,
{
    if i > 0 {
        lemma_provided_pairs_entries(ns, i - 1);
        let a = provided_pairs(ns, i - 1);
        let m = ns[i - 1].2.map_values(|s: Seq<char>| (s, i - 1));
        let p = provided_pairs(ns, i);
        assert(p == a + m);
        assert forall|q: int| 0 <= q < p.len() implies 0 <= #[trigger] p[q].1 < i && ns[p[q].1].2.contains(p[q].0) by {
            if q >= a.len() {
                assert(p[q] == m[q - a.len()]);
                assert(ns[i - 1].2[q - a.len()] == p[q].0);
            } else {
                assert(p[q] == a[q]);
            }
        }
        assert forall|v: int, s: Seq<char>| 0 <= v < i && #[trigger] ns[v].2.contains(s) implies p.contains((s, v)) by {
            if v < i - 1 {
                let q = choose|q: int| 0 <= q < a.len() && a[q] == (s, v);
                assert(p[q] == (s, v));
            } else {
                let t = choose|t: int| 0 <= t < ns[v].2.len() && ns[v].2[t] == s;
                assert(p[a.len() + t] == m[t]);
            }
        }
    }
}

/// With unique providers, at most one node provides a service.
proof fn lemma_unique_provider(ns: Seq<NodeView>, u: int, w: int, s: Seq<char>)
    requires
        providers_unique(ns),
        0 <= u < ns.len(),
        0 <= w < ns.len(),
        ns[u].2.contains(s),
        ns[w].2.contains(s),
    ensures
        u == w,
{
    lemma_provided_pairs_entries(ns, ns.len() as int);
    let p = provided_pairs(ns, ns.len() as int);
    if u != w {
        assert(p.contains((s, u)));
        assert(p.contains((s, w)));
        let a = choose|a: int| 0 <= a < p.len() && p[a] == (s, u);
        let b = choose|b: int| 0 <= b < p.len() && p[b] == (s, w);
        if a < b {
            assert(conflict_at(p, b));
        } else {
            assert(conflict_at(p, a));
        }
    }
}

/// There is at most one next node.
proof fn lemma_next_ready_unique(ns: Seq<NodeView>, built: Seq<int>, v: int, w: int)
    requires
        next_ready(ns, built, v),
        next_ready(ns, built, w),
    ensures
        v == w,
{
    if v != w {
        assert(ready(ns, built, w));
        assert(ready(ns, built, v));
        assert(lex_lt(ns[v].0, ns[w].0));
        assert(lex_lt(ns[w].0, ns[v].0));
        lemma_lex_asymmetric(ns[v].0, ns[w].0);
    }
}

/// Once no node is ready, the build order stops growing.
proof fn lemma_build_steps_stable(ns: Seq<NodeView>, k: nat, m: nat)
    requires
        k <= m,
        !(exists|v: int| next_ready(ns, build_steps(ns, k), v)),
    ensures
        build_steps(ns, m) == build_steps(ns, k),
    decreases m - k,
{
    if k < m {
        lemma_build_steps_stable(ns, k, (m - 1) as nat);
        assert(build_steps(ns, m) == build_steps(ns, (m - 1) as nat));
    }
}


// ---------------------------------------------------------------------------
// Planner steps.

/// The ids of the nodes, as characters.
fn node_ids(nodes: &Vec<LayerNode>) -> (ids: Vec<Vec<char>>)
    ensures
        ids@.len() == nodes@.len(),
        forall|i: int| 0 <= i < ids@.len() ==> #[trigger] ids@[i]@ == nodes@[i]@.0,
{
    let mut ids: Vec<Vec<char>> = Vec::new();
    let mut i: usize = 0;
    while i < nodes.len()
        invariant
            i <= nodes@.len(),
            ids@.len() == i,
            forall|k: int| 0 <= k < i ==> #[trigger] ids@[k]@ == nodes@[k]@.0,
        decreases nodes@.len() - i,
    {
        ids.push(str_chars(nodes[i].id.as_str()));
        i = i + 1;
    }
    ids
}

/// Index of the first node whose id repeats an earlier id.
fn find_first_dup(ids: &Vec<Vec<char>>, Ghost(ns): Ghost<Seq<NodeView>>) -> (r: Option<usize>)
    requires
        ids@.len() == ns.len(),
        forall|i: int| 0 <= i < ids@.len() ==> #[trigger] ids@[i]@ == ns[i].0,
    ensures
        match r {
            Some(j) => first_dup(ns, j as int),
            None => ids_unique(ns),
        },
{
    let mut j: usize = 0;
    while j < ids.len()
        invariant
            j <= ids@.len(),
            ids@.len() == ns.len(),
            forall|i: int| 0 <= i < ids@.len() ==> #[trigger] ids@[i]@ == ns[i].0,
            forall|k: int| 0 <= k < j ==> !dup_at(ns, k),
        decreases ids@.len() - j,
    {
        let mut i: usize = 0;
        while i < j
            invariant
                i <= j < ids@.len(),
                ids@.len() == ns.len(),
                forall|x: int| 0 <= x < ids@.len() ==> #[trigger] ids@[x]@ == ns[x].0,
                forall|x: int| 0 <= x < i ==> ns[x].0 != ns[j as int].0,
                forall|k: int| 0 <= k < j ==> !dup_at(ns, k),
            decreases j - i,
        {
            if compare_chars(&ids[i], &ids[j]) == 0 {
                assert(dup_at(ns, j as int));
                return Some(j);
            }
            i = i + 1;
        }
        assert(!dup_at(ns, j as int));
        j = j + 1;
    }
    None
}

/// The services provided so far and their providers.
struct ProviderTable {
    services: Vec<Vec<char>>,
    nodes: Vec<usize>,
}

/// The table lists exactly the entries of `p`.
spec fn table_matches(t: ProviderTable, p: Seq<(Seq<char>, int)>) -> bool {
    entries_match(t.services@, t.nodes@, p)
}

spec fn entries_match(services: Seq<Vec<char>>, nodes: Seq<usize>, p: Seq<(Seq<char>, int)>) -> bool {
    &&& services.len() == p.len()
    &&& nodes.len() == p.len()
    &&& forall|k: int| 0 <= k < p.len() ==> #[trigger] services[k]@ == p[k].0 && nodes[k] == p[k].1
}

proof fn lemma_entries_push(
    services: Seq<Vec<char>>,
    nodes: Seq<usize>,
    p: Seq<(Seq<char>, int)>,
    s: Vec<char>,
    i: usize,
)
    requires
        entries_match(services, nodes, p),
    ensures
        entries_match(services.push(s), nodes.push(i), p.push((s@, i as int))),
{
    let p2 = p.push((s@, i as int));
    assert forall|k: int| 0 <= k < p2.len() implies #[trigger] services.push(s)[k]@ == p2[k].0 && nodes.push(i)[k] == p2[k].1 by {
        if k < p.len() {
            assert(services.push(s)[k] == services[k]);
            assert(services[k]@ == p[k].0);
        }
    }
}

/// Position of `s` among the table's services.
fn table_find(t: &ProviderTable, s: &Vec<char>) -> (r: Option<usize>)
    ensures
        match r {
            Some(k) => k < t.services@.len() && t.services@[k as int]@ == s@,
            None => forall|k: int| 0 <= k < t.services@.len() ==> t.services@[k]@ != s@,
        },
{
    let mut k: usize = 0;
    while k < t.services.len()
        invariant
            k <= t.services@.len(),
            forall|x: int| 0 <= x < k ==> t.services@[x]@ != s@,
        decreases t.services@.len() - k,
    {
        if compare_chars(&t.services[k], s) == 0 {
            return Some(k);
        }
        k = k + 1;
    }
    None
}

/// A conflicting provider: the service's position `(node, index in provides)`
/// and the node that provided it first.
struct Conflict {
    node: usize,
    index: usize,
    first: usize,
}

/// Builds the provider table, or finds the first service provided twice.
fn build_provider_table(nodes: &Vec<LayerNode>, Ghost(ns): Ghost<Seq<NodeView>>) -> (r: Result<ProviderTable, Conflict>)
    requires
        ns == nodes@.map_values(|n: LayerNode| n@),
    ensures
        match r {
            Ok(t) => providers_unique(ns) && table_matches(t, provided_pairs(ns, ns.len() as int)),
            Err(c) => c.node < ns.len() && c.index < ns[c.node as int].2.len() && c.first < ns.len() && exists|q: int, k: int|
                #![trigger provided_pairs(ns, ns.len() as int)[q], provided_pairs(ns, ns.len() as int)[k]]
                first_conflict(provided_pairs(ns, ns.len() as int), q) && 0 <= k < q
                    && provided_pairs(ns, ns.len() as int)[k].0 == provided_pairs(ns, ns.len() as int)[q].0
                    && provided_pairs(ns, ns.len() as int)[k].1 == c.first as int
                    && provided_pairs(ns, ns.len() as int)[q] == (ns[c.node as int].2[c.index as int], c.node as int),
        },
{
    let ghost n = ns.len() as int;
    let mut t = ProviderTable { services: Vec::new(), nodes: Vec::new() };
    let mut i: usize = 0;
    while i < nodes.len()
        invariant
            i <= nodes@.len(),
            n == nodes@.len(),
            ns == nodes@.map_values(|n: LayerNode| n@),
            table_matches(t, provided_pairs(ns, i as int)),
            forall|q: int| !conflict_at(provided_pairs(ns, i as int), q),
        decreases nodes@.len() - i,
    {
        let ghost before = provided_pairs(ns, i as int);
        let ghost m = ns[i as int].2.map_values(|s: Seq<char>| (s, i as int));
        assert(provided_pairs(ns, i as int + 1) == before + m);
        let node = &nodes[i];
        assert(node@ == ns[i as int]);
        let mut x: usize = 0;
        while x < node.provides.len()
            invariant
                i < nodes@.len(),
                n == nodes@.len(),
                ns == nodes@.map_values(|n: LayerNode| n@),
                node@ == ns[i as int],
                x <= node.provides@.len(),
                before == provided_pairs(ns, i as int),
                m == ns[i as int].2.map_values(|s: Seq<char>| (s, i as int)),
                provided_pairs(ns, i as int + 1) == before + m,
                table_matches(t, before + m.take(x as int)),
                forall|q: int| !conflict_at(before + m.take(x as int), q),
            decreases node.provides@.len() - x,
        {
            let s = str_chars(node.provides[x].as_str());
            assert(s@ == ns[i as int].2[x as int]);
            let ghost cur = before + m.take(x as int);
            let ghost next = before + m.take(x as int + 1);
            assert(next =~= cur.push((s@, i as int)));
            match table_find(&t, &s) {
                Some(k) => {
                    proof {
                        let full = provided_pairs(ns, n);
                        lemma_provided_pairs_prefix(ns, i as int + 1, n);
                        let q = cur.len() as int;
                        assert(full.take((before + m).len() as int) == before + m);
                        assert(next =~= (before + m).take(q + 1));
                        assert(cur =~= (before + m).take(q));
                        assert(full[q] == next[q]);
                        assert(full[k as int] == next[k as int]);
                        assert(conflict_at(full, q));
                        assert forall|y: int| 0 <= y < q implies !conflict_at(full, y) by {
                            if conflict_at(full, y) {
                                let z = choose|z: int| 0 <= z < y && full[z].0 == full[y].0;
                                assert(full[z] == (before + m)[z]);
                                assert(full[y] == (before + m)[y]);
                                assert(cur[z] == (before + m)[z]);
                                assert(cur[y] == (before + m)[y]);
                                assert(conflict_at(cur, y));
                            }
                        }
                        assert(first_conflict(full, q));
                        assert(cur[k as int] == (t.services@[k as int]@, t.nodes@[k as int] as int));
                        assert(full[k as int].1 == t.nodes@[k as int] as int);
                        assert(full[q] == (ns[i as int].2[x as int], i as int));
                        lemma_provided_pairs_entries(ns, n);
                        assert(full[k as int].1 < n);
                        assert(node.provides@.len() == ns[i as int].2.len());
                    }
                    let c = Conflict { node: i, index: x, first: t.nodes[k] };
                    proof {
                        let full = provided_pairs(ns, n);
                        let q = cur.len() as int;
                        assert(c.node < ns.len() && c.index < ns[c.node as int].2.len());
                        assert(first_conflict(full, q) && 0 <= k < q && full[k as int].0 == full[q].0
                            && full[k as int].1 == c.first as int
                            && full[q] == (ns[c.node as int].2[c.index as int], c.node as int));
                    }
                    return Err(c);
                },
                None => {
                    proof {
                        lemma_entries_push(t.services@, t.nodes@, cur, s, i);
                    }
                    t.services.push(s);
                    t.nodes.push(i);
                    proof {
                        assert forall|q: int| !conflict_at(next, q) by {
                            if conflict_at(next, q) {
                                let z = choose|z: int| 0 <= z < q && next[z].0 == next[q].0;
                                if q < cur.len() {
                                    assert(conflict_at(cur, q));
                                } else {
                                    assert(t.services@[z]@ == next[z].0);
                                }
                            }
                        }
                    }
                },
            }
            x = x + 1;
        }
        assert(m.take(x as int) =~= m);
        assert(before + m == provided_pairs(ns, i as int + 1));
        i = i + 1;
    }
    Ok(t)
}


/// A missing dependency edge from a layer node to a required service key.
#[derive(Clone, Debug, PartialEq, Eq, PartialOrd, Ord)]
pub struct LayerMissingProvider {
    /// Dependent node id.
    pub node: String,
    /// Missing service key.
    pub service: String,
}

impl View for LayerMissingProvider {
    type V = (Seq<char>, Seq<char>);

    open spec fn view(&self) -> (Seq<char>, Seq<char>) {
        (self.node@, self.service@)
    }
}

impl LayerMissingProvider {
    /// Builds a missing dependency record.
    pub fn new(node: &str, service: &str) -> (r: Self)
        ensures
            r@ == (node@, service@),
    {
        LayerMissingProvider { node: node.to_owned(), service: service.to_owned() }
    }
}

/// The `(node, service)` views of missing-provider records.
pub open spec fn missing_view(m: Seq<LayerMissingProvider>) -> Seq<(Seq<char>, Seq<char>)> {
    m.map_values(|x: LayerMissingProvider| x@)
}

/// Requirements of node `i` that no node provides.
pub open spec fn missing_of(ns: Seq<NodeView>, i: int) -> Set<Seq<char>> {
    Set::new(|r: Seq<char>| ns[i].1.contains(r) && !is_provided(ns, r))
}

/// The complete table knows exactly the provided services.
proof fn lemma_table_provided(ns: Seq<NodeView>, t: ProviderTable, r: Seq<char>)
    requires
        table_matches(t, provided_pairs(ns, ns.len() as int)),
    ensures
        is_provided(ns, r) <==> exists|k: int| 0 <= k < t.services@.len() && #[trigger] t.services@[k]@ == r,
{
    let p = provided_pairs(ns, ns.len() as int);
    lemma_provided_pairs_entries(ns, ns.len() as int);
    if is_provided(ns, r) {
        let i = choose|i: int| 0 <= i < ns.len() && ns[i].2.contains(r);
        assert(p.contains((r, i)));
        let k = choose|k: int| 0 <= k < p.len() && p[k] == (r, i);
        assert(t.services@[k]@ == r);
    }
    if exists|k: int| 0 <= k < t.services@.len() && #[trigger] t.services@[k]@ == r {
        let k = choose|k: int| 0 <= k < t.services@.len() && #[trigger] t.services@[k]@ == r;
        assert(p[k].0 == r);
        assert(ns[p[k].1].2.contains(r));
    }
}

proof fn lemma_push_contains<A>(s: Seq<A>, v: A, q: A)
    ensures
        s.push(v).contains(q) <==> (s.contains(q) || q == v),
{
    if s.push(v).contains(q) {
        let k = choose|k: int| 0 <= k < s.push(v).len() && s.push(v)[k] == q;
        if k < s.len() {
            assert(s[k] == q);
        }
    }
    if s.contains(q) {
        let k = choose|k: int| 0 <= k < s.len() && s[k] == q;
        assert(s.push(v)[k] == q);
    }
    if q == v {
        assert(s.push(v)[s.len() as int] == q);
    }
}

/// `id` is among the first `x` keys.
spec fn seen_before(order: Seq<Seq<char>>, x: int, id: Seq<char>) -> bool {
    exists|y: int| 0 <= y < x && order[y] == id
}

/// The ids of all nodes, sorted.
fn sorted_ids(ids: &Vec<Vec<char>>) -> (s: Vec<Vec<char>>)
    ensures
        strictly_sorted(s.deep_view()),
        s.deep_view().to_set() == ids.deep_view().to_set(),
{
    let mut s: Vec<Vec<char>> = Vec::new();
    let mut i: usize = 0;
    while i < ids.len()
        invariant
            i <= ids@.len(),
            strictly_sorted(s.deep_view()),
            s.deep_view().to_set() == ids.deep_view().take(i as int).to_set(),
        decreases ids@.len() - i,
    {
        proof {
            let dv = ids.deep_view();
            assert(dv[i as int] == ids@[i as int]@);
            assert(dv.take(i as int + 1) =~= dv.take(i as int).push(dv[i as int]));
            dv.take(i as int).lemma_push_to_set_commute(dv[i as int]);
        }
        sorted_insert(&mut s, ids[i].clone());
        i = i + 1;
    }
    assert(ids.deep_view().take(i as int) =~= ids.deep_view());
    s
}

/// The services node `j` requires that the table does not list, sorted.
fn node_missing(node: &LayerNode, t: &ProviderTable, Ghost(ns): Ghost<Seq<NodeView>>, Ghost(j): Ghost<int>) -> (ms: Vec<Vec<char>>)
    requires
        0 <= j < ns.len(),
        node@ == ns[j],
        table_matches(*t, provided_pairs(ns, ns.len() as int)),
    ensures
        strictly_sorted(ms.deep_view()),
        ms.deep_view().to_set() == missing_of(ns, j),
{
    let mut ms: Vec<Vec<char>> = Vec::new();
    let mut x: usize = 0;
    while x < node.requires.len()
        invariant
            0 <= j < ns.len(),
            node@ == ns[j],
            table_matches(*t, provided_pairs(ns, ns.len() as int)),
            x <= node.requires@.len(),
            strictly_sorted(ms.deep_view()),
            ms.deep_view().to_set() == Set::new(|r: Seq<char>| ns[j].1.take(x as int).contains(r) && !is_provided(ns, r)),
        decreases node.requires@.len() - x,
    {
        let r = str_chars(node.requires[x].as_str());
        let ghost rv = r@;
        assert(rv == ns[j].1[x as int]);
        let ghost before = Set::new(|q: Seq<char>| ns[j].1.take(x as int).contains(q) && !is_provided(ns, q));
        let ghost after = Set::new(|q: Seq<char>| ns[j].1.take(x as int + 1).contains(q) && !is_provided(ns, q));
        assert(ns[j].1.take(x as int + 1) =~= ns[j].1.take(x as int).push(rv));
        proof {
            lemma_table_provided(ns, *t, rv);
        }
        proof {
            assert forall|q: Seq<char>| ns[j].1.take(x as int + 1).contains(q) <==> (ns[j].1.take(x as int).contains(q) || q == rv) by {
                lemma_push_contains(ns[j].1.take(x as int), rv, q);
            }
        }
        match table_find(t, &r) {
            Some(_) => {
                assert(after =~= before);
            },
            None => {
                assert(!is_provided(ns, rv));
                sorted_insert(&mut ms, r);
                assert forall|q: Seq<char>| after.contains(q) == before.insert(rv).contains(q) by {
                    if q == rv {
                        assert(ns[j].1.take(x as int + 1)[x as int] == rv);
                        assert(ns[j].1.take(x as int + 1).contains(q));
                    }
                }
                assert(after =~= before.insert(rv));
            },
        }
        x = x + 1;
    }
    assert(ns[j].1.take(x as int) =~= ns[j].1);
    assert(ms.deep_view().to_set() =~= missing_of(ns, j));
    ms
}

/// Every missing `(node, service)` pair, sorted by node id then service.
fn collect_missing(nodes: &Vec<LayerNode>, ids: &Vec<Vec<char>>, t: &ProviderTable, Ghost(ns): Ghost<Seq<NodeView>>) -> (out: Vec<LayerMissingProvider>)
    requires
        ns == nodes@.map_values(|n: LayerNode| n@),
        ids@.len() == ns.len(),
        forall|i: int| 0 <= i < ids@.len() ==> #[trigger] ids@[i]@ == ns[i].0,
        ids_unique(ns),
        table_matches(*t, provided_pairs(ns, ns.len() as int)),
    ensures
        pairs_sorted(missing_view(out@)),
        missing_view(out@).to_set() == missing_set(ns),
{
    let order = sorted_ids(ids);
    let ghost all_ids = ids.deep_view().to_set();
    let mut out: Vec<LayerMissingProvider> = Vec::new();
    let mut x: usize = 0;
    while x < order.len()
        invariant
            ns == nodes@.map_values(|n: LayerNode| n@),
            ids@.len() == ns.len(),
            forall|i: int| 0 <= i < ids@.len() ==> #[trigger] ids@[i]@ == ns[i].0,
            ids_unique(ns),
            table_matches(*t, provided_pairs(ns, ns.len() as int)),
            strictly_sorted(order.deep_view()),
            order.deep_view().to_set() == ids.deep_view().to_set(),
            x <= order@.len(),
            pairs_sorted(missing_view(out@)),
            forall|e: int| 0 <= e < out@.len() ==> seen_before(order.deep_view(), x as int, #[trigger] out@[e]@.0),
            missing_view(out@).to_set() == Set::new(|p: (Seq<char>, Seq<char>)| missing_set(ns).contains(p)
                && seen_before(order.deep_view(), x as int, p.0)),
        decreases order@.len() - x,
    {
        // the node with the next id
        assert(order.deep_view()[x as int] == order@[x as int]@);
        assert(ids.deep_view().to_set().contains(order@[x as int]@));
        let mut j: usize = 0;
        while j < ids.len()
            invariant
                j <= ids@.len(),
                x < order@.len(),
                ids@.len() == ns.len(),
                forall|i: int| 0 <= i < ids@.len() ==> #[trigger] ids@[i]@ == ns[i].0,
                ids.deep_view().to_set().contains(order@[x as int]@),
                forall|i: int| 0 <= i < j ==> ids@[i]@ != order@[x as int]@,
            ensures
                j <= ids@.len(),
                j < ids@.len() ==> ids@[j as int]@ == order@[x as int]@,
                forall|i: int| 0 <= i < j ==> ids@[i]@ != order@[x as int]@,
            decreases ids@.len() - j,
        {
            if compare_chars(&ids[j], &order[x]) == 0 {
                break;
            }
            j = j + 1;
        }
        proof {
            if j == ids@.len() {
                let k = choose|k: int| 0 <= k < ids.deep_view().len() && ids.deep_view()[k] == order@[x as int]@;
                assert(ids.deep_view()[k] == ids@[k]@);
            }
        }
        assert(j < ids@.len() && ids@[j as int]@ == order@[x as int]@);
        let node = &nodes[j];
        assert(node@ == ns[j as int]);
        let ms = node_missing(node, t, Ghost(ns), Ghost(j as int));
        let ghost base = out@;
        let ghost id = ns[j as int].0;
        assert forall|e: int| 0 <= e < base.len() implies seen_before(order.deep_view(), x as int, #[trigger] base[e]@.0) by {
            assert(out@[e] == base[e]);
        }
        let mut z: usize = 0;
        while z < ms.len()
            invariant
                ns == nodes@.map_values(|n: LayerNode| n@),
                x < order@.len(),
                j < ns.len(),
                node@ == ns[j as int],
                id == ns[j as int].0,
                id == order@[x as int]@,
                strictly_sorted(order.deep_view()),
                strictly_sorted(ms.deep_view()),
                z <= ms@.len(),
                out@.len() == base.len() + z,
                forall|e: int| 0 <= e < base.len() ==> out@[e] == base[e],
                forall|e: int| 0 <= e < z ==> #[trigger] out@[base.len() + e]@ == (id, ms@[e]@),
                pairs_sorted(missing_view(base)),
                forall|e: int| 0 <= e < base.len() ==> seen_before(order.deep_view(), x as int, #[trigger] base[e]@.0),
                pairs_sorted(missing_view(out@)),
            decreases ms@.len() - z,
        {
            let ghost prev = out@;
            let rec = LayerMissingProvider { node: node.id.clone(), service: chars_to_string(&ms[z]) };
            out.push(rec);
            proof {
                let mv = missing_view(out@);
                assert forall|a: int, b: int| 0 <= a < b < mv.len() implies pair_lt(#[trigger] mv[a], #[trigger] mv[b]) by {
                    if b == mv.len() - 1 {
                        assert(mv[b] == (id, ms@[z as int]@));
                        if a < base.len() {
                            assert(seen_before(order.deep_view(), x as int, base[a]@.0));
                            let y = choose|y: int| 0 <= y < x && order.deep_view()[y] == base[a]@.0;
                            assert(order.deep_view()[x as int] == order@[x as int]@);
                            assert(mv[a] == base[a]@);
                        } else {
                            let e = a - base.len();
                            assert(out@[a] == prev[a]);
                            assert(prev[base.len() + e]@ == (id, ms@[e]@));
                            assert(mv[a] == (id, ms@[e]@));
                            assert(ms.deep_view()[e] == ms@[e]@);
                            assert(ms.deep_view()[z as int] == ms@[z as int]@);
                        }
                    } else {
                        assert(mv[a] == missing_view(prev)[a]);
                        assert(mv[b] == missing_view(prev)[b]);
                    }
                }
            }
            z = z + 1;
        }
        proof {
            let mv = missing_view(out@);
            let cur = Set::new(|p: (Seq<char>, Seq<char>)| missing_set(ns).contains(p)
                && seen_before(order.deep_view(), x + 1, p.0));
            assert(order.deep_view()[x as int] == order@[x as int]@);
            assert(ms.deep_view().to_set() == missing_of(ns, j as int));
            assert forall|p: (Seq<char>, Seq<char>)| mv.to_set().contains(p) implies cur.contains(p) by {
                let e = choose|e: int| 0 <= e < mv.len() && mv[e] == p;
                if e < base.len() {
                    assert(mv[e] == missing_view(base)[e]);
                    assert(missing_view(base).to_set().contains(p));
                    let y = choose|y: int| 0 <= y < x && order.deep_view()[y] == p.0;
                } else {
                    let w = e - base.len();
                    assert(out@[base.len() + w]@ == (id, ms@[w]@));
                    assert(mv[e] == (id, ms@[w]@));
                    assert(ms.deep_view()[w] == ms@[w]@);
                    assert(missing_of(ns, j as int).contains(p.1));
                    assert(missing_set(ns).contains(p));
                    assert(order.deep_view()[x as int] == p.0);
                }
            }
            assert forall|p: (Seq<char>, Seq<char>)| cur.contains(p) implies mv.to_set().contains(p) by {
                let y = choose|y: int| 0 <= y < x + 1 && order.deep_view()[y] == p.0;
                if y < x {
                    assert(missing_view(base).to_set().contains(p));
                    let e = choose|e: int| 0 <= e < base.len() && missing_view(base)[e] == p;
                    assert(mv[e] == missing_view(base)[e]);
                } else {
                    let i = choose|i: int| 0 <= i < ns.len() && ns[i].0 == p.0 && ns[i].1.contains(p.1) && !is_provided(ns, p.1);
                    if i != j as int {
                        assert(dup_at(ns, if i < j { j as int } else { i }));
                    }
                    assert(missing_of(ns, j as int).contains(p.1));
                    assert(ms.deep_view().to_set().contains(p.1));
                    let w = choose|w: int| 0 <= w < ms.deep_view().len() && ms.deep_view()[w] == p.1;
                    assert(ms.deep_view()[w] == ms@[w]@);
                    assert(out@[base.len() + w]@ == (id, ms@[w]@));
                    assert(mv[base.len() + w] == p);
                }
            }
            assert(mv.to_set() =~= cur);
            assert forall|e: int| 0 <= e < out@.len() implies seen_before(order.deep_view(), x + 1, #[trigger] out@[e]@.0) by {
                if e < base.len() {
                    assert(out@[e] == base[e]);
                    let y = choose|y: int| 0 <= y < x && order.deep_view()[y] == base[e]@.0;
                } else {
                    assert(out@[base.len() + (e - base.len())]@ == (id, ms@[e - base.len()]@));
                    assert(order.deep_view()[x as int] == out@[e]@.0);
                }
            }
        }
        x = x + 1;
    }
    proof {
        let mv = missing_view(out@);
        assert(mv.to_set() =~= missing_set(ns)) by {
            assert forall|p: (Seq<char>, Seq<char>)| missing_set(ns).contains(p) implies mv.to_set().contains(p) by {
                let i = choose|i: int| 0 <= i < ns.len() && ns[i].0 == p.0 && ns[i].1.contains(p.1) && !is_provided(ns, p.1);
                assert(ids.deep_view()[i] == ids@[i]@);
                assert(ids.deep_view().to_set().contains(p.0));
                assert(order.deep_view().to_set().contains(p.0));
                let y = choose|y: int| 0 <= y < order.deep_view().len() && order.deep_view()[y] == p.0;
                assert(seen_before(order.deep_view(), x as int, p.0));
            }
        }
    }
    out
}


/// Node indices as integers.
pub open spec fn as_ints(s: Seq<usize>) -> Seq<int> {
    s.map_values(|x: usize| x as int)
}

/// Ids of the ready nodes.
pub open spec fn ready_ids(ns: Seq<NodeView>, built: Seq<int>) -> Set<Seq<char>> {
    Set::new(|id: Seq<char>| exists|w: int| ready(ns, built, w) && ns[w].0 == id)
}

/// A duplicate-free sequence of indices below `n` that misses `v` is shorter than `n`.
proof fn lemma_bounded_distinct(s: Seq<int>, n: int, v: int)
    requires
        s.no_duplicates(),
        forall|k: int| 0 <= k < s.len() ==> 0 <= #[trigger] s[k] < n,
        0 <= v < n,
        !s.contains(v),
    ensures
        s.len() < n,
{
    let range = vstd::set_lib::set_int_range(0, n).remove(v);
    vstd::set_lib::lemma_int_range(0, n);
    s.unique_seq_to_set();
    assert(s.to_set().subset_of(range));
    vstd::set_lib::lemma_len_subset(s.to_set(), range);
}

/// Which nodes each node depends on.
fn dependency_lists(nodes: &Vec<LayerNode>, t: &ProviderTable, Ghost(ns): Ghost<Seq<NodeView>>) -> (deps: Vec<Vec<usize>>)
    requires
        ns == nodes@.map_values(|n: LayerNode| n@),
        table_matches(*t, provided_pairs(ns, ns.len() as int)),
        providers_unique(ns),
        missing_set(ns).is_empty(),
    ensures
        deps@.len() == ns.len(),
        forall|v: int, k: int| 0 <= v < ns.len() && 0 <= k < deps@[v]@.len() ==> #[trigger] deps@[v]@[k] < ns.len(),
        forall|v: int, u: usize| 0 <= v < ns.len() && u < ns.len() ==> (#[trigger] deps@[v]@.contains(u) <==> depends_on(ns, v, u as int)),
{
    let ghost n = ns.len() as int;
    let ghost p = provided_pairs(ns, n);
    proof {
        lemma_provided_pairs_entries(ns, n);
    }
    let mut deps: Vec<Vec<usize>> = Vec::new();
    let mut v: usize = 0;
    while v < nodes.len()
        invariant
            v <= nodes@.len(),
            n == nodes@.len(),
            ns == nodes@.map_values(|n: LayerNode| n@),
            p == provided_pairs(ns, n),
            table_matches(*t, p),
            providers_unique(ns),
            missing_set(ns).is_empty(),
            forall|q: int| 0 <= q < p.len() ==> 0 <= #[trigger] p[q].1 < n && ns[p[q].1].2.contains(p[q].0),
            deps@.len() == v,
            forall|a: int, k: int| 0 <= a < v && 0 <= k < deps@[a]@.len() ==> #[trigger] deps@[a]@[k] < n,
            forall|a: int, u: usize| 0 <= a < v && u < n ==> (#[trigger] deps@[a]@.contains(u) <==> depends_on(ns, a, u as int)),
        decreases nodes@.len() - v,
    {
        let node = &nodes[v];
        assert(node@ == ns[v as int]);
        let mut mine: Vec<usize> = Vec::new();
        let mut x: usize = 0;
        while x < node.requires.len()
            invariant
                v < nodes@.len(),
                n == nodes@.len(),
                ns == nodes@.map_values(|n: LayerNode| n@),
                node@ == ns[v as int],
                p == provided_pairs(ns, n),
                table_matches(*t, p),
                providers_unique(ns),
                missing_set(ns).is_empty(),
                forall|q: int| 0 <= q < p.len() ==> 0 <= #[trigger] p[q].1 < n && ns[p[q].1].2.contains(p[q].0),
                x <= node.requires@.len(),
                forall|k: int| 0 <= k < mine@.len() ==> #[trigger] mine@[k] < n,
                forall|u: usize| u < n ==> (#[trigger] mine@.contains(u) <==> (u != v
                    && exists|r: Seq<char>| ns[v as int].1.take(x as int).contains(r) && ns[u as int].2.contains(r))),
            decreases node.requires@.len() - x,
        {
            let r = str_chars(node.requires[x].as_str());
            let ghost rv = r@;
            assert(rv == ns[v as int].1[x as int]);
            assert(ns[v as int].1.contains(rv));
            proof {
                lemma_table_provided(ns, *t, rv);
                if !is_provided(ns, rv) {
                    assert(missing_set(ns).contains((ns[v as int].0, rv)));
                }
                assert forall|q: Seq<char>| ns[v as int].1.take(x as int + 1).contains(q) <==> (ns[v as int].1.take(x as int).contains(q) || q == rv) by {
                    assert(ns[v as int].1.take(x as int + 1) =~= ns[v as int].1.take(x as int).push(rv));
                    lemma_push_contains(ns[v as int].1.take(x as int), rv, q);
                }
            }
            let k = match table_find(t, &r) {
                Some(k) => k,
                None => {
                    assert(false);
                    0
                },
            };
            let u = t.nodes[k];
            assert(p[k as int] == (rv, u as int));
            assert(ns[u as int].2.contains(rv));
            let ghost old_mine = mine@;
            if u != v {
                mine.push(u);
            }
            proof {
                assert forall|w: usize| w < n implies (#[trigger] mine@.contains(w) <==> (w != v
                    && exists|q: Seq<char>| ns[v as int].1.take(x as int + 1).contains(q) && ns[w as int].2.contains(q))) by {
                    lemma_push_contains(old_mine, u, w);
                    if exists|q: Seq<char>| ns[v as int].1.take(x as int + 1).contains(q) && ns[w as int].2.contains(q) {
                        let q = choose|q: Seq<char>| ns[v as int].1.take(x as int + 1).contains(q) && ns[w as int].2.contains(q);
                        if q == rv {
                            lemma_unique_provider(ns, u as int, w as int, rv);
                        }
                    }
                    if w == u && w != v {
                        assert(ns[v as int].1.take(x as int + 1)[x as int] == rv);
                        assert(ns[v as int].1.take(x as int + 1).contains(rv));
                    }
                }
            }
            x = x + 1;
        }
        proof {
            assert(ns[v as int].1.take(x as int) =~= ns[v as int].1);
        }
        deps.push(mine);
        v = v + 1;
    }
    deps
}

/// For each node, the nodes that depend on it.
fn dependent_lists(deps: &Vec<Vec<usize>>, Ghost(ns): Ghost<Seq<NodeView>>) -> (out: Vec<Vec<usize>>)
    requires
        deps@.len() == ns.len(),
        forall|v: int, k: int| 0 <= v < ns.len() && 0 <= k < deps@[v]@.len() ==> #[trigger] deps@[v]@[k] < ns.len(),
        forall|v: int, u: usize| 0 <= v < ns.len() && u < ns.len() ==> (#[trigger] deps@[v]@.contains(u) <==> depends_on(ns, v, u as int)),
    ensures
        out@.len() == ns.len(),
        forall|u: int, k: int| 0 <= u < ns.len() && 0 <= k < out@[u]@.len() ==> #[trigger] out@[u]@[k] < ns.len(),
        forall|u: int, v: usize| 0 <= u < ns.len() && v < ns.len() ==> (#[trigger] out@[u]@.contains(v) <==> depends_on(ns, v as int, u)),
{
    let mut out: Vec<Vec<usize>> = Vec::new();
    let mut u: usize = 0;
    while u < deps.len()
        invariant
            u <= deps@.len(),
            deps@.len() == ns.len(),
            forall|v: int, u: usize| 0 <= v < ns.len() && u < ns.len() ==> (#[trigger] deps@[v]@.contains(u) <==> depends_on(ns, v, u as int)),
            out@.len() == u,
            forall|a: int, k: int| 0 <= a < u && 0 <= k < out@[a]@.len() ==> #[trigger] out@[a]@[k] < ns.len(),
            forall|a: int, v: usize| 0 <= a < u && v < ns.len() ==> (#[trigger] out@[a]@.contains(v) <==> depends_on(ns, v as int, a)),
        decreases deps@.len() - u,
    {
        let mut mine: Vec<usize> = Vec::new();
        let mut v: usize = 0;
        while v < deps.len()
            invariant
                u < deps@.len(),
                v <= deps@.len(),
                deps@.len() == ns.len(),
                forall|v: int, u: usize| 0 <= v < ns.len() && u < ns.len() ==> (#[trigger] deps@[v]@.contains(u) <==> depends_on(ns, v, u as int)),
                forall|k: int| 0 <= k < mine@.len() ==> #[trigger] mine@[k] < v,
                forall|w: usize| w < ns.len() ==> (#[trigger] mine@.contains(w) <==> (w < v && depends_on(ns, w as int, u as int))),
            decreases deps@.len() - v,
        {
            let ghost old_mine = mine@;
            if contains_index(&deps[v], u) {
                mine.push(v);
            }
            proof {
                assert forall|w: usize| w < ns.len() implies (#[trigger] mine@.contains(w) <==> (w < v + 1 && depends_on(ns, w as int, u as int))) by {
                    lemma_push_contains(old_mine, v, w);
                    assert(deps@[v as int]@.contains(u) <==> depends_on(ns, v as int, u as int));
                }
            }
            v = v + 1;
        }
        out.push(mine);
        u = u + 1;
    }
    out
}

/// Whether `x` occurs in `v`.
fn contains_index(v: &Vec<usize>, x: usize) -> (r: bool)
    ensures
        r == v@.contains(x),
{
    let mut i: usize = 0;
    while i < v.len()
        invariant
            i <= v@.len(),
            forall|k: int| 0 <= k < i ==> v@[k] != x,
        decreases v@.len() - i,
    {
        if v[i] == x {
            return true;
        }
        i = i + 1;
    }
    false
}

/// Whether every listed node is built.
fn all_built(list: &Vec<usize>, built: &Vec<bool>) -> (r: bool)
    requires
        forall|k: int| 0 <= k < list@.len() ==> #[trigger] list@[k] < built@.len(),
    ensures
        r == forall|k: int| 0 <= k < list@.len() ==> built@[#[trigger] list@[k] as int],
{
    let mut i: usize = 0;
    while i < list.len()
        invariant
            i <= list@.len(),
            forall|k: int| 0 <= k < list@.len() ==> #[trigger] list@[k] < built@.len(),
            forall|k: int| 0 <= k < i ==> built@[#[trigger] list@[k] as int],
        decreases list@.len() - i,
    {
        if !built[list[i]] {
            return false;
        }
        i = i + 1;
    }
    true
}

/// Index of the node with id `x`.
fn index_of_id(ids: &Vec<Vec<char>>, x: &Vec<char>) -> (r: usize)
    requires
        exists|i: int| 0 <= i < ids@.len() && ids@[i]@ == x@,
    ensures
        r < ids@.len(),
        ids@[r as int]@ == x@,
{
    let mut i: usize = 0;
    while i < ids.len()
        invariant
            i <= ids@.len(),
            exists|j: int| i <= j < ids@.len() && ids@[j]@ == x@,
        decreases ids@.len() - i,
    {
        if compare_chars(&ids[i], x) == 0 {
            return i;
        }
        i = i + 1;
    }
    assert(false);
    0
}


/// Builds nodes in Kahn order with the ready set ordered by id: returns the
/// built node indices in build order and which nodes were built.
fn kahn_order(
    ids: &Vec<Vec<char>>,
    deps: &Vec<Vec<usize>>,
    dependents: &Vec<Vec<usize>>,
    Ghost(ns): Ghost<Seq<NodeView>>,
) -> (r: (Vec<usize>, Vec<bool>))
    requires
        ids@.len() == ns.len(),
        forall|i: int| 0 <= i < ids@.len() ==> #[trigger] ids@[i]@ == ns[i].0,
        ids_unique(ns),
        deps@.len() == ns.len(),
        forall|v: int, k: int| 0 <= v < ns.len() && 0 <= k < deps@[v]@.len() ==> #[trigger] deps@[v]@[k] < ns.len(),
        forall|v: int, u: usize| 0 <= v < ns.len() && u < ns.len() ==> (#[trigger] deps@[v]@.contains(u) <==> depends_on(ns, v, u as int)),
        dependents@.len() == ns.len(),
        forall|u: int, k: int| 0 <= u < ns.len() && 0 <= k < dependents@[u]@.len() ==> #[trigger] dependents@[u]@[k] < ns.len(),
        forall|u: int, v: usize| 0 <= u < ns.len() && v < ns.len() ==> (#[trigger] dependents@[u]@.contains(v) <==> depends_on(ns, v as int, u)),
    ensures
        as_ints(r.0@) == build_order(ns),
        forall|k: int| 0 <= k < r.0@.len() ==> #[trigger] r.0@[k] < ns.len(),
        r.0@.len() <= ns.len(),
        r.1@.len() == ns.len(),
        forall|v: int| 0 <= v < ns.len() ==> (r.1@[v] <==> build_order(ns).contains(v)),
{
    let n = ids.len();
    let mut built: Vec<bool> = Vec::new();
    let mut i: usize = 0;
    while i < n
        invariant
            i <= n,
            built@.len() == i,
            forall|k: int| 0 <= k < i ==> !built@[k],
        decreases n - i,
    {
        built.push(false);
        i = i + 1;
    }
    let mut done: Vec<usize> = Vec::new();
    let mut queue: Vec<Vec<char>> = Vec::new();
    let mut v: usize = 0;
    while v < n
        invariant
            n == ns.len(),
            ids@.len() == ns.len(),
            forall|i: int| 0 <= i < ids@.len() ==> #[trigger] ids@[i]@ == ns[i].0,
            deps@.len() == ns.len(),
            forall|v: int, k: int| 0 <= v < ns.len() && 0 <= k < deps@[v]@.len() ==> #[trigger] deps@[v]@[k] < ns.len(),
            forall|v: int, u: usize| 0 <= v < ns.len() && u < ns.len() ==> (#[trigger] deps@[v]@.contains(u) <==> depends_on(ns, v, u as int)),
            built@.len() == n,
            forall|k: int| 0 <= k < n ==> !built@[k],
            done@.len() == 0,
            v <= n,
            strictly_sorted(queue.deep_view()),
            queue.deep_view().to_set() == Set::new(|id: Seq<char>| exists|w: int| 0 <= w < v && ready(ns, as_ints(done@), w) && ns[w].0 == id),
        decreases n - v,
    {
        let ghost before = queue.deep_view().to_set();
        proof {
            lemma_ready_iff_built(ns, deps, built@, as_ints(done@), v as int);
        }
        if deps[v].len() == 0 {
            sorted_insert(&mut queue, clone_chars(&ids[v]));
        }
        proof {
            let d = as_ints(done@);
            let after = Set::new(|id: Seq<char>| exists|w: int| 0 <= w < v + 1 && ready(ns, d, w) && ns[w].0 == id);
            assert(ready(ns, d, v as int) == (deps@[v as int]@.len() == 0)) by {
                if deps@[v as int]@.len() > 0 {
                    assert(deps@[v as int]@.contains(deps@[v as int]@[0]));
                }
            }
            assert forall|id: Seq<char>| queue.deep_view().to_set().contains(id) == after.contains(id) by {
                if after.contains(id) {
                    let w = choose|w: int| 0 <= w < v + 1 && ready(ns, d, w) && ns[w].0 == id;
                    if w < v {
                        assert(before.contains(id));
                    }
                }
                if before.contains(id) {
                    let w = choose|w: int| 0 <= w < v && ready(ns, d, w) && ns[w].0 == id;
                    assert(after.contains(id));
                }
            }
            assert(queue.deep_view().to_set() =~= after);
        }
        v = v + 1;
    }
    assert(queue.deep_view().to_set() =~= ready_ids(ns, as_ints(done@)));
    assert(as_ints(done@) =~= build_steps(ns, 0));
    while queue.len() > 0
        invariant
            n == ns.len(),
            ids@.len() == ns.len(),
            forall|i: int| 0 <= i < ids@.len() ==> #[trigger] ids@[i]@ == ns[i].0,
            ids_unique(ns),
            deps@.len() == ns.len(),
            forall|v: int, k: int| 0 <= v < ns.len() && 0 <= k < deps@[v]@.len() ==> #[trigger] deps@[v]@[k] < ns.len(),
            forall|v: int, u: usize| 0 <= v < ns.len() && u < ns.len() ==> (#[trigger] deps@[v]@.contains(u) <==> depends_on(ns, v, u as int)),
            dependents@.len() == ns.len(),
            forall|u: int, k: int| 0 <= u < ns.len() && 0 <= k < dependents@[u]@.len() ==> #[trigger] dependents@[u]@[k] < ns.len(),
            forall|u: int, v: usize| 0 <= u < ns.len() && v < ns.len() ==> (#[trigger] dependents@[u]@.contains(v) <==> depends_on(ns, v as int, u)),
            built@.len() == n,
            forall|k: int| 0 <= k < n ==> (built@[k] <==> as_ints(done@).contains(k)),
            as_ints(done@) == build_steps(ns, done@.len() as nat),
            as_ints(done@).no_duplicates(),
            forall|k: int| 0 <= k < done@.len() ==> #[trigger] done@[k] < n,
            done@.len() <= n,
            strictly_sorted(queue.deep_view()),
            queue.deep_view().to_set() == ready_ids(ns, as_ints(done@)),
        decreases n - done@.len(),
    {
        let ghost d = as_ints(done@);
        let ghost qv = queue.deep_view();
        let x = queue.remove(0);
        assert(qv[0] == x@);
        assert(qv.to_set().contains(x@));
        let ghost w0 = choose|w: int| ready(ns, d, w) && ns[w].0 == x@;
        assert(ids@[w0]@ == x@);
        let v = index_of_id(ids, &x);
        proof {
            if v as int != w0 {
                let (a, b) = if (v as int) < w0 { (v as int, w0) } else { (w0, v as int) };
                assert(dup_at(ns, b));
            }
            assert(ready(ns, d, v as int));
            // `v` has the smallest id among the ready nodes
            assert forall|w: int| #[trigger] ready(ns, d, w) && w != v implies lex_lt(ns[v as int].0, ns[w].0) by {
                assert(ready_ids(ns, d).contains(ns[w].0));
                let p = choose|p: int| 0 <= p < qv.len() && qv[p] == ns[w].0;
                if p == 0 {
                    let (a, b) = if (v as int) < w { (v as int, w) } else { (w, v as int) };
                    assert(ns[a].0 == ns[b].0);
                    assert(dup_at(ns, b));
                }
            }
            assert(next_ready(ns, d, v as int));
            let c = choose|c: int| next_ready(ns, d, c);
            lemma_next_ready_unique(ns, d, c, v as int);
            assert(build_steps(ns, (d.len() + 1) as nat) == d.push(v as int));
            lemma_bounded_distinct(d, n as int, v as int);
        }
        built[v] = true;
        done.push(v);
        let ghost d2 = as_ints(done@);
        proof {
            assert(d2 =~= d.push(v as int));
            assert forall|k: int| 0 <= k < n implies (built@[k] <==> d2.contains(k)) by {
                lemma_push_contains(d, v as int, k);
            }
            assert(d2.no_duplicates()) by {
                assert forall|a: int, b: int| 0 <= a < b < d2.len() implies d2[a] != d2[b] by {
                    if b == d2.len() - 1 {
                        assert(d.contains(d2[a]));
                    }
                }
            }
        }
        // the queue now holds the ready nodes except the ones that became ready
        let ghost base = queue.deep_view().to_set();
        proof {
            lemma_sorted_no_duplicates(qv);
            let qn = queue.deep_view();
            assert(qn =~= qv.remove(0)) by {
                assert forall|k: int| 0 <= k < qn.len() implies qn[k] == qv.remove(0)[k] by {
                    assert(qn[k] == queue@[k]@);
                }
            }
            assert forall|a: int, b: int| 0 <= a < b < qn.len() implies lex_lt(#[trigger] qn[a], #[trigger] qn[b]) by {
                assert(qn[a] == qv[a + 1]);
                assert(qn[b] == qv[b + 1]);
            }
            assert forall|id: Seq<char>| base.contains(id) <==> (ready_ids(ns, d).contains(id) && id != x@) by {
                let qn = queue.deep_view();
                assert(qn =~= qv.remove(0));
                if base.contains(id) {
                    let p = choose|p: int| 0 <= p < qn.len() && qn[p] == id;
                    assert(qv[p + 1] == id);
                    assert(qv.to_set().contains(id));
                }
                if ready_ids(ns, d).contains(id) && id != x@ {
                    let p = choose|p: int| 0 <= p < qv.len() && qv[p] == id;
                    assert(p != 0);
                    assert(qn[p - 1] == id);
                }
            }
        }
        let list = &dependents[v];
        let mut t: usize = 0;
        while t < list.len()
            invariant
                n == ns.len(),
                v < n,
                list == dependents@[v as int],
                ids@.len() == ns.len(),
                forall|i: int| 0 <= i < ids@.len() ==> #[trigger] ids@[i]@ == ns[i].0,
                deps@.len() == ns.len(),
                forall|v: int, k: int| 0 <= v < ns.len() && 0 <= k < deps@[v]@.len() ==> #[trigger] deps@[v]@[k] < ns.len(),
                forall|v: int, u: usize| 0 <= v < ns.len() && u < ns.len() ==> (#[trigger] deps@[v]@.contains(u) <==> depends_on(ns, v, u as int)),
                forall|k: int| 0 <= k < list@.len() ==> #[trigger] list@[k] < ns.len(),
                built@.len() == n,
                forall|k: int| 0 <= k < n ==> (built@[k] <==> d2.contains(k)),
                t <= list@.len(),
                strictly_sorted(queue.deep_view()),
                queue.deep_view().to_set() == base.union(Set::new(|id: Seq<char>| exists|k: int| 0 <= k < t
                    && ready(ns, d2, #[trigger] list@[k] as int) && ns[list@[k] as int].0 == id)),
            decreases list@.len() - t,
        {
            let dd = list[t];
            let ghost before_t = queue.deep_view().to_set();
            proof {
                lemma_ready_iff_built(ns, deps, built@, d2, dd as int);
            }
            let now_ready = !built[dd] && all_built(&deps[dd], &built);
            if now_ready {
                sorted_insert(&mut queue, clone_chars(&ids[dd]));
            }
            proof {
                let added = Set::new(|id: Seq<char>| exists|k: int| 0 <= k < t
                    && ready(ns, d2, #[trigger] list@[k] as int) && ns[list@[k] as int].0 == id);
                let added2 = Set::new(|id: Seq<char>| exists|k: int| 0 <= k < t + 1
                    && ready(ns, d2, #[trigger] list@[k] as int) && ns[list@[k] as int].0 == id);
                assert forall|id: Seq<char>| queue.deep_view().to_set().contains(id) == base.union(added2).contains(id) by {
                    if added2.contains(id) {
                        let k = choose|k: int| 0 <= k < t + 1 && ready(ns, d2, #[trigger] list@[k] as int) && ns[list@[k] as int].0 == id;
                        if k < t {
                            assert(added.contains(id));
                        }
                    }
                    if added.contains(id) {
                        let k = choose|k: int| 0 <= k < t && ready(ns, d2, #[trigger] list@[k] as int) && ns[list@[k] as int].0 == id;
                        assert(added2.contains(id));
                    }
                }
                assert(queue.deep_view().to_set() =~= base.union(added2));
            }
            t = t + 1;
        }
        proof {
            let added = Set::new(|id: Seq<char>| exists|k: int| 0 <= k < list@.len()
                && ready(ns, d2, #[trigger] list@[k] as int) && ns[list@[k] as int].0 == id);
            assert forall|id: Seq<char>| queue.deep_view().to_set().contains(id) == ready_ids(ns, d2).contains(id) by {
                if ready_ids(ns, d2).contains(id) {
                    let w = choose|w: int| ready(ns, d2, w) && ns[w].0 == id;
                    if ready(ns, d, w) {
                        assert(w != v);
                        if id == x@ {
                            assert(ns[w].0 == ns[v as int].0);
                            let (a, b) = if (v as int) < w { (v as int, w) } else { (w, v as int) };
                            assert(dup_at(ns, b));
                        }
                        assert(base.contains(id));
                    } else {
                        // some dependency of `w` was built just now: it is `v`
                        let u = choose|u: int| 0 <= u < ns.len() && #[trigger] depends_on(ns, w, u) && !d.contains(u);
                        assert(d2.contains(u));
                        lemma_push_contains(d, v as int, u);
                        assert(u == v);
                        assert(dependents@[v as int]@.contains(w as usize));
                        let k = choose|k: int| 0 <= k < list@.len() && list@[k] == w as usize;
                        assert(added.contains(id));
                    }
                }
                if base.contains(id) {
                    let w = choose|w: int| ready(ns, d, w) && ns[w].0 == id;
                    assert(w != v as int);
                    assert(!d2.contains(w)) by {
                        lemma_push_contains(d, v as int, w);
                    }
                    assert forall|u: int| 0 <= u < ns.len() && #[trigger] depends_on(ns, w, u) implies d2.contains(u) by {
                        lemma_push_contains(d, v as int, u);
                    }
                    assert(ready(ns, d2, w));
                }
                if added.contains(id) {
                    let k = choose|k: int| 0 <= k < list@.len() && ready(ns, d2, #[trigger] list@[k] as int) && ns[list@[k] as int].0 == id;
                }
            }
            assert(queue.deep_view().to_set() =~= ready_ids(ns, d2));
        }
    }
    proof {
        let d = as_ints(done@);
        assert forall|v: int| !next_ready(ns, d, v) by {
            if next_ready(ns, d, v) {
                assert(ready_ids(ns, d).contains(ns[v].0));
                assert(queue.deep_view().to_set().contains(ns[v].0));
            }
        }
        lemma_build_steps_stable(ns, done@.len() as nat, ns.len());
    }
    (done, built)
}

/// Readiness in terms of the built flags and the dependency lists.
proof fn lemma_ready_iff_built(ns: Seq<NodeView>, deps: &Vec<Vec<usize>>, built: Seq<bool>, d: Seq<int>, v: int)
    requires
        0 <= v < ns.len(),
        ns.len() <= usize::MAX,
        deps@.len() == ns.len(),
        built.len() == ns.len(),
        forall|k: int| 0 <= k < ns.len() ==> (built[k] <==> d.contains(k)),
        forall|v: int, k: int| 0 <= v < ns.len() && 0 <= k < deps@[v]@.len() ==> #[trigger] deps@[v]@[k] < ns.len(),
        forall|v: int, u: usize| 0 <= v < ns.len() && u < ns.len() ==> (#[trigger] deps@[v]@.contains(u) <==> depends_on(ns, v, u as int)),
    ensures
        ready(ns, d, v) == (!built[v] && forall|k: int| 0 <= k < deps@[v]@.len() ==> built[#[trigger] deps@[v]@[k] as int]),
{
    let list = deps@[v]@;
    if ready(ns, d, v) {
        assert forall|k: int| 0 <= k < list.len() implies built[#[trigger] list[k] as int] by {
            assert(list.contains(list[k]));
            assert(depends_on(ns, v, list[k] as int));
        }
    }
    if !built[v] && forall|k: int| 0 <= k < list.len() ==> built[#[trigger] list[k] as int] {
        assert forall|u: int| 0 <= u < ns.len() && #[trigger] depends_on(ns, v, u) implies d.contains(u) by {
            assert(list.contains(u as usize));
            let k = choose|k: int| 0 <= k < list.len() && list[k] == u as usize;
            assert(built[list[k] as int]);
        }
    }
}


/// Successful planner output: layer node ids in an order that respects dependencies.
#[derive(Clone, Debug, PartialEq, Eq)]
pub struct LayerPlan {
    /// Node ids from roots to leaves (each requirement appears before its dependents).
    pub build_order: Vec<String>,
}

/// Failure returned by [`LayerGraph::plan_topological`] and related APIs.
#[derive(Clone, Debug, PartialEq, Eq)]
pub enum LayerPlannerError {
    /// Two nodes share the same `id`.
    DuplicateNodeId {
        /// The duplicated node id.
        id: String,
    },
    /// More than one node lists the same service in `provides`.
    ConflictingProvider {
        /// Conflicting service key.
        service: String,
        /// First provider's node id.
        first: String,
        /// Second provider's node id.
        second: String,
    },
    /// A node `requires` a service that no node `provides`.
    MissingProvider {
        /// Dependent node id.
        node: String,
        /// Missing service key.
        service: String,
    },
    /// One or more nodes require services that no node provides.
    MissingProviders {
        /// Missing dependency edges sorted by node id then service key.
        missing: Vec<LayerMissingProvider>,
    },
    /// The dependency graph contains a cycle (subset of involved node ids).
    CycleDetected {
        /// Nodes that still had positive indegree when planning stalled.
        nodes: Vec<String>,
    },
}

/// What planning the nodes `ns` yields, stated per outcome: the first
/// duplicate id, else the first service provided twice, else every missing
/// provider (sorted), else the nodes a cycle keeps from being built (sorted by
/// id), else the build order.
pub open spec fn plan_outcome(ns: Seq<NodeView>, r: Result<LayerPlan, LayerPlannerError>) -> bool {
    let p = provided_pairs(ns, ns.len() as int);
    match r {
        Err(LayerPlannerError::DuplicateNodeId { id }) => exists|j: int| first_dup(ns, j) && id@ == ns[j].0,
        Err(LayerPlannerError::ConflictingProvider { service, first, second }) => {
            &&& ids_unique(ns)
            &&& exists|q: int, k: int|
                #![trigger p[q], p[k]]
                first_conflict(p, q) && 0 <= k < q && p[k].0 == p[q].0 && service@ == p[q].0
                    && first@ == ns[p[k].1].0 && second@ == ns[p[q].1].0
        },
        Err(LayerPlannerError::MissingProvider { .. }) => false,
        Err(LayerPlannerError::MissingProviders { missing }) => {
            &&& ids_unique(ns)
            &&& providers_unique(ns)
            &&& !missing_set(ns).is_empty()
            &&& pairs_sorted(missing_view(missing@))
            &&& missing_view(missing@).to_set() == missing_set(ns)
        },
        Err(LayerPlannerError::CycleDetected { nodes }) => {
            &&& ids_unique(ns)
            &&& providers_unique(ns)
            &&& missing_set(ns).is_empty()
            &&& build_order(ns).len() < ns.len()
            &&& strictly_sorted(nodes.deep_view())
            &&& nodes.deep_view().to_set() == unbuilt_ids(ns)
        },
        Ok(plan) => {
            &&& ids_unique(ns)
            &&& providers_unique(ns)
            &&& missing_set(ns).is_empty()
            &&& build_order(ns).len() == ns.len()
            &&& plan.build_order.deep_view() == build_order(ns).map_values(|v: int| ns[v].0)
        },
    }
}

impl LayerGraph {
    /// Graph containing the given nodes (order is preserved only in the stored `nodes` slice).
    pub fn new(nodes: Vec<LayerNode>) -> (g: Self)
        ensures
            g.nodes@ == nodes@,
    {
        LayerGraph { nodes }
    }

    /// Computes a topological order over nodes from `requires` / `provides` edges, or the first planner error.
    pub fn plan_topological(&self) -> (r: Result<LayerPlan, LayerPlannerError>)
        ensures
            plan_outcome(self@, r),
    {
        let ghost ns = self@;
        let nodes = &self.nodes;
        let ids = node_ids(nodes);
        assert forall|i: int| 0 <= i < ids@.len() implies #[trigger] ids@[i]@ == ns[i].0 by {
            assert(ns[i] == nodes@[i]@);
        }
        if let Some(j) = find_first_dup(&ids, Ghost(ns)) {
            assert(ns[j as int] == nodes@[j as int]@);
            let r = Err(LayerPlannerError::DuplicateNodeId { id: nodes[j].id.clone() });
            assert(plan_outcome(ns, r));
            return r;
        }
        let table = match build_provider_table(nodes, Ghost(ns)) {
            Ok(t) => t,
            Err(c) => {
                let node = &nodes[c.node];
                assert(node@ == ns[c.node as int]);
                assert(nodes@[c.first as int]@ == ns[c.first as int]);
                assert(node.provides.deep_view()[c.index as int] == node.provides@[c.index as int]@);
                let r = Err(
                    LayerPlannerError::ConflictingProvider {
                        service: node.provides[c.index].clone(),
                        first: nodes[c.first].id.clone(),
                        second: node.id.clone(),
                    },
                );
                assert(plan_outcome(ns, r));
                return r;
            },
        };
        let missing = collect_missing(nodes, &ids, &table, Ghost(ns));
        if missing.len() > 0 {
            proof {
                assert(missing_view(missing@).to_set().contains(missing_view(missing@)[0]));
            }
            let r = Err(LayerPlannerError::MissingProviders { missing });
            assert(plan_outcome(ns, r));
            return r;
        }
        assert(missing_view(missing@).to_set() =~= Set::empty());
        let deps = dependency_lists(nodes, &table, Ghost(ns));
        let dependents = dependent_lists(&deps, Ghost(ns));
        let (done, built) = kahn_order(&ids, &deps, &dependents, Ghost(ns));
        if done.len() == nodes.len() {
            let mut order: Vec<String> = Vec::new();
            let mut k: usize = 0;
            while k < done.len()
                invariant
                    k <= done@.len(),
                    ns == nodes@.map_values(|n: LayerNode| n@),
                    as_ints(done@) == build_order(ns),
                    forall|i: int| 0 <= i < done@.len() ==> #[trigger] done@[i] < ns.len(),
                    order@.len() == k,
                    forall|i: int| 0 <= i < k ==> #[trigger] order@[i]@ == ns[done@[i] as int].0,
                decreases done@.len() - k,
            {
                assert(as_ints(done@)[k as int] == done@[k as int] as int);
                let v = done[k];
                assert(nodes@[v as int]@ == ns[v as int]);
                order.push(nodes[v].id.clone());
                k = k + 1;
            }
            proof {
                let want = build_order(ns).map_values(|v: int| ns[v].0);
                assert(order.deep_view() =~= want) by {
                    assert forall|i: int| 0 <= i < want.len() implies order.deep_view()[i] == want[i] by {
                        assert(order.deep_view()[i] == order@[i]@);
                        assert(as_ints(done@)[i] == done@[i] as int);
                    }
                }
            }
            let r = Ok(LayerPlan { build_order: order });
            assert(plan_outcome(ns, r));
            r
        } else {
            proof {
                assert(as_ints(done@).len() == done@.len());
            }
            let mut cyc: Vec<Vec<char>> = Vec::new();
            let mut v: usize = 0;
            while v < nodes.len()
                invariant
                    v <= nodes@.len(),
                    ns == nodes@.map_values(|n: LayerNode| n@),
                    ids@.len() == ns.len(),
                    forall|i: int| 0 <= i < ids@.len() ==> #[trigger] ids@[i]@ == ns[i].0,
                    built@.len() == ns.len(),
                    forall|w: int| 0 <= w < ns.len() ==> (built@[w] <==> build_order(ns).contains(w)),
                    strictly_sorted(cyc.deep_view()),
                    cyc.deep_view().to_set() == Set::new(|id: Seq<char>| exists|w: int| 0 <= w < v
                        && !build_order(ns).contains(w) && ns[w].0 == id),
                decreases nodes@.len() - v,
            {
                let ghost before = cyc.deep_view().to_set();
                if !built[v] {
                    sorted_insert(&mut cyc, clone_chars(&ids[v]));
                }
                proof {
                    let after = Set::new(|id: Seq<char>| exists|w: int| 0 <= w < v + 1
                        && !build_order(ns).contains(w) && ns[w].0 == id);
                    assert forall|id: Seq<char>| cyc.deep_view().to_set().contains(id) == after.contains(id) by {
                        if after.contains(id) {
                            let w = choose|w: int| 0 <= w < v + 1 && !build_order(ns).contains(w) && ns[w].0 == id;
                            if w < v {
                                assert(before.contains(id));
                            }
                        }
                        if before.contains(id) {
                            let w = choose|w: int| 0 <= w < v && !build_order(ns).contains(w) && ns[w].0 == id;
                            assert(after.contains(id));
                        }
                    }
                    assert(cyc.deep_view().to_set() =~= after);
                }
                v = v + 1;
            }
            assert(cyc.deep_view().to_set() =~= unbuilt_ids(ns));
            let mut names: Vec<String> = Vec::new();
            let mut k: usize = 0;
            while k < cyc.len()
                invariant
                    k <= cyc@.len(),
                    names@.len() == k,
                    forall|i: int| 0 <= i < k ==> #[trigger] names@[i]@ == cyc@[i]@,
                decreases cyc@.len() - k,
            {
                names.push(chars_to_string(&cyc[k]));
                k = k + 1;
            }
            assert(names.deep_view() =~= cyc.deep_view()) by {
                assert forall|i: int| 0 <= i < names@.len() implies names.deep_view()[i] == cyc.deep_view()[i] by {
                    assert(names.deep_view()[i] == names@[i]@);
                    assert(cyc.deep_view()[i] == cyc@[i]@);
                }
            }
            let r = Err(LayerPlannerError::CycleDetected { nodes: names });
            assert(plan_outcome(ns, r));
            r
        }
    }
}


// ---------------------------------------------------------------------------
// Diagnostics.

/// Human-readable diagnostic for a [`LayerPlannerError`] (code, message, suggestion).
#[derive(Clone, Debug, PartialEq, Eq)]
pub struct LayerDiagnostic {
    /// Short stable error code (e.g. for logs or UI).
    pub code: &'static str,
    /// What went wrong.
    pub message: String,
    /// Actionable hint for fixing the graph.
    pub suggestion: String,
}

impl View for LayerDiagnostic {
    type V = (Seq<char>, Seq<char>, Seq<char>);

    open spec fn view(&self) -> (Seq<char>, Seq<char>, Seq<char>) {
        (self.code@, self.message@, self.suggestion@)
    }
}

/// The strictly sorted sequence holding exactly the keys of `keys`.
pub open spec fn sorted_seq_of(keys: Set<Seq<char>>) -> Seq<Seq<char>> {
    choose|q: Seq<Seq<char>>| strictly_sorted(q) && q.to_set() == keys
}

/// The services named by missing-provider records.
pub open spec fn missing_services(m: Seq<(Seq<char>, Seq<char>)>) -> Set<Seq<char>> {
    m.map_values(|x: (Seq<char>, Seq<char>)| x.1).to_set()
}

/// Message for one node requiring one service that nobody provides.
pub open spec fn missing_one_message(node: Seq<char>, service: Seq<char>) -> Seq<char> {
    "Layer `"@ + node + "` requires service `"@ + service + "` but no provider exists."@
}

/// Suggestion for one missing provider.
pub open spec fn missing_one_suggestion() -> Seq<char> {
    "Add a provider layer for the missing service or remove the dependency edge."@
}

/// The missing services, each between backticks.
pub open spec fn ticked_services(m: Seq<(Seq<char>, Seq<char>)>) -> Set<Seq<char>> {
    m.map_values(|x: (Seq<char>, Seq<char>)| ticked(x.1)).to_set()
}

/// `(code, message, suggestion)` for missing providers `m` (`(node, service)`
/// pairs); several services are listed between backticks, sorted as quoted.
pub open spec fn missing_diagnostic(m: Seq<(Seq<char>, Seq<char>)>) -> (Seq<char>, Seq<char>, Seq<char>) {
    if m.len() == 1 {
        ("missing-provider"@, missing_one_message(m[0].0, m[0].1), missing_one_suggestion())
    } else {
        (
            "missing-provider"@,
            "Layer graph requires services "@ + joined(sorted_seq_of(ticked_services(m)), ", "@)
                + " but no providers exist."@,
            "Add provider layers for the missing services or remove the dependency edges."@,
        )
    }
}

/// `(code, message, suggestion)` describing a planner error.
pub open spec fn diagnostic_of(e: LayerPlannerError) -> (Seq<char>, Seq<char>, Seq<char>) {
    match e {
        LayerPlannerError::DuplicateNodeId { id } => (
            "duplicate-node-id"@,
            "Layer graph contains duplicate node id `"@ + id@ + "`."@,
            "Ensure each layer node has a unique `id`."@,
        ),
        LayerPlannerError::ConflictingProvider { service, first, second } => (
            "conflicting-provider"@,
            "Multiple providers found for service `"@ + service@ + "` (`"@ + first@ + "`, `"@ + second@
                + "`)."@,
            "Split service keys or compose a single canonical provider layer for this service."@,
        ),
        LayerPlannerError::MissingProvider { node, service } => (
            "missing-provider"@,
            missing_one_message(node@, service@),
            missing_one_suggestion(),
        ),
        LayerPlannerError::MissingProviders { missing } => missing_diagnostic(missing_view(missing@)),
        LayerPlannerError::CycleDetected { nodes } => (
            "cycle-detected"@,
            "Layer dependency cycle detected across nodes: "@ + joined(nodes.deep_view(), " -> "@)
                + "."@,
            "Break the cycle by extracting shared requirements into an upstream layer."@,
        ),
    }
}

/// The distinct services of `missing`, sorted.
pub(crate) fn sorted_missing_services(missing: &Vec<LayerMissingProvider>) -> (v: Vec<Vec<char>>)
    ensures
        v.deep_view() == sorted_seq_of(missing_services(missing_view(missing@))),
{
    let ghost m = missing_view(missing@);
    let mut v: Vec<Vec<char>> = Vec::new();
    let mut i: usize = 0;
    while i < missing.len()
        invariant
            i <= missing@.len(),
            m == missing_view(missing@),
            strictly_sorted(v.deep_view()),
            v.deep_view().to_set() == missing_services(m.take(i as int)),
        decreases missing@.len() - i,
    {
        let c = str_chars(missing[i].service.as_str());
        sorted_insert(&mut v, c);
        proof {
            let a = m.take(i as int).map_values(|x: (Seq<char>, Seq<char>)| x.1);
            let b = m.take(i as int + 1).map_values(|x: (Seq<char>, Seq<char>)| x.1);
            assert(b =~= a.push(m[i as int].1));
            lemma_push_to_set(a, m[i as int].1);
        }
        i = i + 1;
    }
    assert(m.take(i as int) =~= m);
    proof {
        let keys = missing_services(m);
        let q = sorted_seq_of(keys);
        assert(strictly_sorted(v.deep_view()) && v.deep_view().to_set() == keys);
        crate::order::lemma_sorted_unique(q, v.deep_view());
    }
    v
}

/// `x` between backticks.
fn ticked_chars(x: &str) -> (t: Vec<char>)
    ensures
        t@ == ticked(x@),
{
    let mut p = String::from_str("`");
    p.append(x);
    p.append("`");
    str_chars(p.as_str())
}

/// The missing services between backticks, each once, sorted.
fn sorted_ticked_services(missing: &Vec<LayerMissingProvider>) -> (v: Vec<String>)
    ensures
        v.deep_view() == sorted_seq_of(ticked_services(missing_view(missing@))),
{
    let ghost m = missing_view(missing@);
    let mut v: Vec<Vec<char>> = Vec::new();
    let mut i: usize = 0;
    while i < missing.len()
        invariant
            i <= missing@.len(),
            m == missing_view(missing@),
            strictly_sorted(v.deep_view()),
            v.deep_view().to_set() == ticked_services(m.take(i as int)),
        decreases missing@.len() - i,
    {
        let c = ticked_chars(missing[i].service.as_str());
        sorted_insert(&mut v, c);
        proof {
            let a = m.take(i as int).map_values(|x: (Seq<char>, Seq<char>)| ticked(x.1));
            let b = m.take(i as int + 1).map_values(|x: (Seq<char>, Seq<char>)| ticked(x.1));
            assert(b =~= a.push(ticked(m[i as int].1)));
            lemma_push_to_set(a, ticked(m[i as int].1));
        }
        i = i + 1;
    }
    assert(m.take(i as int) =~= m);
    proof {
        let keys = ticked_services(m);
        let q = sorted_seq_of(keys);
        assert(strictly_sorted(v.deep_view()) && v.deep_view().to_set() == keys);
        crate::order::lemma_sorted_unique(q, v.deep_view());
    }
    let mut out: Vec<String> = Vec::new();
    let mut k: usize = 0;
    while k < v.len()
        invariant
            k <= v@.len(),
            out@.len() == k,
            forall|q: int| 0 <= q < k ==> #[trigger] out@[q]@ == v@[q]@,
        decreases v@.len() - k,
    {
        out.push(chars_to_string(&v[k]));
        k = k + 1;
    }
    proof {
        assert(out.deep_view() =~= v.deep_view()) by {
            assert forall|q: int| 0 <= q < out@.len() implies #[trigger] out.deep_view()[q] == v.deep_view()[q] by {
                assert(out.deep_view()[q] == out@[q]@);
                assert(v.deep_view()[q] =~= v@[q]@);
            }
        }
    }
    out
}

/// Pushing onto a sequence inserts into its set.
proof fn lemma_push_to_set<A>(s: Seq<A>, x: A)
    ensures
        s.push(x).to_set() == s.to_set().insert(x),
{
    assert(s.push(x).to_set() =~= s.to_set().insert(x)) by {
        assert forall|y: A| s.push(x).to_set().contains(y) implies s.to_set().insert(x).contains(y) by {
            let k = choose|k: int| 0 <= k < s.push(x).len() && s.push(x)[k] == y;
            if k < s.len() {
                assert(s[k] == y);
            }
        }
        assert forall|y: A| s.to_set().insert(x).contains(y) implies s.push(x).to_set().contains(y) by {
            if y == x {
                assert(s.push(x)[s.len() as int] == x);
            } else {
                let k = choose|k: int| 0 <= k < s.len() && s[k] == y;
                assert(s.push(x)[k] == y);
            }
        }
    }
}

impl LayerPlannerError {
    /// Maps this error to a [`LayerDiagnostic`] for display or tooling.
    pub fn to_diagnostic(&self) -> (d: LayerDiagnostic)
        ensures
            d@ == diagnostic_of(*self),
    {
        match self {
            LayerPlannerError::DuplicateNodeId { id } => {
                let mut message = String::from_str("Layer graph contains duplicate node id `");
                message.append(id.as_str());
                message.append("`.");
                LayerDiagnostic {
                    code: "duplicate-node-id",
                    message,
                    suggestion: String::from_str("Ensure each layer node has a unique `id`."),
                }
            },
            LayerPlannerError::ConflictingProvider { service, first, second } => {
                let mut message = String::from_str("Multiple providers found for service `");
                message.append(service.as_str());
                message.append("` (`");
                message.append(first.as_str());
                message.append("`, `");
                message.append(second.as_str());
                message.append("`).");
                LayerDiagnostic {
                    code: "conflicting-provider",
                    message,
                    suggestion: String::from_str(
                        "Split service keys or compose a single canonical provider layer for this service.",
                    ),
                }
            },
            LayerPlannerError::MissingProvider { node, service } => missing_one_diagnostic(
                node,
                service,
            ),
            LayerPlannerError::MissingProviders { missing } => {
                if missing.len() == 1 {
                    return missing_one_diagnostic(&missing[0].node, &missing[0].service);
                }
                let services = sorted_ticked_services(missing);
                let list = join_strings(&services, ", ");
                let mut message = String::from_str("Layer graph requires services ");
                message.append(list.as_str());
                message.append(" but no providers exist.");
                LayerDiagnostic {
                    code: "missing-provider",
                    message,
                    suggestion: String::from_str(
                        "Add provider layers for the missing services or remove the dependency edges.",
                    ),
                }
            },
            LayerPlannerError::CycleDetected { nodes } => {
                let list = join_strings(nodes, " -> ");
                let mut message = String::from_str("Layer dependency cycle detected across nodes: ");
                message.append(list.as_str());
                message.append(".");
                LayerDiagnostic {
                    code: "cycle-detected",
                    message,
                    suggestion: String::from_str(
                        "Break the cycle by extracting shared requirements into an upstream layer.",
                    ),
                }
            },
        }
    }
}

/// The diagnostic for one node requiring one service that nobody provides.
fn missing_one_diagnostic(node: &String, service: &String) -> (d: LayerDiagnostic)
    ensures
        d@ == ("missing-provider"@, missing_one_message(node@, service@), missing_one_suggestion()),
{
    let mut message = String::from_str("Layer `");
    message.append(node.as_str());
    message.append("` requires service `");
    message.append(service.as_str());
    message.append("` but no provider exists.");
    LayerDiagnostic {
        code: "missing-provider",
        message,
        suggestion: String::from_str(
            "Add a provider layer for the missing service or remove the dependency edge.",
        ),
    }
}

impl LayerGraph {
    /// Returns zero diagnostics if planning succeeds, otherwise a single diagnostic from the first error.
    pub fn diagnostics(&self) -> (d: Vec<LayerDiagnostic>)
        ensures
            exists|r: Result<LayerPlan, LayerPlannerError>| #[trigger] plan_outcome(self@, r),
            forall|r: Result<LayerPlan, LayerPlannerError>|
                #[trigger] plan_outcome(self@, r) ==> match r {
                    Ok(_) => d@.len() == 0,
                    Err(e) => d@.len() == 1 && d@[0]@ == diagnostic_of(e),
                },
    {
        let r = self.plan_topological();
        let ghost rg = r;
        proof {
            assert forall|r2: Result<LayerPlan, LayerPlannerError>| #[trigger] plan_outcome(self@, r2) implies (r2 is Ok
                <==> rg is Ok) && (r2 matches Err(e2) ==> rg matches Err(e1) && diagnostic_of(e1) == diagnostic_of(
                e2)) by {
                law_plan_has_one_outcome(self@, rg, r2);
            }
        }
        match r {
            Ok(_) => Vec::new(),
            Err(error) => {
                let d = error.to_diagnostic();
                let mut v: Vec<LayerDiagnostic> = Vec::new();
                v.push(d);
                v
            },
        }
    }
}

/// The nodes followed by one provider node per service name: its id is the
/// name, it requires nothing and provides that service.
pub open spec fn with_service_nodes(ns: Seq<NodeView>, services: Seq<Seq<char>>) -> Seq<NodeView> {
    ns + services.map_values(|a: Seq<char>| (a, Seq::<Seq<char>>::empty(), seq![a]))
}

/// The characters of each service name.
pub open spec fn service_views(s: Seq<&str>) -> Seq<Seq<char>> {
    s.map_values(|x: &str| x@)
}

/// A copy of the node.
fn copy_node(n: &LayerNode) -> (c: LayerNode)
    ensures
        c@ == n@,
{
    LayerNode { id: n.id.clone(), requires: copy_strings(&n.requires), provides: copy_strings(&n.provides) }
}

impl LayerGraph {
    /// Diagnostics of this graph once the `services` already present (as a
    /// service context holds them) are added as provider nodes: empty when
    /// that graph plans, otherwise the diagnostic of its first error.
    pub fn diagnostics_with_services(&self, services: &[&str]) -> (d: Vec<LayerDiagnostic>)
        ensures
            exists|r: Result<LayerPlan, LayerPlannerError>|
                #[trigger] plan_outcome(with_service_nodes(self@, service_views(services@)), r),
            forall|r: Result<LayerPlan, LayerPlannerError>|
                #[trigger] plan_outcome(with_service_nodes(self@, service_views(services@)), r) ==> match r {
                    Ok(_) => d@.len() == 0,
                    Err(e) => d@.len() == 1 && d@[0]@ == diagnostic_of(e),
                },
    {
        let ghost target = with_service_nodes(self@, service_views(services@));
        let mut nodes: Vec<LayerNode> = Vec::new();
        let mut i: usize = 0;
        while i < self.nodes.len()
            invariant
                i <= self.nodes@.len(),
                nodes@.len() == i,
                forall|k: int| 0 <= k < i ==> #[trigger] nodes@[k]@ == self.nodes@[k]@,
            decreases self.nodes@.len() - i,
        {
            nodes.push(copy_node(&self.nodes[i]));
            i = i + 1;
        }
        let mut j: usize = 0;
        while j < services.len()
            invariant
                j <= services@.len(),
                nodes@.len() == self.nodes@.len() + j,
                forall|k: int| 0 <= k < self.nodes@.len() ==> #[trigger] nodes@[k]@ == self.nodes@[k]@,
                forall|k: int|
                    0 <= k < j ==> #[trigger] nodes@[self.nodes@.len() + k]@ == (
                        services@[k]@,
                        Seq::<Seq<char>>::empty(),
                        seq![services@[k]@],
                    ),
            decreases services@.len() - j,
        {
            let name = services[j];
            let node = LayerNode::new(name, &[], &[name]);
            proof {
                assert(node@.1 =~= Seq::<Seq<char>>::empty());
                assert(node@.2 =~= seq![name@]);
            }
            nodes.push(node);
            proof {
                assert(nodes@[self.nodes@.len() + j as int] == node);
            }
            j = j + 1;
        }
        let g = LayerGraph::new(nodes);
        proof {
            assert(g@ =~= target) by {
                assert forall|k: int| 0 <= k < g@.len() implies #[trigger] g@[k] == target[k] by {
                    if k < self.nodes@.len() {
                        assert(g@[k] == g.nodes@[k]@);
                        assert(self@[k] == self.nodes@[k]@);
                    } else {
                        let q = k - self.nodes@.len();
                        assert(g@[k] == g.nodes@[self.nodes@.len() + q]@);
                    }
                }
            }
        }
        g.diagnostics()
    }
}

// ---------------------------------------------------------------------------
// Laws of the planner.

/// `order` lists every node exactly once, and each node after every node it
/// depends on.
pub open spec fn is_topological(ns: Seq<NodeView>, order: Seq<int>) -> bool {
    &&& order.len() == ns.len()
    &&& order.no_duplicates()
    &&& forall|k: int| 0 <= k < order.len() ==> 0 <= #[trigger] order[k] < ns.len()
    &&& forall|a: int, b: int|
        0 <= a < order.len() && 0 <= b < order.len() && depends_on(ns, #[trigger] order[b], #[trigger] order[a])
            ==> a < b
}

/// Every prefix of the build order is duplicate-free, in range, and builds each
/// node after the nodes it depends on.
proof fn lemma_build_steps_facts(ns: Seq<NodeView>, k: nat)
    ensures
        build_steps(ns, k).len() <= k,
        build_steps(ns, k).no_duplicates(),
        forall|p: int| 0 <= p < build_steps(ns, k).len() ==> 0 <= #[trigger] build_steps(ns, k)[p] < ns.len(),
        forall|p: int, u: int|
            0 <= p < build_steps(ns, k).len() && 0 <= u < ns.len() && #[trigger] depends_on(ns, build_steps(ns, k)[p], u)
                ==> build_steps(ns, k).take(p).contains(u),
        build_steps(ns, k).len() < k ==> !(exists|v: int| next_ready(ns, build_steps(ns, k), v)),
    decreases k,
{
    if k > 0 {
        let b = build_steps(ns, (k - 1) as nat);
        lemma_build_steps_facts(ns, (k - 1) as nat);
        if exists|v: int| next_ready(ns, b, v) {
            let v = choose|v: int| next_ready(ns, b, v);
            let c = b.push(v);
            assert(build_steps(ns, k) == c);
            assert(c.no_duplicates()) by {
                assert forall|x: int, y: int| 0 <= x < y < c.len() implies c[x] != c[y] by {
                    if y == c.len() - 1 {
                        assert(b.contains(c[x]));
                    }
                }
            }
            assert forall|p: int, u: int|
                0 <= p < c.len() && 0 <= u < ns.len() && #[trigger] depends_on(ns, c[p], u) implies c.take(p).contains(u) by {
                if p < b.len() {
                    assert(c[p] == b[p]);
                    assert(c.take(p) =~= b.take(p));
                } else {
                    assert(c.take(p) =~= b);
                }
            }
        } else {
            assert(build_steps(ns, k) == b);
        }
    }
}

/// When every node is built, the build order is a topological order.
pub proof fn lemma_build_order_is_topological(ns: Seq<NodeView>)
    requires
        build_order(ns).len() == ns.len(),
    ensures
        is_topological(ns, build_order(ns)),
{
    let o = build_order(ns);
    lemma_build_steps_facts(ns, ns.len());
    assert forall|a: int, b: int|
        0 <= a < o.len() && 0 <= b < o.len() && depends_on(ns, #[trigger] o[b], #[trigger] o[a]) implies a < b by {
        assert(o.take(b).contains(o[a]));
        let c = choose|c: int| 0 <= c < o.take(b).len() && o.take(b)[c] == o[a];
        assert(o[c] == o[a]);
    }
}

/// Among ready nodes below `m`, one has the smallest id.
spec fn least_ready_below(ns: Seq<NodeView>, built: Seq<int>, m: int, v: int) -> bool {
    &&& v < m
    &&& ready(ns, built, v)
    &&& forall|w: int| 0 <= w < m && #[trigger] ready(ns, built, w) && w != v ==> lex_lt(ns[v].0, ns[w].0)
}

proof fn lemma_least_ready_exists(ns: Seq<NodeView>, built: Seq<int>, m: int)
    requires
        ids_unique(ns),
        0 <= m <= ns.len(),
    ensures
        (exists|w: int| 0 <= w < m && #[trigger] ready(ns, built, w)) ==> exists|v: int| #[trigger] least_ready_below(ns, built, m, v),
    decreases m,
{
    if m > 0 && exists|w: int| 0 <= w < m && #[trigger] ready(ns, built, w) {
        lemma_least_ready_exists(ns, built, m - 1);
        let last = m - 1;
        if exists|w: int| 0 <= w < m - 1 && #[trigger] ready(ns, built, w) {
            let v = choose|v: int| #[trigger] least_ready_below(ns, built, m - 1, v);
            if ready(ns, built, last) {
                lemma_lex_total(ns[v].0, ns[last].0);
                if ns[v].0 == ns[last].0 {
                    assert(dup_at(ns, last));
                }
                if lex_lt(ns[v].0, ns[last].0) {
                    assert(least_ready_below(ns, built, m, v));
                } else {
                    assert forall|w: int| 0 <= w < m && #[trigger] ready(ns, built, w) && w != last implies lex_lt(ns[last].0, ns[w].0) by {
                        if w != v {
                            crate::order::lemma_lex_transitive(ns[last].0, ns[v].0, ns[w].0);
                        }
                    }
                    assert(least_ready_below(ns, built, m, last));
                }
            } else {
                assert(least_ready_below(ns, built, m, v));
            }
        } else {
            assert(ready(ns, built, last));
            assert(least_ready_below(ns, built, m, last));
        }
    }
}

/// Nodes left unbuilt mean there is no topological order at all: the
/// dependencies among them form a cycle.
pub proof fn lemma_unbuilt_means_no_topological_order(ns: Seq<NodeView>, order: Seq<int>)
    requires
        ids_unique(ns),
        build_order(ns).len() < ns.len(),
    ensures
        !is_topological(ns, order),
{
    let n = ns.len() as int;
    let b = build_order(ns);
    lemma_build_steps_facts(ns, ns.len());
    if is_topological(ns, order) {
        // some node in `order` is not built
        let range = vstd::set_lib::set_int_range(0, n);
        vstd::set_lib::lemma_int_range(0, n);
        order.unique_seq_to_set();
        b.unique_seq_to_set();
        assert(order.to_set().subset_of(range));
        vstd::set_lib::lemma_len_subset(order.to_set(), range);
        vstd::set_lib::lemma_subset_equality(order.to_set(), range);
        assert(exists|p: int| 0 <= p < order.len() && !b.contains(order[p])) by {
            if forall|p: int| 0 <= p < order.len() ==> b.contains(order[p]) {
                assert(order.to_set().subset_of(b.to_set()));
                vstd::set_lib::lemma_len_subset(order.to_set(), b.to_set());
            }
        }
        // the first such position
        let p0 = lemma_first_unbuilt(order, b, order.len() as int);
        let v = order[p0];
        assert forall|u: int| 0 <= u < n && #[trigger] depends_on(ns, v, u) implies b.contains(u) by {
            assert(range.contains(u));
            assert(order.to_set().contains(u));
            let a = choose|a: int| 0 <= a < order.len() && order[a] == u;
            assert(depends_on(ns, order[p0], order[a]));
            assert(a < p0);
        }
        assert(ready(ns, b, v));
        lemma_least_ready_exists(ns, b, n);
        let w = choose|w: int| #[trigger] least_ready_below(ns, b, n, w);
        assert(next_ready(ns, b, w));
    }
}

/// The first position whose node is not built.
proof fn lemma_first_unbuilt(order: Seq<int>, b: Seq<int>, m: int) -> (p: int)
    requires
        0 <= m <= order.len(),
        exists|p: int| 0 <= p < m && !b.contains(order[p]),
    ensures
        0 <= p < m,
        !b.contains(order[p]),
        forall|a: int| 0 <= a < p ==> b.contains(order[a]),
    decreases m,
{
    if exists|p: int| 0 <= p < m - 1 && !b.contains(order[p]) {
        lemma_first_unbuilt(order, b, m - 1)
    } else {
        m - 1
    }
}

/// For a graph with unique ids, unique providers and no missing provider,
/// planning succeeds exactly when some order builds every node after the
/// nodes it depends on, and a successful plan lists such an order.
pub proof fn law_plan_succeeds_iff_topological_order_exists(ns: Seq<NodeView>, r: Result<LayerPlan, LayerPlannerError>)
    requires
        plan_outcome(ns, r),
        ids_unique(ns),
        providers_unique(ns),
        missing_set(ns).is_empty(),
    ensures
        r is Ok <==> exists|o: Seq<int>| is_topological(ns, o),
        r is Ok ==> is_topological(ns, build_order(ns)),
{
    match r {
        Ok(_) => {
            lemma_build_order_is_topological(ns);
        },
        Err(LayerPlannerError::DuplicateNodeId { .. }) => {
            let j = choose|j: int| first_dup(ns, j);
            assert(dup_at(ns, j));
        },
        Err(LayerPlannerError::ConflictingProvider { .. }) => {
            let p = provided_pairs(ns, ns.len() as int);
            let (q, k) = choose|q: int, k: int|
                #![trigger p[q], p[k]]
                first_conflict(p, q) && 0 <= k < q && p[k].0 == p[q].0;
            assert(conflict_at(p, q));
        },
        Err(LayerPlannerError::MissingProvider { .. }) => {},
        Err(LayerPlannerError::MissingProviders { .. }) => {},
        Err(LayerPlannerError::CycleDetected { .. }) => {
            assert forall|o: Seq<int>| !is_topological(ns, o) by {
                lemma_unbuilt_means_no_topological_order(ns, o);
            }
        },
    }
}

/// Strictly sorted `(node, service)` pairs hold no pair twice.
proof fn lemma_pairs_sorted_no_duplicates(m: Seq<(Seq<char>, Seq<char>)>)
    requires
        pairs_sorted(m),
    ensures
        m.no_duplicates(),
{
    assert forall|i: int, j: int| 0 <= i < m.len() && 0 <= j < m.len() && i != j implies m[i] != m[j] by {
        if i < j {
            assert(pair_lt(m[i], m[j]));
            crate::order::lemma_lex_irreflexive(m[i].0);
            crate::order::lemma_lex_irreflexive(m[i].1);
        } else {
            assert(pair_lt(m[j], m[i]));
            crate::order::lemma_lex_irreflexive(m[j].0);
            crate::order::lemma_lex_irreflexive(m[j].1);
        }
    }
}

/// The quoted services depend only on which pairs are missing.
proof fn lemma_ticked_services_by_set(m1: Seq<(Seq<char>, Seq<char>)>, m2: Seq<(Seq<char>, Seq<char>)>)
    requires
        m1.to_set() == m2.to_set(),
    ensures
        ticked_services(m1) == ticked_services(m2),
{
    assert forall|x: Seq<char>| ticked_services(m1).contains(x) implies ticked_services(m2).contains(x) by {
        let t1 = m1.map_values(|y: (Seq<char>, Seq<char>)| ticked(y.1));
        let i = choose|i: int| 0 <= i < t1.len() && t1[i] == x;
        assert(m1.to_set().contains(m1[i]));
        let k = choose|k: int| 0 <= k < m2.len() && m2[k] == m1[i];
        let t2 = m2.map_values(|y: (Seq<char>, Seq<char>)| ticked(y.1));
        assert(t2[k] == x);
    }
    assert forall|x: Seq<char>| ticked_services(m2).contains(x) implies ticked_services(m1).contains(x) by {
        let t2 = m2.map_values(|y: (Seq<char>, Seq<char>)| ticked(y.1));
        let i = choose|i: int| 0 <= i < t2.len() && t2[i] == x;
        assert(m2.to_set().contains(m2[i]));
        let k = choose|k: int| 0 <= k < m1.len() && m1[k] == m2[i];
        let t1 = m1.map_values(|y: (Seq<char>, Seq<char>)| ticked(y.1));
        assert(t1[k] == x);
    }
    assert(ticked_services(m1) =~= ticked_services(m2));
}

/// Planning has one outcome: two results that both meet `plan_outcome`
/// agree on success, on the build order, and on the diagnostic of the error.
pub proof fn law_plan_has_one_outcome(ns: Seq<NodeView>, r1: Result<LayerPlan, LayerPlannerError>, r2: Result<LayerPlan, LayerPlannerError>)
    requires
        plan_outcome(ns, r1),
        plan_outcome(ns, r2),
    ensures
        r1 is Ok <==> r2 is Ok,
        r1 matches Ok(p1) ==> r2 matches Ok(p2) && p1.build_order.deep_view() == p2.build_order.deep_view(),
        r1 matches Err(e1) ==> r2 matches Err(e2) && diagnostic_of(e1) == diagnostic_of(e2),
{
    let p = provided_pairs(ns, ns.len() as int);
    // an error of an earlier kind rules out every later kind
    if r1 matches Err(LayerPlannerError::DuplicateNodeId { .. }) {
        let j = choose|j: int| first_dup(ns, j);
        assert(dup_at(ns, j));
    }
    if r2 matches Err(LayerPlannerError::DuplicateNodeId { .. }) {
        let j = choose|j: int| first_dup(ns, j);
        assert(dup_at(ns, j));
    }
    if r1 matches Err(LayerPlannerError::ConflictingProvider { .. }) {
        let (q, k) = choose|q: int, k: int|
            #![trigger p[q], p[k]]
            first_conflict(p, q) && 0 <= k < q && p[k].0 == p[q].0;
        assert(conflict_at(p, q));
    }
    if r2 matches Err(LayerPlannerError::ConflictingProvider { .. }) {
        let (q, k) = choose|q: int, k: int|
            #![trigger p[q], p[k]]
            first_conflict(p, q) && 0 <= k < q && p[k].0 == p[q].0;
        assert(conflict_at(p, q));
    }
    match (r1, r2) {
        (Err(LayerPlannerError::DuplicateNodeId { id: a }), Err(LayerPlannerError::DuplicateNodeId { id: b })) => {
            let j1 = choose|j: int| first_dup(ns, j) && a@ == ns[j].0;
            let j2 = choose|j: int| first_dup(ns, j) && b@ == ns[j].0;
            if j1 < j2 {
                assert(!dup_at(ns, j1));
            }
            if j2 < j1 {
                assert(!dup_at(ns, j2));
            }
        },
        (
            Err(LayerPlannerError::ConflictingProvider { service: s1, first: f1, second: c1 }),
            Err(LayerPlannerError::ConflictingProvider { service: s2, first: f2, second: c2 }),
        ) => {
            let (q1, k1) = choose|q: int, k: int|
                #![trigger p[q], p[k]]
                first_conflict(p, q) && 0 <= k < q && p[k].0 == p[q].0 && s1@ == p[q].0 && f1@ == ns[p[k].1].0
                    && c1@ == ns[p[q].1].0;
            let (q2, k2) = choose|q: int, k: int|
                #![trigger p[q], p[k]]
                first_conflict(p, q) && 0 <= k < q && p[k].0 == p[q].0 && s2@ == p[q].0 && f2@ == ns[p[k].1].0
                    && c2@ == ns[p[q].1].0;
            if q1 < q2 {
                assert(conflict_at(p, q1));
                assert(!conflict_at(p, q1));
            }
            if q2 < q1 {
                assert(conflict_at(p, q2));
                assert(!conflict_at(p, q2));
            }
            assert(q1 == q2);
            if k1 < k2 {
                assert(conflict_at(p, k2));
                assert(!conflict_at(p, k2));
            }
            if k2 < k1 {
                assert(conflict_at(p, k1));
                assert(!conflict_at(p, k1));
            }
        },
        (Err(LayerPlannerError::MissingProviders { missing: a }), Err(LayerPlannerError::MissingProviders { missing: b })) => {
            let ma = missing_view(a@);
            let mb = missing_view(b@);
            lemma_pairs_sorted_no_duplicates(ma);
            lemma_pairs_sorted_no_duplicates(mb);
            ma.unique_seq_to_set();
            mb.unique_seq_to_set();
            assert(ma.len() == mb.len());
            if ma.len() == 1 {
                assert(ma.to_set().contains(ma[0]));
                let k = choose|k: int| 0 <= k < mb.len() && mb[k] == ma[0];
                assert(k == 0);
            }
            lemma_ticked_services_by_set(ma, mb);
        },
        (Err(LayerPlannerError::CycleDetected { nodes: a }), Err(LayerPlannerError::CycleDetected { nodes: b })) => {
            crate::order::lemma_sorted_unique(a.deep_view(), b.deep_view());
        },
        _ => {},
    }
}

} // verus!
