//! String-key trie (prefix tree).
use vstd::prelude::*;

use crate::order::{lemma_sorted_no_duplicates, lex_lt, strictly_sorted};
use crate::text::clone_chars;

verus! {

/// A trie node: the value stored at the path leading here, and the children
/// keyed by the next character, in increasing character order.
struct Node<V> {
    value: Option<V>,
    children: Vec<(char, Node<V>)>,
}

/// Characters of the children strictly increase.
spec fn chars_sorted<V>(cs: Seq<(char, Node<V>)>) -> bool {
    forall|i: int, j: int| 0 <= i < j < cs.len() ==> (#[trigger] cs[i]).0 < (#[trigger] cs[j]).0
}

/// Every node's children are ordered by character.
spec fn wf<V>(n: Node<V>) -> bool
    decreases n, 1int,
{
    chars_sorted(n.children@) && children_wf(n.children@, n.children@.len() as int)
}

/// The first `j` children are well formed.
spec fn children_wf<V>(cs: Seq<(char, Node<V>)>, j: int) -> bool
    decreases cs, j,
{
    if j <= 0 || j > cs.len() {
        true
    } else {
        children_wf(cs, j - 1) && wf(cs[j - 1].1)
    }
}

/// Index of the child reached by character `c`, or `-1`.
spec fn child_at<V>(cs: Seq<(char, Node<V>)>, c: char) -> int {
    if exists|j: int| 0 <= j < cs.len() && cs[j].0 == c {
        choose|j: int| 0 <= j < cs.len() && cs[j].0 == c
    } else {
        -1
    }
}

/// The child reached by character `c`.
spec fn child_of<V>(cs: Seq<(char, Node<V>)>, c: char) -> Option<Node<V>> {
    let j = child_at(cs, c);
    if j < 0 {
        None
    } else {
        Some(cs[j].1)
    }
}

/// The value stored under key `k` below node `n`.
spec fn node_get<V>(n: Node<V>, k: Seq<char>) -> Option<V>
    decreases k.len(),
{
    if k.len() == 0 {
        n.value
    } else {
        match child_of(n.children@, k[0]) {
            Some(ch) => node_get(ch, k.drop_first()),
            None => None,
        }
    }
}

/// The node reached from `n` by following the characters of `p`.
spec fn node_at<V>(n: Node<V>, p: Seq<char>) -> Option<Node<V>>
    decreases p.len(),
{
    if p.len() == 0 {
        Some(n)
    } else {
        match child_of(n.children@, p[0]) {
            Some(ch) => node_at(ch, p.drop_first()),
            None => None,
        }
    }
}

/// All keys stored below `n`, depth first: the node's own key, then each
/// child's keys in character order.
spec fn all_keys<V>(n: Node<V>) -> Seq<Seq<char>>
    decreases n, 1int,
{
    (if n.value is Some { seq![Seq::<char>::empty()] } else { Seq::empty() })
        + children_keys(n.children@, n.children@.len() as int)
}

/// Keys below the first `j` children, each prefixed by its child's character.
spec fn children_keys<V>(cs: Seq<(char, Node<V>)>, j: int) -> Seq<Seq<char>>
    decreases cs, j,
{
    if j <= 0 || j > cs.len() {
        Seq::empty()
    } else {
        children_keys(cs, j - 1) + all_keys(cs[j - 1].1).map_values(|k: Seq<char>| seq![cs[j - 1].0] + k)
    }
}

/// `k` with the character `c` in front.
spec fn prefixed(c: char, ks: Seq<Seq<char>>) -> Seq<Seq<char>> {
    ks.map_values(|k: Seq<char>| seq![c] + k)
}

/// Each key of `ks` with `p` in front.
spec fn under(p: Seq<char>, ks: Seq<Seq<char>>) -> Seq<Seq<char>> {
    ks.map_values(|k: Seq<char>| p + k)
}

// ---------------------------------------------------------------------------
// Facts about the definitions.

/// The first `m` children are well formed exactly when each of them is.
proof fn lemma_children_wf<V>(cs: Seq<(char, Node<V>)>, m: int)
    requires
        0 <= m <= cs.len(),
    ensures
        children_wf(cs, m) <==> forall|j: int| 0 <= j < m ==> #[trigger] wf(cs[j].1),
    decreases m,
{
    if m > 0 {
        lemma_children_wf(cs, m - 1);
        assert(children_wf(cs, m) == (children_wf(cs, m - 1) && wf(cs[m - 1].1)));
        if forall|j: int| 0 <= j < m ==> #[trigger] wf(cs[j].1) {
            assert(wf(cs[m - 1].1));
            assert(forall|j: int| 0 <= j < m - 1 ==> #[trigger] wf(cs[j].1));
        }
        if children_wf(cs, m) {
            assert forall|j: int| 0 <= j < m implies #[trigger] wf(cs[j].1) by {
                if j < m - 1 {
                    assert(wf(cs[j].1));
                }
            }
        }
    }
}

/// Children of a well-formed node are well formed.
proof fn lemma_wf_child<V>(n: Node<V>, j: int)
    requires
        wf(n),
        0 <= j < n.children@.len(),
    ensures
        wf(n.children@[j].1),
{
    lemma_children_wf(n.children@, n.children@.len() as int);
}

/// In ordered children, the child with character `c` is the one at `j`.
proof fn lemma_child_of<V>(cs: Seq<(char, Node<V>)>, j: int)
    requires
        chars_sorted(cs),
        0 <= j < cs.len(),
    ensures
        child_at(cs, cs[j].0) == j,
        child_of(cs, cs[j].0) == Some(cs[j].1),
{
    let c = cs[j].0;
    assert(exists|i: int| 0 <= i < cs.len() && cs[i].0 == c);
    let i = choose|i: int| 0 <= i < cs.len() && cs[i].0 == c;
    if i < j {
        assert(cs[i].0 < cs[j].0);
    } else if i > j {
        assert(cs[j].0 < cs[i].0);
    }
}

/// No child carries character `c`.
proof fn lemma_child_of_none<V>(cs: Seq<(char, Node<V>)>, c: char)
    requires
        forall|i: int| 0 <= i < cs.len() ==> (#[trigger] cs[i]).0 != c,
    ensures
        child_at(cs, c) == -1,
        child_of(cs, c) is None,
{
}

/// Keys below the first `m` children: which keys they are.
proof fn lemma_children_keys_contains<V>(cs: Seq<(char, Node<V>)>, m: int, k: Seq<char>)
    requires
        0 <= m <= cs.len(),
    ensures
        children_keys(cs, m).contains(k) <==> (k.len() > 0 && exists|j: int|
            0 <= j < m && #[trigger] cs[j].0 == k[0] && all_keys(cs[j].1).contains(k.drop_first())),
    decreases m,
{
    if m > 0 {
        lemma_children_keys_contains(cs, m - 1, k);
        let c = cs[m - 1].0;
        let sub = all_keys(cs[m - 1].1);
        let last = prefixed(c, sub);
        let prev = children_keys(cs, m - 1);
        assert(children_keys(cs, m) == prev + last);
        let here = k.len() > 0 && c == k[0] && sub.contains(k.drop_first());
        assert(last.contains(k) <==> here) by {
            if last.contains(k) {
                let i = choose|i: int| 0 <= i < last.len() && #[trigger] last[i] == k;
                assert(k.drop_first() =~= sub[i]);
            }
            if here {
                let i = choose|i: int| 0 <= i < sub.len() && #[trigger] sub[i] == k.drop_first();
                assert(last[i] =~= k);
            }
        }
        assert((prev + last).contains(k) <==> prev.contains(k) || last.contains(k)) by {
            if (prev + last).contains(k) {
                let i = choose|i: int| 0 <= i < (prev + last).len() && #[trigger] (prev + last)[i] == k;
                if i >= prev.len() {
                    assert(last[i - prev.len()] == k);
                }
            }
            if prev.contains(k) {
                let i = choose|i: int| 0 <= i < prev.len() && #[trigger] prev[i] == k;
                assert((prev + last)[i] == k);
            }
            if last.contains(k) {
                let i = choose|i: int| 0 <= i < last.len() && #[trigger] last[i] == k;
                assert((prev + last)[i + prev.len()] == k);
            }
        }
        if here {
            assert(cs[m - 1].0 == k[0]);
        }
    }
}

/// The depth-first keys of a node are exactly the keys with a stored value.
proof fn lemma_all_keys_contains<V>(n: Node<V>, k: Seq<char>)
    requires
        wf(n),
    ensures
        all_keys(n).contains(k) <==> node_get(n, k) is Some,
    decreases k.len(),
{
    let cs = n.children@;
    let own: Seq<Seq<char>> = if n.value is Some { seq![Seq::<char>::empty()] } else { Seq::empty() };
    assert(all_keys(n) == own + children_keys(cs, cs.len() as int));
    lemma_children_keys_contains(cs, cs.len() as int, k);
    if k.len() == 0 {
        if n.value is Some {
            assert(all_keys(n)[0] == k);
        }
        if all_keys(n).contains(k) {
            let i = choose|i: int| 0 <= i < all_keys(n).len() && #[trigger] all_keys(n)[i] == k;
            if i >= own.len() {
                assert(children_keys(cs, cs.len() as int)[i - own.len()] == k);
            }
        }
    } else {
        if all_keys(n).contains(k) {
            let i = choose|i: int| 0 <= i < all_keys(n).len() && #[trigger] all_keys(n)[i] == k;
            assert(i >= own.len());
            assert(children_keys(cs, cs.len() as int)[i - own.len()] == k);
        }
        if exists|j: int| 0 <= j < cs.len() && #[trigger] cs[j].0 == k[0] && all_keys(cs[j].1).contains(k.drop_first()) {
            let j = choose|j: int| 0 <= j < cs.len() && #[trigger] cs[j].0 == k[0] && all_keys(cs[j].1).contains(k.drop_first());
            lemma_child_of(cs, j);
            lemma_wf_child(n, j);
            lemma_all_keys_contains(cs[j].1, k.drop_first());
        }
        match child_of(cs, k[0]) {
            Some(ch) => {
                let j = child_at(cs, k[0]);
                lemma_wf_child(n, j);
                lemma_all_keys_contains(cs[j].1, k.drop_first());
                if node_get(n, k) is Some {
                    assert(children_keys(cs, cs.len() as int).contains(k));
                    let i = choose|i: int| 0 <= i < children_keys(cs, cs.len() as int).len() && #[trigger] children_keys(cs, cs.len() as int)[i] == k;
                    assert(all_keys(n)[i + own.len()] == k);
                }
            },
            None => {},
        }
    }
}

/// Putting the same character in front keeps the order of two keys.
proof fn lemma_lex_prefixed(c: char, a: Seq<char>, b: Seq<char>)
    ensures
        lex_lt(seq![c] + a, seq![c] + b) == lex_lt(a, b),
{
    assert((seq![c] + a).drop_first() =~= a);
    assert((seq![c] + b).drop_first() =~= b);
}

/// Keys starting with smaller characters come first.
proof fn lemma_lex_first_char(a: Seq<char>, b: Seq<char>)
    requires
        a.len() > 0,
        b.len() > 0,
        a[0] < b[0],
    ensures
        lex_lt(a, b),
{
}

/// Joining two sorted sequences, all of the first below all of the second, is sorted.
proof fn lemma_sorted_concat(a: Seq<Seq<char>>, b: Seq<Seq<char>>)
    requires
        strictly_sorted(a),
        strictly_sorted(b),
        forall|i: int, j: int| 0 <= i < a.len() && 0 <= j < b.len() ==> lex_lt(#[trigger] a[i], #[trigger] b[j]),
    ensures
        strictly_sorted(a + b),
{
    let c = a + b;
    assert forall|i: int, j: int| 0 <= i < j < c.len() implies lex_lt(#[trigger] c[i], #[trigger] c[j]) by {
        if j < a.len() {
            assert(c[i] == a[i] && c[j] == a[j]);
        } else if i >= a.len() {
            assert(c[i] == b[i - a.len()] && c[j] == b[j - a.len()]);
        } else {
            assert(c[i] == a[i] && c[j] == b[j - a.len()]);
        }
    }
}

/// Prefixing every key with one character keeps them sorted.
proof fn lemma_prefixed_sorted(c: char, ks: Seq<Seq<char>>)
    requires
        strictly_sorted(ks),
    ensures
        strictly_sorted(prefixed(c, ks)),
{
    let p = prefixed(c, ks);
    assert forall|i: int, j: int| 0 <= i < j < p.len() implies lex_lt(#[trigger] p[i], #[trigger] p[j]) by {
        lemma_lex_prefixed(c, ks[i], ks[j]);
    }
}

/// The depth-first keys of a well-formed node are strictly sorted.
proof fn lemma_all_keys_sorted<V>(n: Node<V>)
    requires
        wf(n),
    ensures
        strictly_sorted(all_keys(n)),
    decreases n, 1int,
{
    let cs = n.children@;
    let own: Seq<Seq<char>> = if n.value is Some { seq![Seq::<char>::empty()] } else { Seq::empty() };
    let rest = children_keys(cs, cs.len() as int);
    lemma_children_wf(cs, cs.len() as int);
    lemma_children_keys_sorted(cs, cs.len() as int);
    assert forall|i: int, j: int| 0 <= i < own.len() && 0 <= j < rest.len() implies lex_lt(#[trigger] own[i], #[trigger] rest[j]) by {
        lemma_children_keys_contains(cs, cs.len() as int, rest[j]);
        assert(rest.contains(rest[j]));
    }
    lemma_sorted_concat(own, rest);
}

/// Keys below the first `m` ordered, well-formed children are strictly sorted.
proof fn lemma_children_keys_sorted<V>(cs: Seq<(char, Node<V>)>, m: int)
    requires
        chars_sorted(cs),
        0 <= m <= cs.len(),
        forall|j: int| 0 <= j < cs.len() ==> #[trigger] wf(cs[j].1),
    ensures
        strictly_sorted(children_keys(cs, m)),
    decreases cs, m,
{
    if m > 0 {
        lemma_children_keys_sorted(cs, m - 1);
        assert(wf(cs[m - 1].1));
        lemma_all_keys_sorted(cs[m - 1].1);
        let c = cs[m - 1].0;
        let prev = children_keys(cs, m - 1);
        let last = prefixed(c, all_keys(cs[m - 1].1));
        lemma_prefixed_sorted(c, all_keys(cs[m - 1].1));
        assert forall|i: int, j: int| 0 <= i < prev.len() && 0 <= j < last.len() implies lex_lt(#[trigger] prev[i], #[trigger] last[j]) by {
            lemma_children_keys_contains(cs, m - 1, prev[i]);
            assert(prev.contains(prev[i]));
            let q = choose|q: int| 0 <= q < m - 1 && #[trigger] cs[q].0 == prev[i][0] && all_keys(cs[q].1).contains(prev[i].drop_first());
            assert(cs[q].0 < cs[m - 1].0);
            assert(last[j][0] == c);
            lemma_lex_first_char(prev[i], last[j]);
        }
        lemma_sorted_concat(prev, last);
    }
}

/// Following `p` and then `k` looks up the key `p + k`.
proof fn lemma_node_at_get<V>(n: Node<V>, p: Seq<char>, k: Seq<char>)
    ensures
        node_at(n, p) matches Some(s) ==> node_get(n, p + k) == node_get(s, k),
        node_at(n, p) is None ==> node_get(n, p + k) is None,
    decreases p.len(),
{
    if p.len() == 0 {
        assert(p + k =~= k);
    } else {
        assert((p + k)[0] == p[0]);
        assert((p + k).drop_first() =~= p.drop_first() + k);
        match child_of(n.children@, p[0]) {
            Some(ch) => lemma_node_at_get(ch, p.drop_first(), k),
            None => {},
        }
    }
}

/// Following `p` and then one more character.
proof fn lemma_node_at_push<V>(n: Node<V>, p: Seq<char>, c: char)
    ensures
        node_at(n, p.push(c)) == (match node_at(n, p) {
            Some(s) => child_of(s.children@, c),
            None => None,
        }),
    decreases p.len(),
{
    if p.len() == 0 {
        assert(p.push(c) =~= seq![c]);
        assert(seq![c].drop_first() =~= Seq::<char>::empty());
        match child_of(n.children@, c) {
            Some(ch) => {
                assert(node_at(ch, Seq::<char>::empty()) == Some(ch));
            },
            None => {},
        }
    } else {
        assert(p.push(c)[0] == p[0]);
        assert(p.push(c).drop_first() =~= p.drop_first().push(c));
        match child_of(n.children@, p[0]) {
            Some(ch) => lemma_node_at_push(ch, p.drop_first(), c),
            None => {},
        }
    }
}

/// Nodes reached inside a well-formed node are well formed.
proof fn lemma_node_at_wf<V>(n: Node<V>, p: Seq<char>)
    requires
        wf(n),
    ensures
        node_at(n, p) matches Some(s) ==> wf(s),
    decreases p.len(),
{
    if p.len() > 0 {
        match child_of(n.children@, p[0]) {
            Some(ch) => {
                lemma_wf_child(n, child_at(n.children@, p[0]));
                lemma_node_at_wf(ch, p.drop_first());
            },
            None => {},
        }
    }
}

// ---------------------------------------------------------------------------
// Walking the trie.

/// Position of the child reached by `c`, if there is one.
fn find_child<V>(cs: &Vec<(char, Node<V>)>, c: char) -> (r: Option<usize>)
    requires
        chars_sorted(cs@),
    ensures
        r matches Some(j) ==> j < cs@.len() && cs@[j as int].0 == c && child_at(cs@, c) == j && child_of(
            cs@,
            c,
        ) == Some(cs@[j as int].1),
        r is None ==> child_of(cs@, c) is None && forall|i: int| 0 <= i < cs@.len() ==> (#[trigger] cs@[i]).0 != c,
{
    let mut i: usize = 0;
    while i < cs.len()
        invariant
            i <= cs@.len(),
            chars_sorted(cs@),
            forall|q: int| 0 <= q < i ==> (#[trigger] cs@[q]).0 != c,
        decreases cs@.len() - i,
    {
        if cs[i].0 == c {
            proof {
                lemma_child_of(cs@, i as int);
            }
            return Some(i);
        }
        i = i + 1;
    }
    None
}

/// The node reached by following `key`, if any.
fn navigate_ref<'a, V>(node: &'a Node<V>, key: &Vec<char>) -> (r: Option<&'a Node<V>>)
    requires
        wf(*node),
    ensures
        r matches Some(s) ==> node_at(*node, key@) == Some(*s),
        r is None ==> node_at(*node, key@) is None,
{
    let mut cur: &'a Node<V> = node;
    let mut i: usize = 0;
    proof {
        assert(key@.take(0) =~= Seq::<char>::empty());
    }
    while i < key.len()
        invariant
            i <= key@.len(),
            wf(*node),
            wf(*cur),
            node_at(*node, key@.take(i as int)) == Some(*cur),
        decreases key@.len() - i,
    {
        let c = key[i];
        proof {
            lemma_node_at_push(*node, key@.take(i as int), c);
            assert(key@.take(i as int + 1) =~= key@.take(i as int).push(c));
        }
        match find_child(&cur.children, c) {
            Some(j) => {
                proof {
                    lemma_wf_child(*cur, j as int);
                }
                cur = &cur.children[j].1;
            },
            None => {
                proof {
                    assert(key@ =~= key@.take(i as int + 1) + key@.skip(i as int + 1));
                    lemma_node_at_none_extends(*node, key@.take(i as int + 1), key@.skip(i as int + 1));
                }
                return None;
            },
        }
        i = i + 1;
    }
    proof {
        assert(key@.take(key@.len() as int) =~= key@);
    }
    Some(cur)
}

/// A path that leads nowhere cannot be extended to one that does.
proof fn lemma_node_at_none_extends<V>(n: Node<V>, p: Seq<char>, q: Seq<char>)
    requires
        node_at(n, p) is None,
    ensures
        node_at(n, p + q) is None,
    decreases p.len(),
{
    assert(p.len() > 0);
    assert((p + q)[0] == p[0]);
    assert((p + q).drop_first() =~= p.drop_first() + q);
    match child_of(n.children@, p[0]) {
        Some(ch) => lemma_node_at_none_extends(ch, p.drop_first(), q),
        None => {},
    }
}

/// Replacing a child by one with the same character.
proof fn lemma_child_of_update<V>(cs: Seq<(char, Node<V>)>, j: int, x: (char, Node<V>))
    requires
        chars_sorted(cs),
        0 <= j < cs.len(),
        x.0 == cs[j].0,
    ensures
        chars_sorted(cs.update(j, x)),
        forall|d: char| #[trigger] child_of(cs.update(j, x), d) == (if d == x.0 { Some(x.1) } else { child_of(cs, d) }),
{
    let u = cs.update(j, x);
    assert(chars_sorted(u)) by {
        assert forall|a: int, b: int| 0 <= a < b < u.len() implies (#[trigger] u[a]).0 < (#[trigger] u[b]).0 by {
            assert(cs[a].0 < cs[b].0);
        }
    }
    assert forall|d: char| #[trigger] child_of(u, d) == (if d == x.0 { Some(x.1) } else { child_of(cs, d) }) by {
        if d == x.0 {
            lemma_child_of(u, j);
        } else if exists|q: int| 0 <= q < cs.len() && cs[q].0 == d {
            let q = choose|q: int| 0 <= q < cs.len() && cs[q].0 == d;
            lemma_child_of(cs, q);
            lemma_child_of(u, q);
        } else {
            assert forall|q: int| 0 <= q < u.len() implies (#[trigger] u[q]).0 != d by {
                assert(cs[q].0 != d);
            }
            lemma_child_of_none(u, d);
        }
    }
}

/// Inserting a child with a new character at its ordered position.
proof fn lemma_child_of_insert<V>(cs: Seq<(char, Node<V>)>, p: int, x: (char, Node<V>))
    requires
        chars_sorted(cs),
        0 <= p <= cs.len(),
        forall|q: int| 0 <= q < p ==> (#[trigger] cs[q]).0 < x.0,
        forall|q: int| p <= q < cs.len() ==> x.0 < (#[trigger] cs[q]).0,
    ensures
        chars_sorted(cs.insert(p, x)),
        forall|d: char| #[trigger] child_of(cs.insert(p, x), d) == (if d == x.0 { Some(x.1) } else { child_of(cs, d) }),
        forall|q: int| 0 <= q < cs.insert(p, x).len() ==> #[trigger] cs.insert(p, x)[q] == (if q < p { cs[q] } else if q == p { x } else { cs[q - 1] }),
{
    let u = cs.insert(p, x);
    assert forall|q: int| 0 <= q < u.len() implies #[trigger] u[q] == (if q < p { cs[q] } else if q == p { x } else { cs[q - 1] }) by {
    }
    assert(chars_sorted(u)) by {
        assert forall|a: int, b: int| 0 <= a < b < u.len() implies (#[trigger] u[a]).0 < (#[trigger] u[b]).0 by {
            if b < p {
                assert(cs[a].0 < cs[b].0);
            } else if b == p {
                assert(cs[a].0 < x.0);
            } else if a < p {
                assert(cs[a].0 < x.0);
                assert(x.0 < cs[b - 1].0);
            } else if a == p {
                assert(x.0 < cs[b - 1].0);
            } else {
                assert(cs[a - 1].0 < cs[b - 1].0);
            }
        }
    }
    assert forall|d: char| #[trigger] child_of(u, d) == (if d == x.0 { Some(x.1) } else { child_of(cs, d) }) by {
        if d == x.0 {
            lemma_child_of(u, p);
        } else if exists|q: int| 0 <= q < cs.len() && cs[q].0 == d {
            let q = choose|q: int| 0 <= q < cs.len() && cs[q].0 == d;
            lemma_child_of(cs, q);
            if q < p {
                lemma_child_of(u, q);
            } else {
                lemma_child_of(u, q + 1);
            }
        } else {
            assert forall|q: int| 0 <= q < u.len() implies (#[trigger] u[q]).0 != d by {
                if q < p {
                    assert(cs[q].0 != d);
                } else if q > p {
                    assert(cs[q - 1].0 != d);
                }
            }
            lemma_child_of_none(u, d);
        }
    }
}

/// Lookups in a node whose child under `c` changed and nothing else.
proof fn lemma_node_get_after_child_change<V>(old: Node<V>, new: Node<V>, c: char, ch: Node<V>, k: Seq<char>)
    requires
        new.value == old.value,
        forall|d: char| #[trigger] child_of(new.children@, d) == (if d == c { Some(ch) } else { child_of(old.children@, d) }),
    ensures
        node_get(new, k) == (if k.len() > 0 && k[0] == c { node_get(ch, k.drop_first()) } else { node_get(old, k) }),
{
    if k.len() > 0 {
        assert(child_of(new.children@, k[0]) == (if k[0] == c { Some(ch) } else { child_of(old.children@, k[0]) }));
    }
}

/// `key[i..]` is its first character followed by `key[i + 1..]`.
proof fn lemma_skip_split(key: Seq<char>, i: int)
    requires
        0 <= i < key.len(),
    ensures
        key.skip(i) == seq![key[i]] + key.skip(i + 1),
        key.skip(i).len() > 0,
        key.skip(i)[0] == key[i],
        key.skip(i).drop_first() == key.skip(i + 1),
{
    assert(key.skip(i) =~= seq![key[i]] + key.skip(i + 1));
    assert(key.skip(i).drop_first() =~= key.skip(i + 1));
}

/// A chain of nodes holding only `value` under `key[i..]`.
fn chain<V>(key: &Vec<char>, i: usize, value: V) -> (n: Node<V>)
    requires
        i <= key@.len(),
    ensures
        wf(n),
        forall|k: Seq<char>| #[trigger] node_get(n, k) == (if k == key@.skip(i as int) { Some(value) } else { None }),
    decreases key@.len() - i,
{
    if i == key.len() {
        let n = Node { value: Some(value), children: Vec::new() };
        proof {
            assert(key@.skip(i as int) =~= Seq::<char>::empty());
            assert forall|k: Seq<char>| #[trigger] node_get(n, k) == (if k == key@.skip(i as int) { Some(value) } else { None }) by {
                if k.len() > 0 {
                    lemma_child_of_none(n.children@, k[0]);
                } else {
                    assert(k =~= Seq::<char>::empty());
                }
            }
        }
        n
    } else {
        let c = key[i];
        let child = chain(key, i + 1, value);
        let mut cs: Vec<(char, Node<V>)> = Vec::new();
        cs.push((c, child));
        let n = Node { value: None, children: cs };
        proof {
            lemma_skip_split(key@, i as int);
            assert(chars_sorted(n.children@));
            assert(children_wf(n.children@, 0));
            assert(wf(n.children@[0].1));
            assert(children_wf(n.children@, 1));
            lemma_child_of(n.children@, 0);
            assert forall|k: Seq<char>| #[trigger] node_get(n, k) == (if k == key@.skip(i as int) { Some(value) } else { None }) by {
                if k.len() == 0 {
                    assert(k != key@.skip(i as int));
                } else {
                    if k[0] == c {
                        assert(child_of(n.children@, k[0]) == Some(child));
                        assert(node_get(n, k) == node_get(child, k.drop_first()));
                        if k.drop_first() == key@.skip(i as int + 1) {
                            assert(k =~= seq![c] + k.drop_first());
                        }
                        if k == key@.skip(i as int) {
                            assert(k.drop_first() == key@.skip(i as int + 1));
                        }
                    } else {
                        assert forall|q: int| 0 <= q < n.children@.len() implies (#[trigger] n.children@[q]).0 != k[0] by {}
                        lemma_child_of_none(n.children@, k[0]);
                    }
                }
            }
        }
        n
    }
}

/// The position at which a child with the new character `c` keeps the
/// children ordered.
fn insert_position<V>(cs: &Vec<(char, Node<V>)>, c: char) -> (p: usize)
    requires
        chars_sorted(cs@),
        forall|q: int| 0 <= q < cs@.len() ==> (#[trigger] cs@[q]).0 != c,
    ensures
        p <= cs@.len(),
        forall|q: int| 0 <= q < p ==> (#[trigger] cs@[q]).0 < c,
        forall|q: int| p <= q < cs@.len() ==> c < (#[trigger] cs@[q]).0,
{
    let mut p: usize = 0;
    while p < cs.len() && cs[p].0 < c
        invariant
            p <= cs@.len(),
            chars_sorted(cs@),
            forall|q: int| 0 <= q < p ==> (#[trigger] cs@[q]).0 < c,
        decreases cs@.len() - p,
    {
        p = p + 1;
    }
    proof {
        assert forall|q: int| p <= q < cs@.len() implies c < (#[trigger] cs@[q]).0 by {
            assert(cs@[q].0 != c);
            if q > p {
                assert(cs@[p as int].0 < cs@[q].0);
            }
        }
    }
    p
}

/// Children stay well formed when one of them is replaced by a well-formed node.
proof fn lemma_children_wf_update<V>(cs: Seq<(char, Node<V>)>, j: int, x: (char, Node<V>))
    requires
        0 <= j < cs.len(),
        children_wf(cs, cs.len() as int),
        wf(x.1),
    ensures
        children_wf(cs.update(j, x), cs.len() as int),
{
    lemma_children_wf(cs, cs.len() as int);
    lemma_children_wf(cs.update(j, x), cs.len() as int);
    assert forall|q: int| 0 <= q < cs.len() implies #[trigger] wf(cs.update(j, x)[q].1) by {
        if q != j {
            assert(wf(cs[q].1));
        }
    }
}

/// Children stay well formed when a well-formed node is inserted among them.
proof fn lemma_children_wf_insert<V>(cs: Seq<(char, Node<V>)>, p: int, x: (char, Node<V>))
    requires
        0 <= p <= cs.len(),
        children_wf(cs, cs.len() as int),
        wf(x.1),
    ensures
        children_wf(cs.insert(p, x), cs.len() + 1int),
{
    let u = cs.insert(p, x);
    lemma_children_wf(cs, cs.len() as int);
    lemma_children_wf(u, u.len() as int);
    assert forall|q: int| 0 <= q < u.len() implies #[trigger] wf(u[q].1) by {
        if q < p {
            assert(u[q] == cs[q]);
            assert(wf(cs[q].1));
        } else if q > p {
            assert(u[q] == cs[q - 1]);
            assert(wf(cs[q - 1].1));
        }
    }
}

/// Stores `value` under `key[i..]` below `node`; returns the value it replaces.
fn insert_node<V>(node: &mut Node<V>, key: &Vec<char>, i: usize, value: V) -> (r: Option<V>)
    requires
        wf(*old(node)),
        i <= key@.len(),
    ensures
        wf(*final(node)),
        r == node_get(*old(node), key@.skip(i as int)),
        forall|k: Seq<char>| #[trigger] node_get(*final(node), k) == (if k == key@.skip(i as int) { Some(value) } else { node_get(*old(node), k) }),
    decreases key@.len() - i,
{
    let ghost old_node = *node;
    if i == key.len() {
        let r = node.value.take();
        node.value = Some(value);
        proof {
            assert(key@.skip(i as int) =~= Seq::<char>::empty());
            assert(node.children@ == old_node.children@);
            assert forall|k: Seq<char>| #[trigger] node_get(*node, k) == (if k == key@.skip(i as int) { Some(value) } else { node_get(old_node, k) }) by {
                if k.len() == 0 {
                    assert(k =~= key@.skip(i as int));
                }
            }
        }
        return r;
    }
    let c = key[i];
    proof {
        lemma_skip_split(key@, i as int);
    }
    match find_child(&node.children, c) {
        Some(j) => {
            let (ch, mut child) = node.children.remove(j);
            proof {
                lemma_wf_child(old_node, j as int);
            }
            let ghost old_child = child;
            let r = insert_node(&mut child, key, i + 1, value);
            let ghost new_child = child;
            node.children.insert(j, (ch, child));
            proof {
                let cs = old_node.children@;
                assert(node.children@ =~= cs.update(j as int, (c, new_child)));
                lemma_child_of_update(cs, j as int, (c, new_child));
                lemma_children_wf_update(cs, j as int, (c, new_child));
                assert forall|k: Seq<char>| #[trigger] node_get(*node, k) == (if k == key@.skip(i as int) { Some(value) } else { node_get(old_node, k) }) by {
                    lemma_node_get_after_child_change(old_node, *node, c, new_child, k);
                    if k.len() > 0 && k[0] == c {
                        if k.drop_first() == key@.skip(i as int + 1) {
                            assert(k =~= seq![c] + k.drop_first());
                        }
                    }
                }
            }
            r
        },
        None => {
            let p = insert_position(&node.children, c);
            let child = chain(key, i + 1, value);
            let ghost new_child = child;
            node.children.insert(p, (c, child));
            proof {
                let cs = old_node.children@;
                lemma_child_of_insert(cs, p as int, (c, new_child));
                lemma_children_wf_insert(cs, p as int, (c, new_child));
                assert(node_get(old_node, key@.skip(i as int)) is None);
                assert forall|k: Seq<char>| #[trigger] node_get(*node, k) == (if k == key@.skip(i as int) { Some(value) } else { node_get(old_node, k) }) by {
                    lemma_node_get_after_child_change(old_node, *node, c, new_child, k);
                    if k.len() > 0 && k[0] == c {
                        assert(node_get(old_node, k) is None);
                        if k.drop_first() == key@.skip(i as int + 1) {
                            assert(k =~= seq![c] + k.drop_first());
                        }
                    }
                }
            }
            None
        },
    }
}

/// Removes the value under `key[i..]` below `node`; returns it.
fn remove_node<V>(node: &mut Node<V>, key: &Vec<char>, i: usize) -> (r: Option<V>)
    requires
        wf(*old(node)),
        i <= key@.len(),
    ensures
        wf(*final(node)),
        r == node_get(*old(node), key@.skip(i as int)),
        forall|k: Seq<char>| #[trigger] node_get(*final(node), k) == (if k == key@.skip(i as int) { None } else { node_get(*old(node), k) }),
    decreases key@.len() - i,
{
    let ghost old_node = *node;
    if i == key.len() {
        let r = node.value.take();
        proof {
            assert(key@.skip(i as int) =~= Seq::<char>::empty());
            assert(node.children@ == old_node.children@);
            assert forall|k: Seq<char>| #[trigger] node_get(*node, k) == (if k == key@.skip(i as int) { None } else { node_get(old_node, k) }) by {
                if k.len() == 0 {
                    assert(k =~= key@.skip(i as int));
                }
            }
        }
        return r;
    }
    let c = key[i];
    proof {
        lemma_skip_split(key@, i as int);
    }
    match find_child(&node.children, c) {
        Some(j) => {
            let (ch, mut child) = node.children.remove(j);
            proof {
                lemma_wf_child(old_node, j as int);
            }
            let r = remove_node(&mut child, key, i + 1);
            let ghost new_child = child;
            node.children.insert(j, (ch, child));
            proof {
                let cs = old_node.children@;
                assert(node.children@ =~= cs.update(j as int, (c, new_child)));
                lemma_child_of_update(cs, j as int, (c, new_child));
                lemma_children_wf_update(cs, j as int, (c, new_child));
                assert forall|k: Seq<char>| #[trigger] node_get(*node, k) == (if k == key@.skip(i as int) { None } else { node_get(old_node, k) }) by {
                    lemma_node_get_after_child_change(old_node, *node, c, new_child, k);
                    if k.len() > 0 && k[0] == c {
                        if k.drop_first() == key@.skip(i as int + 1) {
                            assert(k =~= seq![c] + k.drop_first());
                        }
                    }
                }
            }
            r
        },
        None => {
            proof {
                assert forall|k: Seq<char>| #[trigger] node_get(*node, k) == (if k == key@.skip(i as int) { None } else { node_get(old_node, k) }) by {
                }
            }
            None
        },
    }
}

/// The keys of node `n` listed in depth-first order, split into its own key
/// and the keys below each of its first `j` children.
proof fn lemma_all_keys_split<V>(n: Node<V>)
    ensures
        all_keys(n) == (if n.value is Some { seq![Seq::<char>::empty()] } else { Seq::<Seq<char>>::empty() })
            + children_keys(n.children@, n.children@.len() as int),
{
}

/// Prefixing distributes over concatenation and composes.
proof fn lemma_under_concat(p: Seq<char>, a: Seq<Seq<char>>, b: Seq<Seq<char>>)
    ensures
        under(p, a + b) == under(p, a) + under(p, b),
{
    assert(under(p, a + b) =~= under(p, a) + under(p, b));
}

proof fn lemma_under_prefixed(p: Seq<char>, c: char, ks: Seq<Seq<char>>)
    ensures
        under(p, prefixed(c, ks)) == under(p.push(c), ks),
{
    assert forall|i: int| 0 <= i < ks.len() implies #[trigger] under(p, prefixed(c, ks))[i] == under(p.push(c), ks)[i] by {
        assert(p + (seq![c] + ks[i]) =~= p.push(c) + ks[i]);
    }
    assert(under(p, prefixed(c, ks)) =~= under(p.push(c), ks));
}

/// Appends `prefix + k` for every key `k` below `node`, in depth-first order.
fn collect_keys<V>(node: &Node<V>, prefix: &Vec<char>, out: &mut Vec<String>)
    requires
        wf(*node),
    ensures
        final(out).deep_view() == old(out).deep_view() + under(prefix@, all_keys(*node)),
    decreases *node,
{
    let ghost start = old(out).deep_view();
    let ghost cs = node.children@;
    let ghost own: Seq<Seq<char>> = if node.value is Some { seq![Seq::<char>::empty()] } else { Seq::empty() };
    if node.value.is_some() {
        out.push(crate::text::chars_to_string(prefix));
    }
    proof {
        assert(under(prefix@, own) =~= (if node.value is Some { seq![prefix@] } else { Seq::empty() })) by {
            if node.value is Some {
                assert(prefix@ + Seq::<char>::empty() =~= prefix@);
            }
        }
        assert(out.deep_view() =~= start + under(prefix@, own) + under(prefix@, children_keys(cs, 0)));
        lemma_children_wf(cs, cs.len() as int);
    }
    let mut j: usize = 0;
    while j < node.children.len()
        invariant
            j <= cs.len(),
            cs == node.children@,
            chars_sorted(cs),
            forall|q: int| 0 <= q < cs.len() ==> #[trigger] wf(cs[q].1),
            out.deep_view() == start + under(prefix@, own) + under(prefix@, children_keys(cs, j as int)),
        decreases cs.len() - j,
    {
        let c = node.children[j].0;
        let child = &node.children[j].1;
        let mut p = clone_chars(prefix);
        p.push(c);
        proof {
            assert(decreases_to!(*node => node.children@[j as int].1));
        }
        let ghost before = out.deep_view();
        collect_keys(child, &p, out);
        proof {
            lemma_under_concat(prefix@, children_keys(cs, j as int), prefixed(c, all_keys(cs[j as int].1)));
            lemma_under_prefixed(prefix@, c, all_keys(cs[j as int].1));
            assert(children_keys(cs, j as int + 1) == children_keys(cs, j as int) + prefixed(c, all_keys(cs[j as int].1)));
            assert(out.deep_view() =~= start + under(prefix@, own) + under(prefix@, children_keys(cs, j as int + 1)));
        }
        j = j + 1;
    }
    proof {
        lemma_all_keys_split(*node);
        lemma_under_concat(prefix@, own, children_keys(cs, cs.len() as int));
        assert(out.deep_view() =~= start + under(prefix@, all_keys(*node)));
    }
}

/// Appends `(prefix + k, value)` for every key `k` below `node`, in depth-first order.
fn collect_entries<'a, V>(node: &'a Node<V>, prefix: &Vec<char>, out: &mut Vec<(String, &'a V)>)
    requires
        wf(*node),
    ensures
        final(out)@.len() == old(out)@.len() + all_keys(*node).len(),
        forall|q: int| 0 <= q < old(out)@.len() ==> #[trigger] final(out)@[q] == old(out)@[q],
        forall|q: int| 0 <= q < all_keys(*node).len() ==> {
            &&& (#[trigger] final(out)@[old(out)@.len() + q]).0@ == prefix@ + all_keys(*node)[q]
            &&& Some(*final(out)@[old(out)@.len() + q].1) == node_get(*node, all_keys(*node)[q])
        },
    decreases *node,
{
    let ghost start = old(out)@;
    let ghost cs = node.children@;
    let ghost own: Seq<Seq<char>> = if node.value is Some { seq![Seq::<char>::empty()] } else { Seq::empty() };
    match &node.value {
        Some(v) => {
            out.push((crate::text::chars_to_string(prefix), v));
            proof {
                assert(prefix@ + Seq::<char>::empty() =~= prefix@);
            }
        },
        None => {},
    }
    proof {
        lemma_children_wf(cs, cs.len() as int);
        lemma_all_keys_split(*node);
    }
    let mut j: usize = 0;
    while j < node.children.len()
        invariant
            j <= cs.len(),
            cs == node.children@,
            chars_sorted(cs),
            forall|q: int| 0 <= q < cs.len() ==> #[trigger] wf(cs[q].1),
            all_keys(*node) == own + children_keys(cs, cs.len() as int),
            own == (if node.value is Some { seq![Seq::<char>::empty()] } else { Seq::<Seq<char>>::empty() }),
            out@.len() == start.len() + own.len() + children_keys(cs, j as int).len(),
            forall|q: int| 0 <= q < start.len() ==> #[trigger] out@[q] == start[q],
            forall|q: int| 0 <= q < own.len() + children_keys(cs, j as int).len() ==> {
                &&& (#[trigger] out@[start.len() + q]).0@ == prefix@ + (own + children_keys(cs, j as int))[q]
                &&& Some(*out@[start.len() + q].1) == node_get(*node, (own + children_keys(cs, j as int))[q])
            },
        decreases cs.len() - j,
    {
        let c = node.children[j].0;
        let child = &node.children[j].1;
        let mut p = clone_chars(prefix);
        p.push(c);
        proof {
            assert(decreases_to!(*node => node.children@[j as int].1));
        }
        let ghost before = out@;
        collect_entries(child, &p, out);
        proof {
            let sub = all_keys(cs[j as int].1);
            let prev = own + children_keys(cs, j as int);
            let next = own + children_keys(cs, j as int + 1);
            assert(children_keys(cs, j as int + 1) == children_keys(cs, j as int) + prefixed(c, sub));
            assert(next =~= prev + prefixed(c, sub));
            lemma_child_of(cs, j as int);
            assert forall|q: int| 0 <= q < next.len() implies {
                &&& (#[trigger] out@[start.len() + q]).0@ == prefix@ + next[q]
                &&& Some(*out@[start.len() + q].1) == node_get(*node, next[q])
            } by {
                if q < prev.len() {
                    assert(out@[start.len() + q] == before[start.len() + q]);
                } else {
                    let r = q - prev.len();
                    assert(out@[start.len() + q] == out@[before.len() + r]);
                    assert(next[q] == seq![c] + sub[r]);
                    assert(prefix@ + (seq![c] + sub[r]) =~= p@ + sub[r]);
                    assert((seq![c] + sub[r])[0] == c);
                    assert((seq![c] + sub[r]).drop_first() =~= sub[r]);
                }
            }
        }
        j = j + 1;
    }
}

/// Number of keys stored below `n`.
fn count_nodes<V>(node: &Node<V>) -> (n: usize)
    requires
        wf(*node),
        all_keys(*node).len() <= usize::MAX,
    ensures
        n == all_keys(*node).len(),
    decreases *node,
{
    let ghost cs = node.children@;
    let mut total: usize = if node.value.is_some() { 1 } else { 0 };
    proof {
        lemma_all_keys_split(*node);
        lemma_children_wf(cs, cs.len() as int);
        lemma_children_keys_len_mono(cs, 0, cs.len() as int);
    }
    let mut j: usize = 0;
    while j < node.children.len()
        invariant
            j <= cs.len(),
            cs == node.children@,
            forall|q: int| 0 <= q < cs.len() ==> #[trigger] wf(cs[q].1),
            all_keys(*node).len() <= usize::MAX,
            all_keys(*node) == (if node.value is Some { seq![Seq::<char>::empty()] } else { Seq::<Seq<char>>::empty() })
                + children_keys(cs, cs.len() as int),
            total == (if node.value is Some { 1int } else { 0int }) + children_keys(cs, j as int).len(),
        decreases cs.len() - j,
    {
        let child = &node.children[j].1;
        proof {
            assert(decreases_to!(*node => node.children@[j as int].1));
            assert(children_keys(cs, j as int + 1) == children_keys(cs, j as int) + prefixed(cs[j as int].0, all_keys(cs[j as int].1)));
            lemma_children_keys_len_mono(cs, j as int + 1, cs.len() as int);
        }
        let m = count_nodes(child);
        total = total + m;
        j = j + 1;
    }
    total
}

/// Keys below more children are at least as many.
proof fn lemma_children_keys_len_mono<V>(cs: Seq<(char, Node<V>)>, a: int, b: int)
    requires
        0 <= a <= b <= cs.len(),
    ensures
        children_keys(cs, a).len() <= children_keys(cs, b).len(),
    decreases b - a,
{
    if a < b {
        lemma_children_keys_len_mono(cs, a, b - 1);
    }
}

// ---------------------------------------------------------------------------
// The trie.

/// Prefix map keyed by strings.
pub struct Trie<V> {
    root: Node<V>,
}

impl<V> Trie<V> {
    #[verifier::type_invariant]
    spec fn well_formed(self) -> bool {
        wf(self.root)
    }

    /// The stored key/value pairs.
    pub closed spec fn entries(self) -> Map<Seq<char>, V> {
        Map::new(|k: Seq<char>| node_get(self.root, k) is Some, |k: Seq<char>| node_get(self.root, k)->0)
    }
}

impl<V> View for Trie<V> {
    type V = Map<Seq<char>, V>;

    open spec fn view(&self) -> Map<Seq<char>, V> {
        self.entries()
    }
}

impl<V> Trie<V> {
    /// Empty trie (no keys).
    pub fn empty() -> (t: Self)
        ensures
            t@ == Map::<Seq<char>, V>::empty(),
    {
        let t = Trie { root: Node { value: None, children: Vec::new() } };
        proof {
            assert forall|k: Seq<char>| node_get(t.root, k) is None by {
                if k.len() > 0 {
                    lemma_child_of_none(t.root.children@, k[0]);
                }
            }
            assert(t.entries() =~= Map::<Seq<char>, V>::empty());
        }
        t
    }

    /// Borrows the value at exact `key`, if present.
    pub fn get(&self, key: &str) -> (r: Option<&V>)
        ensures
            r == (if self@.dom().contains(key@) { Some(&self@[key@]) } else { None }),
    {
        proof {
            use_type_invariant(self);
        }
        let chars = crate::text::str_chars(key);
        proof {
            lemma_node_at_get(self.root, key@, Seq::<char>::empty());
            assert(key@ + Seq::<char>::empty() =~= key@);
        }
        match navigate_ref(&self.root, &chars) {
            Some(n) => n.value.as_ref(),
            None => None,
        }
    }

    /// Sets `key` to `value`; returns the previous value at `key`, if any.
    pub fn insert(&mut self, key: &str, value: V) -> (r: Option<V>)
        ensures
            r == (if old(self)@.dom().contains(key@) { Some(old(self)@[key@]) } else { None }),
            final(self)@ == old(self)@.insert(key@, value),
    {
        proof {
            use_type_invariant(&*self);
        }
        let chars = crate::text::str_chars(key);
        let ghost before = self.root;
        let mut root = Node { value: None, children: Vec::new() };
        std::mem::swap(&mut root, &mut self.root);
        let r = insert_node(&mut root, &chars, 0, value);
        self.root = root;
        proof {
            assert(key@.skip(0) =~= key@);
            assert(self.entries() =~= Trie { root: before }.entries().insert(key@, value));
        }
        r
    }

    /// Removes `key` and returns its value, if it existed.
    pub fn remove(&mut self, key: &str) -> (r: Option<V>)
        ensures
            r == (if old(self)@.dom().contains(key@) { Some(old(self)@[key@]) } else { None }),
            final(self)@ == old(self)@.remove(key@),
    {
        proof {
            use_type_invariant(&*self);
        }
        let chars = crate::text::str_chars(key);
        let ghost before = self.root;
        let mut root = Node { value: None, children: Vec::new() };
        std::mem::swap(&mut root, &mut self.root);
        let r = remove_node(&mut root, &chars, 0);
        self.root = root;
        proof {
            assert(key@.skip(0) =~= key@);
            assert(self.entries() =~= Trie { root: before }.entries().remove(key@));
        }
        r
    }

    /// Whether an exact `key` is stored.
    pub fn has(&self, key: &str) -> (b: bool)
        ensures
            b == self@.dom().contains(key@),
    {
        self.get(key).is_some()
    }

    /// The stored keys are the depth-first keys of the root.
    proof fn lemma_dom(&self)
        requires
            wf(self.root),
        ensures
            self@.dom() == all_keys(self.root).to_set(),
            self@.dom().finite(),
            strictly_sorted(all_keys(self.root)),
            self@.dom().len() == all_keys(self.root).len(),
    {
        assert forall|k: Seq<char>| self@.dom().contains(k) <==> all_keys(self.root).to_set().contains(k) by {
            lemma_all_keys_contains(self.root, k);
        }
        assert(self@.dom() =~= all_keys(self.root).to_set());
        lemma_all_keys_sorted(self.root);
        lemma_sorted_no_duplicates(all_keys(self.root));
        all_keys(self.root).unique_seq_to_set();
    }

    /// Count of stored keys.
    pub fn size(&self) -> (n: usize)
        requires
            self@.dom().len() <= usize::MAX,
        ensures
            self@.dom().finite(),
            n == self@.dom().len(),
    {
        proof {
            use_type_invariant(self);
            self.lemma_dom();
        }
        count_nodes(&self.root)
    }

    /// What the keys below `prefix`, in depth-first order, are.
    proof fn lemma_keys_under(&self, prefix: Seq<char>, sub: Node<V>)
        requires
            wf(self.root),
            node_at(self.root, prefix) == Some(sub),
        ensures
            strictly_sorted(under(prefix, all_keys(sub))),
            under(prefix, all_keys(sub)).to_set() == keys_with_prefix_of(self@, prefix),
            forall|q: int| 0 <= q < all_keys(sub).len() ==> node_get(sub, #[trigger] all_keys(sub)[q]) == node_get(self.root, prefix + all_keys(sub)[q]),
    {
        lemma_node_at_wf(self.root, prefix);
        lemma_all_keys_sorted(sub);
        let ks = all_keys(sub);
        let u = under(prefix, ks);
        assert forall|i: int, j: int| 0 <= i < j < u.len() implies lex_lt(#[trigger] u[i], #[trigger] u[j]) by {
            assert(lex_lt(ks[i], ks[j]));
            assert(u[i].take(prefix.len() as int) =~= u[j].take(prefix.len() as int));
            crate::order::lemma_lex_after_common(u[i], u[j], prefix.len() as int);
            assert(u[i].skip(prefix.len() as int) =~= ks[i]);
            assert(u[j].skip(prefix.len() as int) =~= ks[j]);
        }
        assert forall|k: Seq<char>| u.to_set().contains(k) <==> keys_with_prefix_of(self@, prefix).contains(k) by {
            if u.to_set().contains(k) {
                let i = choose|i: int| 0 <= i < u.len() && #[trigger] u[i] == k;
                lemma_all_keys_contains(sub, ks[i]);
                assert(ks.contains(ks[i]));
                lemma_node_at_get(self.root, prefix, ks[i]);
                assert(k.take(prefix.len() as int) =~= prefix);
            }
            if keys_with_prefix_of(self@, prefix).contains(k) {
                let rest = k.skip(prefix.len() as int);
                assert(k =~= prefix + rest);
                lemma_node_at_get(self.root, prefix, rest);
                lemma_all_keys_contains(sub, rest);
                let i = choose|i: int| 0 <= i < ks.len() && #[trigger] ks[i] == rest;
                assert(u[i] == k);
            }
        }
        assert(u.to_set() =~= keys_with_prefix_of(self@, prefix));
        assert forall|q: int| 0 <= q < ks.len() implies node_get(sub, #[trigger] ks[q]) == node_get(self.root, prefix + ks[q]) by {
            lemma_node_at_get(self.root, prefix, ks[q]);
        }
    }

    /// No key lies below a prefix that leads nowhere.
    proof fn lemma_no_keys_under(&self, prefix: Seq<char>)
        requires
            node_at(self.root, prefix) is None,
        ensures
            keys_with_prefix_of(self@, prefix) == Set::<Seq<char>>::empty(),
    {
        assert forall|k: Seq<char>| !keys_with_prefix_of(self@, prefix).contains(k) by {
            if k.len() >= prefix.len() && k.take(prefix.len() as int) == prefix {
                assert(k =~= prefix + k.skip(prefix.len() as int));
                lemma_node_at_get(self.root, prefix, k.skip(prefix.len() as int));
            }
        }
        assert(keys_with_prefix_of(self@, prefix) =~= Set::<Seq<char>>::empty());
    }

    /// All full keys under the subtrie rooted at `prefix`, in increasing order.
    pub fn keys_with_prefix(&self, prefix: &str) -> (r: Vec<String>)
        ensures
            strictly_sorted(r.deep_view()),
            r.deep_view().to_set() == keys_with_prefix_of(self@, prefix@),
    {
        proof {
            use_type_invariant(self);
        }
        let p = crate::text::str_chars(prefix);
        let mut out: Vec<String> = Vec::new();
        match navigate_ref(&self.root, &p) {
            Some(start) => {
                proof {
                    lemma_node_at_wf(self.root, prefix@);
                }
                collect_keys(start, &p, &mut out);
                proof {
                    self.lemma_keys_under(prefix@, *start);
                    assert(out.deep_view() =~= under(prefix@, all_keys(*start)));
                }
            },
            None => {
                proof {
                    self.lemma_no_keys_under(prefix@);
                    assert(out.deep_view().to_set() =~= Set::<Seq<char>>::empty());
                }
            },
        }
        out
    }

    /// `(key, value)` pairs for every key under `prefix`, in increasing key order.
    pub fn entries_with_prefix(&self, prefix: &str) -> (r: Vec<(String, &V)>)
        ensures
            strictly_sorted(entry_keys(r@)),
            entry_keys(r@).to_set() == keys_with_prefix_of(self@, prefix@),
            forall|q: int| 0 <= q < r@.len() ==> *(#[trigger] r@[q]).1 == self@[r@[q].0@],
    {
        proof {
            use_type_invariant(self);
        }
        let p = crate::text::str_chars(prefix);
        let mut out: Vec<(String, &V)> = Vec::new();
        match navigate_ref(&self.root, &p) {
            Some(start) => {
                proof {
                    lemma_node_at_wf(self.root, prefix@);
                }
                collect_entries(start, &p, &mut out);
                proof {
                    self.lemma_keys_under(prefix@, *start);
                    let ks = all_keys(*start);
                    assert(entry_keys(out@) =~= under(prefix@, ks)) by {
                        assert forall|q: int| 0 <= q < ks.len() implies #[trigger] entry_keys(out@)[q] == under(prefix@, ks)[q] by {
                            assert(out@[0 + q] == out@[q]);
                        }
                    }
                    assert forall|q: int| 0 <= q < out@.len() implies *(#[trigger] out@[q]).1 == self@[out@[q].0@] by {
                        assert(out@[0 + q] == out@[q]);
                        assert(ks.contains(ks[q]));
                        lemma_all_keys_contains(*start, ks[q]);
                    }
                }
            },
            None => {
                proof {
                    self.lemma_no_keys_under(prefix@);
                    assert(entry_keys(out@).to_set() =~= Set::<Seq<char>>::empty());
                }
            },
        }
        out
    }

    /// Longest stored key that is a prefix of `key` (the empty string when
    /// only the root holds a value).
    pub fn longest_prefix_of<'a>(&self, key: &'a str) -> (r: Option<&'a str>)
        ensures
            r is None ==> forall|m: int| 0 <= m <= key@.len() ==> !self@.dom().contains(#[trigger] key@.take(m)),
            r matches Some(s) ==> {
                &&& s@.len() <= key@.len()
                &&& s@ == key@.take(s@.len() as int)
                &&& self@.dom().contains(s@)
                &&& forall|m: int| s@.len() < m <= key@.len() ==> !self@.dom().contains(#[trigger] key@.take(m))
            },
    {
        proof {
            use_type_invariant(self);
        }
        let chars = crate::text::str_chars(key);
        let ghost root = self.root;
        let mut cur: &Node<V> = &self.root;
        let mut end: Option<usize> = if cur.value.is_some() { Some(0) } else { None };
        let mut i: usize = 0;
        proof {
            assert(key@.take(0) =~= Seq::<char>::empty());
            lemma_node_at_get(root, Seq::<char>::empty(), Seq::<char>::empty());
        }
        while i < chars.len()
            invariant_except_break
                i <= chars@.len(),
                chars@ == key@,
                root == self.root,
                wf(root),
                wf(*cur),
                node_at(root, key@.take(i as int)) == Some(*cur),
                end is None ==> forall|m: int| 0 <= m <= i ==> node_get(root, #[trigger] key@.take(m)) is None,
                end matches Some(e) ==> e <= i && node_get(root, key@.take(e as int)) is Some
                    && forall|m: int| e < m <= i ==> node_get(root, #[trigger] key@.take(m)) is None,
            ensures
                i <= chars@.len(),
                end is None ==> forall|m: int| 0 <= m <= key@.len() ==> node_get(root, #[trigger] key@.take(m)) is None,
                end matches Some(e) ==> e <= key@.len() && node_get(root, key@.take(e as int)) is Some
                    && forall|m: int| e < m <= key@.len() ==> node_get(root, #[trigger] key@.take(m)) is None,
            decreases chars@.len() - i,
        {
            let c = chars[i];
            proof {
                lemma_node_at_push(root, key@.take(i as int), c);
                assert(key@.take(i as int + 1) =~= key@.take(i as int).push(c));
            }
            match find_child(&cur.children, c) {
                Some(j) => {
                    proof {
                        lemma_wf_child(*cur, j as int);
                    }
                    cur = &cur.children[j].1;
                    proof {
                        lemma_node_at_get(root, key@.take(i as int + 1), Seq::<char>::empty());
                        assert(key@.take(i as int + 1) + Seq::<char>::empty() =~= key@.take(i as int + 1));
                    }
                    if cur.value.is_some() {
                        end = Some(i + 1);
                    }
                    i = i + 1;
                },
                None => {
                    proof {
                        assert forall|m: int| i < m <= key@.len() implies node_get(root, #[trigger] key@.take(m)) is None by {
                            let rest = key@.take(m).skip(i as int + 1);
                            assert(key@.take(m) =~= key@.take(i as int + 1) + rest);
                            lemma_node_at_get(root, key@.take(i as int + 1), rest);
                        }
                    }
                    break;
                },
            }
        }
        match end {
            Some(e) => {
                let s = key.substring_char(0, e);
                proof {
                    assert(s@ =~= key@.take(e as int));
                }
                Some(s)
            },
            None => None,
        }
    }
}

/// Keys of `m` that start with `p`.
pub open spec fn keys_with_prefix_of<V>(m: Map<Seq<char>, V>, p: Seq<char>) -> Set<Seq<char>> {
    Set::new(|k: Seq<char>| m.dom().contains(k) && k.len() >= p.len() && k.take(p.len() as int) == p)
}

/// The keys of `(key, value)` entries.
pub open spec fn entry_keys<V>(es: Seq<(String, &V)>) -> Seq<Seq<char>> {
    es.map_values(|e: (String, &V)| e.0@)
}

// ---------------------------------------------------------------------------
// Laws.

/// Every stored key lies under the empty prefix: listing the keys under `""`
/// lists the whole trie.
pub proof fn law_empty_prefix_lists_every_key<V>(m: Map<Seq<char>, V>)
    ensures
        keys_with_prefix_of(m, Seq::<char>::empty()) == m.dom(),
{
    assert forall|k: Seq<char>| keys_with_prefix_of(m, Seq::<char>::empty()).contains(k) == m.dom().contains(k) by {
        assert(k.take(0) =~= Seq::<char>::empty());
    }
    assert(keys_with_prefix_of(m, Seq::<char>::empty()) =~= m.dom());
}

/// A read gives back what the last write under that key wrote, and a write
/// leaves every other key as it was.
pub proof fn law_get_after_insert<V>(m: Map<Seq<char>, V>, key: Seq<char>, value: V, other: Seq<char>)
    ensures
        m.insert(key, value).dom().contains(key),
        m.insert(key, value)[key] == value,
        other != key ==> (m.insert(key, value).dom().contains(other) == m.dom().contains(other)),
        other != key && m.dom().contains(other) ==> m.insert(key, value)[other] == m[other],
{
}

/// Removing a key that was just inserted where none was stored restores the trie.
pub proof fn law_remove_undoes_fresh_insert<V>(m: Map<Seq<char>, V>, key: Seq<char>, value: V)
    requires
        !m.dom().contains(key),
    ensures
        m.insert(key, value).remove(key) == m,
{
    assert(m.insert(key, value).remove(key) =~= m);
}

/// Storing a new key adds one to the size; replacing a value keeps it.
pub proof fn law_insert_size<V>(m: Map<Seq<char>, V>, key: Seq<char>, value: V)
    requires
        m.dom().finite(),
    ensures
        m.insert(key, value).dom().len() == (if m.dom().contains(key) { m.dom().len() } else { m.dom().len() + 1 }),
{
    if m.dom().contains(key) {
        assert(m.insert(key, value).dom() =~= m.dom());
    } else {
        assert(m.insert(key, value).dom() =~= m.dom().insert(key));
    }
}

} // verus!
