//! Lexicographic order on character sequences (the order of `String`'s `Ord`,
//! since UTF-8 preserves code point order) and strictly sorted sequences of keys.
use vstd::prelude::*;

verus! {

/// `a` sorts strictly before `b`, comparing code points left to right and
/// a proper prefix before its extensions.
pub open spec fn lex_lt(a: Seq<char>, b: Seq<char>) -> bool
    decreases a.len(),
{
    if a.len() == 0 {
        b.len() > 0
    } else if b.len() == 0 {
        false
    } else if a[0] != b[0] {
        a[0] < b[0]
    } else {
        lex_lt(a.drop_first(), b.drop_first())
    }
}

pub proof fn lemma_lex_irreflexive(a: Seq<char>)
    ensures
        !lex_lt(a, a),
    decreases a.len(),
{
    if a.len() > 0 {
        lemma_lex_irreflexive(a.drop_first());
    }
}

pub proof fn lemma_lex_asymmetric(a: Seq<char>, b: Seq<char>)
    ensures
        !(lex_lt(a, b) && lex_lt(b, a)),
    decreases a.len(),
{
    if a.len() > 0 && b.len() > 0 && a[0] == b[0] {
        lemma_lex_asymmetric(a.drop_first(), b.drop_first());
    }
}

pub proof fn lemma_lex_transitive(a: Seq<char>, b: Seq<char>, c: Seq<char>)
    requires
        lex_lt(a, b),
        lex_lt(b, c),
    ensures
        lex_lt(a, c),
    decreases a.len(),
{
    if a.len() > 0 && b.len() > 0 && c.len() > 0 && a[0] == b[0] && b[0] == c[0] {
        lemma_lex_transitive(a.drop_first(), b.drop_first(), c.drop_first());
    }
}

pub proof fn lemma_lex_total(a: Seq<char>, b: Seq<char>)
    ensures
        a != b ==> lex_lt(a, b) || lex_lt(b, a),
    decreases a.len(),
{
    if a.len() > 0 && b.len() > 0 && a[0] == b[0] {
        lemma_lex_total(a.drop_first(), b.drop_first());
        if a.drop_first() == b.drop_first() {
            assert(a =~= seq![a[0]] + a.drop_first());
            assert(b =~= seq![b[0]] + b.drop_first());
        }
    } else if a.len() == 0 && b.len() == 0 {
        assert(a =~= b);
    }
}

/// Each key sorts strictly before the next.
pub open spec fn strictly_sorted(s: Seq<Seq<char>>) -> bool {
    forall|i: int, j: int| 0 <= i < j < s.len() ==> lex_lt(#[trigger] s[i], #[trigger] s[j])
}

/// A strictly sorted sequence holds no key twice.
pub proof fn lemma_sorted_no_duplicates(s: Seq<Seq<char>>)
    requires
        strictly_sorted(s),
    ensures
        s.no_duplicates(),
{
    assert forall|i: int, j: int| 0 <= i < s.len() && 0 <= j < s.len() && i != j implies s[i] != s[j] by {
        if i < j {
            lemma_lex_irreflexive(s[i]);
        } else {
            lemma_lex_irreflexive(s[j]);
        }
    }
}

/// Two strictly sorted sequences with the same keys are equal.
pub proof fn lemma_sorted_unique(s: Seq<Seq<char>>, t: Seq<Seq<char>>)
    requires
        strictly_sorted(s),
        strictly_sorted(t),
        s.to_set() == t.to_set(),
    ensures
        s == t,
    decreases s.len() + t.len(),
{
    lemma_sorted_no_duplicates(s);
    lemma_sorted_no_duplicates(t);
    s.unique_seq_to_set();
    t.unique_seq_to_set();
    if s.len() > 0 && t.len() > 0 {
        // the smallest keys agree
        assert(t.to_set().contains(s[0]));
        assert(s.to_set().contains(t[0]));
        let i = choose|i: int| 0 <= i < t.len() && t[i] == s[0];
        let j = choose|j: int| 0 <= j < s.len() && s[j] == t[0];
        if s[0] != t[0] {
            assert(i > 0);
            assert(j > 0);
            assert(lex_lt(t[0], t[i]));
            assert(lex_lt(s[0], s[j]));
            lemma_lex_asymmetric(s[0], t[0]);
        }
        let s1 = s.drop_first();
        let t1 = t.drop_first();
        assert(s1.to_set() =~= t1.to_set()) by {
            assert forall|x: Seq<char>| s1.to_set().contains(x) implies t1.to_set().contains(x) by {
                let a = choose|a: int| 0 <= a < s1.len() && s1[a] == x;
                assert(s.to_set().contains(x));
                let b = choose|b: int| 0 <= b < t.len() && t[b] == x;
                assert(s[a + 1] == x);
                assert(lex_lt(s[0], s[a + 1]));
                lemma_lex_irreflexive(x);
                assert(b != 0);
                assert(t1[b - 1] == x);
            }
            assert forall|x: Seq<char>| t1.to_set().contains(x) implies s1.to_set().contains(x) by {
                let a = choose|a: int| 0 <= a < t1.len() && t1[a] == x;
                assert(t.to_set().contains(x));
                let b = choose|b: int| 0 <= b < s.len() && s[b] == x;
                assert(t[a + 1] == x);
                assert(lex_lt(t[0], t[a + 1]));
                lemma_lex_irreflexive(x);
                assert(b != 0);
                assert(s1[b - 1] == x);
            }
        }
        lemma_sorted_unique(s1, t1);
        assert(s =~= seq![s[0]] + s1);
        assert(t =~= seq![t[0]] + t1);
    } else if s.len() > 0 {
        assert(t.to_set().contains(s[0]));
    } else if t.len() > 0 {
        assert(s.to_set().contains(t[0]));
    } else {
        assert(s =~= t);
    }
}

/// Compares two keys: `Less` is `-1`, `Equal` is `0`, `Greater` is `1`.
pub fn compare_chars(a: &Vec<char>, b: &Vec<char>) -> (r: i8)
    ensures
        r == -1 || r == 0 || r == 1,
        r == 0 <==> a@ == b@,
        r == -1 <==> lex_lt(a@, b@),
        r == 1 <==> lex_lt(b@, a@),
{
    let mut i: usize = 0;
    while i < a.len() && i < b.len()
        invariant
            i <= a@.len(),
            i <= b@.len(),
            a@.take(i as int) == b@.take(i as int),
        decreases a@.len() - i,
    {
        if a[i] != b[i] {
            proof {
                lemma_lex_after_common(a@, b@, i as int);
            }
            if a[i] < b[i] {
                return -1;
            } else {
                return 1;
            }
        }
        proof {
            assert(a@.take(i as int + 1) =~= a@.take(i as int).push(a@[i as int]));
            assert(b@.take(i as int + 1) =~= b@.take(i as int).push(b@[i as int]));
        }
        i = i + 1;
    }
    proof {
        lemma_lex_after_common(a@, b@, i as int);
        lemma_lex_irreflexive(a@);
        if i == a@.len() && i == b@.len() {
            assert(a@ =~= a@.take(i as int));
            assert(b@ =~= b@.take(i as int));
        }
        if i < a@.len() || i < b@.len() {
            if a@ == b@ {
                assert(a@.len() == b@.len());
            }
        }
    }
    if a.len() == b.len() {
        0
    } else if a.len() < b.len() {
        -1
    } else {
        1
    }
}

/// Comparison only depends on what follows a common prefix of length `i`.
pub proof fn lemma_lex_after_common(a: Seq<char>, b: Seq<char>, i: int)
    requires
        0 <= i <= a.len(),
        i <= b.len(),
        a.take(i) == b.take(i),
    ensures
        lex_lt(a, b) == lex_lt(a.skip(i), b.skip(i)),
        lex_lt(b, a) == lex_lt(b.skip(i), a.skip(i)),
    decreases i,
{
    if i > 0 {
        assert(a[0] == a.take(i)[0]);
        assert(b[0] == b.take(i)[0]);
        assert(a.drop_first().take(i - 1) =~= a.take(i).drop_first());
        assert(b.drop_first().take(i - 1) =~= b.take(i).drop_first());
        lemma_lex_after_common(a.drop_first(), b.drop_first(), i - 1);
        assert(a.drop_first().skip(i - 1) =~= a.skip(i));
        assert(b.drop_first().skip(i - 1) =~= b.skip(i));
    } else {
        assert(a.skip(0) =~= a);
        assert(b.skip(0) =~= b);
    }
}

/// Inserts `x` into the strictly sorted `v`, keeping it strictly sorted;
/// nothing changes when `x` is already present.
pub fn sorted_insert(v: &mut Vec<Vec<char>>, x: Vec<char>)
    requires
        strictly_sorted(old(v).deep_view()),
    ensures
        strictly_sorted(final(v).deep_view()),
        final(v).deep_view().to_set() == old(v).deep_view().to_set().insert(x@),
{
    let ghost old_v = v.deep_view();
    let mut i: usize = 0;
    while i < v.len()
        invariant
            i <= v@.len(),
            v.deep_view() == old_v,
            strictly_sorted(old_v),
            forall|j: int| 0 <= j < i ==> lex_lt(#[trigger] old_v[j], x@),
        ensures
            i <= v@.len(),
            v.deep_view() == old_v,
            forall|j: int| 0 <= j < i ==> lex_lt(#[trigger] old_v[j], x@),
            i < v@.len() ==> lex_lt(x@, old_v[i as int]),
        decreases v@.len() - i,
    {
        let c = compare_chars(&v[i], &x);
        assert(old_v[i as int] == v@[i as int]@);
        if c == 0 {
            proof {
                assert(old_v[i as int] == x@);
                assert(old_v.to_set().insert(x@) =~= old_v.to_set());
            }
            return;
        }
        if c == 1 {
            break;
        }
        i = i + 1;
    }
    let ghost xv = x@;
    v.insert(i, x);
    proof {
        let nv = v.deep_view();
        assert(nv =~= old_v.insert(i as int, xv)) by {
            assert forall|k: int| 0 <= k < nv.len() implies nv[k] == old_v.insert(i as int, xv)[k] by {
                assert(nv[k] == v@[k]@);
            }
        }
        assert forall|a: int, b: int| 0 <= a < b < nv.len() implies lex_lt(#[trigger] nv[a], #[trigger] nv[b]) by {
            if b < i {
            } else if b == i {
                assert(nv[a] == old_v[a]);
            } else if a == i {
                assert(nv[b] == old_v[b - 1]);
                assert(lex_lt(xv, old_v[i as int]));
                if b - 1 > i {
                    lemma_lex_transitive(xv, old_v[i as int], old_v[b - 1]);
                }
            } else if a < i {
                assert(nv[b] == old_v[b - 1]);
            } else {
                assert(nv[a] == old_v[a - 1]);
                assert(nv[b] == old_v[b - 1]);
            }
        }
        assert(nv.to_set() =~= old_v.to_set().insert(xv)) by {
            assert forall|y: Seq<char>| nv.to_set().contains(y) implies old_v.to_set().insert(xv).contains(y) by {
                let k = choose|k: int| 0 <= k < nv.len() && nv[k] == y;
                if k < i {
                    assert(old_v[k] == y);
                } else if k > i {
                    assert(old_v[k - 1] == y);
                }
            }
            assert forall|y: Seq<char>| old_v.to_set().insert(xv).contains(y) implies nv.to_set().contains(y) by {
                if y == xv {
                    assert(nv[i as int] == y);
                } else {
                    let k = choose|k: int| 0 <= k < old_v.len() && old_v[k] == y;
                    if k < i {
                        assert(nv[k] == y);
                    } else {
                        assert(nv[k + 1] == y);
                    }
                }
            }
        }
    }
}

/// Inserts `x` into the strictly sorted `v`, keeping it strictly sorted;
/// nothing changes when `x` is already present.
pub fn sorted_insert_str(v: &mut Vec<String>, x: String)
    requires
        strictly_sorted(old(v).deep_view()),
    ensures
        strictly_sorted(final(v).deep_view()),
        final(v).deep_view().to_set() == old(v).deep_view().to_set().insert(x@),
{
    let ghost old_v = v.deep_view();
    let mut i: usize = 0;
    while i < v.len()
        invariant
            i <= v@.len(),
            v.deep_view() == old_v,
            strictly_sorted(old_v),
            forall|j: int| 0 <= j < i ==> lex_lt(#[trigger] old_v[j], x@),
        ensures
            i <= v@.len(),
            v.deep_view() == old_v,
            forall|j: int| 0 <= j < i ==> lex_lt(#[trigger] old_v[j], x@),
            i < v@.len() ==> lex_lt(x@, old_v[i as int]),
        decreases v@.len() - i,
    {
        let c = compare_chars(&crate::text::str_chars(v[i].as_str()), &crate::text::str_chars(x.as_str()));
        assert(old_v[i as int] == v@[i as int]@);
        if c == 0 {
            proof {
                assert(old_v[i as int] == x@);
                assert(old_v.to_set().insert(x@) =~= old_v.to_set());
            }
            return;
        }
        if c == 1 {
            break;
        }
        i = i + 1;
    }
    let ghost xv = x@;
    v.insert(i, x);
    proof {
        let nv = v.deep_view();
        assert(nv =~= old_v.insert(i as int, xv)) by {
            assert forall|k: int| 0 <= k < nv.len() implies nv[k] == old_v.insert(i as int, xv)[k] by {
                assert(nv[k] == v@[k]@);
            }
        }
        assert forall|a: int, b: int| 0 <= a < b < nv.len() implies lex_lt(#[trigger] nv[a], #[trigger] nv[b]) by {
            if b < i {
            } else if b == i {
                assert(nv[a] == old_v[a]);
            } else if a == i {
                assert(nv[b] == old_v[b - 1]);
                assert(lex_lt(xv, old_v[i as int]));
                if b - 1 > i {
                    lemma_lex_transitive(xv, old_v[i as int], old_v[b - 1]);
                }
            } else if a < i {
                assert(nv[b] == old_v[b - 1]);
            } else {
                assert(nv[a] == old_v[a - 1]);
                assert(nv[b] == old_v[b - 1]);
            }
        }
        assert(nv.to_set() =~= old_v.to_set().insert(xv)) by {
            assert forall|y: Seq<char>| nv.to_set().contains(y) implies old_v.to_set().insert(xv).contains(y) by {
                let k = choose|k: int| 0 <= k < nv.len() && nv[k] == y;
                if k < i {
                    assert(old_v[k] == y);
                } else if k > i {
                    assert(old_v[k - 1] == y);
                }
            }
            assert forall|y: Seq<char>| old_v.to_set().insert(xv).contains(y) implies nv.to_set().contains(y) by {
                if y == xv {
                    assert(nv[i as int] == y);
                } else {
                    let k = choose|k: int| 0 <= k < old_v.len() && old_v[k] == y;
                    if k < i {
                        assert(nv[k] == y);
                    } else {
                        assert(nv[k + 1] == y);
                    }
                }
            }
        }
    }
}

} // verus!
