//! Source-text checks used by the style lints: counting macro invocations,
//! recognising harness paths and spotting the obsolete postfix bind syntax.
use vstd::prelude::*;

use crate::text::{
    chars_equal, contains_str, count_lead_ws, first_occurrence, has_sub, is_ws, is_ws_char, lead_ws, lemma_lead_ws_bound, lemma_lead_ws_is,
    lemma_trail_ws_is, matches_at, trim_end_prefix, occurs_at, slice_chars, starts_with, str_chars, trim_end, trim_start,
};

verus! {

// ---------------------------------------------------------------------------
// Text vocabulary.




/// Number of non-overlapping occurrences of `n` in `h`, taken leftmost first;
/// an empty `n` occurs at every character boundary.
pub open spec fn count_matches(h: Seq<char>, n: Seq<char>) -> nat
    decreases h.len(),
{
    if n.len() == 0 {
        h.len() + 1
    } else if h.len() < n.len() {
        0
    } else if h.take(n.len() as int) == n {
        1 + count_matches(h.skip(n.len() as int), n)
    } else {
        count_matches(h.drop_first(), n)
    }
}




/// Number of non-overlapping occurrences of `needle` in `hay`, scanning left to right.
pub fn count_substr(hay: &str, needle: &str) -> (n: usize)
    requires
        hay@.len() < usize::MAX,
    ensures
        n == count_matches(hay@, needle@),
{
    let h = str_chars(hay);
    let nd = str_chars(needle);
    if nd.len() == 0 {
        return h.len() + 1;
    }
    let mut count: usize = 0;
    let mut i: usize = 0;
    proof {
        assert(h@.skip(0) =~= h@);
    }
    while i < h.len()
        invariant
            i <= h@.len(),
            h@ == hay@,
            nd@ == needle@,
            nd@.len() > 0,
            count <= i,
            count + count_matches(h@.skip(i as int), nd@) == count_matches(hay@, needle@),
        decreases h@.len() - i,
    {
        let rest = Ghost(h@.skip(i as int));
        if matches_at(&h, &nd, i) {
            proof {
                assert(rest@.take(nd@.len() as int) =~= h@.subrange(i as int, i + nd@.len()));
                assert(rest@.skip(nd@.len() as int) =~= h@.skip(i + nd@.len()));
            }
            count = count + 1;
            i = i + nd.len();
        } else {
            proof {
                if rest@.len() >= nd@.len() {
                    assert(rest@.take(nd@.len() as int) =~= h@.subrange(i as int, i + nd@.len()));
                }
                assert(rest@.drop_first() =~= h@.skip(i + 1));
            }
            i = i + 1;
        }
    }
    proof {
        assert(h@.skip(i as int).len() == 0);
    }
    count
}

/// Markers of test, example, benchmark and binary sources, for `/` and `\\` separators.
pub open spec fn harness_markers() -> Seq<Seq<char>> {
    seq![
        "/tests/"@,
        "/examples/"@,
        "/benches/"@,
        "/src/bin/"@,
        "/src/main.rs"@,
        "\\tests\\"@,
        "\\examples\\"@,
        "\\benches\\"@,
        "\\src\\bin\\"@,
        "\\src\\main.rs"@,
    ]
}

/// `path` lies under a tests, examples or benches directory, or is a binary's source.
pub open spec fn is_harness_path(path: Seq<char>) -> bool {
    exists|k: int| 0 <= k < harness_markers().len() && has_sub(path, #[trigger] harness_markers()[k])
}

/// True when `path` lies under a tests, examples or benches directory, or is
/// a binary's source (`src/bin/`, `src/main.rs`).
pub fn path_is_tests_examples_or_benches(path: &str) -> (b: bool)
    ensures
        b == is_harness_path(path@),
{
    let p = str_chars(path);
    let markers: [&str; 10] = [
        "/tests/",
        "/examples/",
        "/benches/",
        "/src/bin/",
        "/src/main.rs",
        "\\tests\\",
        "\\examples\\",
        "\\benches\\",
        "\\src\\bin\\",
        "\\src\\main.rs",
    ];
    proof {
        assert(markers@.map_values(|m: &str| m@) =~= harness_markers());
    }
    let mut k: usize = 0;
    while k < 10
        invariant
            k <= 10,
            p@ == path@,
            markers@.map_values(|m: &str| m@) == harness_markers(),
            forall|q: int| 0 <= q < k ==> !has_sub(path@, #[trigger] harness_markers()[q]),
        decreases 10 - k,
    {
        if contains_str(&p, markers[k]) {
            proof {
                assert(harness_markers()[k as int] == markers@[k as int]@);
            }
            return true;
        }
        proof {
            assert(harness_markers()[k as int] == markers@[k as int]@);
        }
        k = k + 1;
    }
    false
}

// ---------------------------------------------------------------------------
// Lines, whitespace and tokens.






/// Position of the first `'\n'` in `s`, or its length.
pub open spec fn line_end(s: Seq<char>) -> nat
    decreases s.len(),
{
    if s.len() == 0 || s[0] == '\n' {
        0
    } else {
        1 + line_end(s.drop_first())
    }
}

/// `line` without one final `'\r'`.
pub open spec fn strip_cr(line: Seq<char>) -> Seq<char> {
    if line.len() > 0 && line.last() == '\r' {
        line.drop_last()
    } else {
        line
    }
}

/// The lines of `s` (`str::lines`): split at `'\n'`, each line without its
/// `"\n"` or `"\r\n"` ending; a final line ending adds no empty line.
pub open spec fn lines(s: Seq<char>) -> Seq<Seq<char>>
    decreases s.len(),
{
    if s.len() == 0 {
        Seq::empty()
    } else {
        let e = line_end(s) as int;
        if e >= s.len() {
            seq![s]
        } else {
            seq![strip_cr(s.take(e))] + lines(s.skip(e + 1))
        }
    }
}


/// The first whitespace-separated token of `s`.
pub open spec fn first_token(s: Seq<char>) -> Seq<char> {
    let t = trim_start(s);
    t.take(first_ws(t) as int)
}

/// Position of the first whitespace character of `s`, or its length.
pub open spec fn first_ws(s: Seq<char>) -> nat
    decreases s.len(),
{
    if s.len() == 0 || is_ws(s[0]) {
        0
    } else {
        1 + first_ws(s.drop_first())
    }
}

/// An ASCII letter or digit, or `_`.
pub open spec fn is_ident_char(c: char) -> bool {
    ('a' <= c && c <= 'z') || ('A' <= c && c <= 'Z') || ('0' <= c && c <= '9') || c == '_'
}

/// The left side of `" ~ "` (trimmed) marks the obsolete form: no `=`, no
/// leading `let `, and a first token made of identifier characters.
pub open spec fn tilde_lhs_is_ident(before: Seq<char>) -> bool {
    &&& !before.contains('=')
    &&& !starts_with(before, "let "@)
    &&& first_token(before).len() > 0
    &&& forall|k: int| 0 <= k < first_token(before).len() ==> is_ident_char(#[trigger] first_token(before)[k])
}

/// A line that opens a comment (after leading whitespace).
pub open spec fn comment_line(t: Seq<char>) -> bool {
    starts_with(t, "//"@) || starts_with(t, "/*"@) || starts_with(t, "*"@)
}

/// One line holds the obsolete `ident ~ expr` form: not a comment, with
/// `" ~ "` whose left side (trimmed) has no `=`, does not start with `let `,
/// and starts with an identifier-like token.
#[verifier::opaque]
pub open spec fn legacy_tilde_line(line: Seq<char>) -> bool {
    let t = trim_start(line);
    &&& !comment_line(t)
    &&& has_sub(t, " ~ "@)
    &&& tilde_lhs_is_ident(trim_end(t.take(first_occurrence(t, " ~ "@))))
}



proof fn lemma_first_ws_bound(s: Seq<char>)
    ensures
        first_ws(s) <= s.len(),
        forall|k: int| 0 <= k < first_ws(s) ==> !is_ws(#[trigger] s[k]),
        first_ws(s) < s.len() ==> is_ws(s[first_ws(s) as int]),
    decreases s.len(),
{
    if s.len() > 0 && !is_ws(s[0]) {
        lemma_first_ws_bound(s.drop_first());
        assert forall|k: int| 0 <= k < first_ws(s) implies !is_ws(#[trigger] s[k]) by {
            if k > 0 {
                assert(s[k] == s.drop_first()[k - 1]);
            }
        }
    }
}

proof fn lemma_line_end_bound(s: Seq<char>)
    ensures
        line_end(s) <= s.len(),
        forall|k: int| 0 <= k < line_end(s) ==> #[trigger] s[k] != '\n',
        line_end(s) < s.len() ==> s[line_end(s) as int] == '\n',
    decreases s.len(),
{
    if s.len() > 0 && s[0] != '\n' {
        lemma_line_end_bound(s.drop_first());
        assert forall|k: int| 0 <= k < line_end(s) implies #[trigger] s[k] != '\n' by {
            if k > 0 {
                assert(s[k] == s.drop_first()[k - 1]);
            }
        }
    }
}

/// `line_end` is the first newline position.
proof fn lemma_line_end_is(s: Seq<char>, e: int)
    requires
        0 <= e <= s.len(),
        forall|k: int| 0 <= k < e ==> #[trigger] s[k] != '\n',
        e < s.len() ==> s[e] == '\n',
    ensures
        line_end(s) == e,
    decreases s.len(),
{
    if e > 0 {
        assert forall|k: int| 0 <= k < e - 1 implies #[trigger] s.drop_first()[k] != '\n' by {
            assert(s.drop_first()[k] == s[k + 1]);
        }
        lemma_line_end_is(s.drop_first(), e - 1);
    }
}



/// `first_ws` is the position of the first whitespace character.
proof fn lemma_first_ws_is(s: Seq<char>, n: int)
    requires
        0 <= n <= s.len(),
        forall|k: int| 0 <= k < n ==> !is_ws(#[trigger] s[k]),
        n < s.len() ==> is_ws(s[n]),
    ensures
        first_ws(s) == n,
    decreases s.len(),
{
    if n > 0 {
        assert forall|k: int| 0 <= k < n - 1 implies !is_ws(#[trigger] s.drop_first()[k]) by {
            assert(s.drop_first()[k] == s[k + 1]);
        }
        assert(!is_ws(s[0]));
        lemma_first_ws_is(s.drop_first(), n - 1);
    }
}


/// Whether `c` is an ASCII letter or digit, or `_`.
fn is_ident_char_exec(c: char) -> (b: bool)
    ensures
        b == is_ident_char(c),
{
    ('a' <= c && c <= 'z') || ('A' <= c && c <= 'Z') || ('0' <= c && c <= '9') || c == '_'
}

/// Whether `c` occurs in `v`.
fn contains_char(v: &Vec<char>, c: char) -> (b: bool)
    ensures
        b == v@.contains(c),
{
    let mut k: usize = 0;
    while k < v.len()
        invariant
            k <= v@.len(),
            forall|q: int| 0 <= q < k ==> v@[q] != c,
        decreases v@.len() - k,
    {
        if v[k] == c {
            proof {
                assert(v@[k as int] == c);
            }
            return true;
        }
        k = k + 1;
    }
    false
}


/// Position of the first whitespace character of `v` at or after `a`, or its length.
fn next_ws(v: &Vec<char>, a: usize) -> (z: usize)
    requires
        a <= v@.len(),
    ensures
        a <= z <= v@.len(),
        z - a == first_ws(v@.skip(a as int)),
{
    let mut z: usize = a;
    while z < v.len() && !is_ws_char(v[z])
        invariant
            a <= z <= v@.len(),
            forall|q: int| a <= q < z ==> !is_ws(#[trigger] v@[q]),
        decreases v@.len() - z,
    {
        z = z + 1;
    }
    proof {
        let ts = v@.skip(a as int);
        assert forall|q: int| 0 <= q < z - a implies !is_ws(#[trigger] ts[q]) by {
            assert(ts[q] == v@[a + q]);
        }
        if z < v@.len() {
            assert(ts[z - a] == v@[z as int]);
        }
        lemma_first_ws_is(ts, (z - a) as int);
    }
    z
}

/// Whether every character of `v` in `a..z` is an identifier character.
fn all_ident(v: &Vec<char>, a: usize, z: usize) -> (b: bool)
    requires
        a <= z <= v@.len(),
    ensures
        b == forall|r: int| a <= r < z ==> is_ident_char(#[trigger] v@[r]),
{
    let mut q: usize = a;
    while q < z
        invariant
            a <= q <= z <= v@.len(),
            forall|r: int| a <= r < q ==> is_ident_char(#[trigger] v@[r]),
        decreases z - q,
    {
        if !is_ident_char_exec(v[q]) {
            return false;
        }
        q = q + 1;
    }
    true
}

/// Position of the first `" ~ "` in `t`, if any.
fn find_tilde(t: &Vec<char>) -> (r: Option<usize>)
    ensures
        r is None ==> !has_sub(t@, " ~ "@),
        r matches Some(p) ==> p == first_occurrence(t@, " ~ "@) && has_sub(t@, " ~ "@) && p <= t@.len(),
{
    let tilde = str_chars(" ~ ");
    proof {
        reveal_strlit(" ~ ");
    }
    let mut p: usize = 0;
    while p < t.len()
        invariant
            p <= t@.len(),
            tilde@ == " ~ "@,
            tilde@.len() == 3,
            forall|q: int| 0 <= q < p ==> !#[trigger] occurs_at(t@, tilde@, q),
        decreases t@.len() - p,
    {
        if matches_at(t, &tilde, p) {
            proof {
                let fo = first_occurrence(t@, " ~ "@);
                assert(occurs_at(t@, " ~ "@, p as int));
                assert(occurs_at(t@, " ~ "@, fo) && forall|j: int| 0 <= j < fo ==> !#[trigger] occurs_at(t@, " ~ "@, j));
                if fo > p {
                    assert(!occurs_at(t@, " ~ "@, p as int));
                }
                assert(fo == p);
            }
            return Some(p);
        }
        p = p + 1;
    }
    proof {
        assert forall|q: int| !#[trigger] occurs_at(t@, " ~ "@, q) by {
            if 0 <= q && q < p {
                assert(!occurs_at(t@, tilde@, q));
            }
        }
    }
    None
}


/// Whether the line holds the obsolete `ident ~ expr` form.
fn legacy_tilde_line_exec(line: &Vec<char>) -> (b: bool)
    ensures
        b == legacy_tilde_line(line@),
{
    let ls = count_lead_ws(line);
    proof {
        lemma_lead_ws_bound(line@);
    }
    let t = slice_chars(line, ls, line.len());
    proof {
        assert(t@ =~= trim_start(line@));
    }
    let slash2 = str_chars("//");
    let slash_star = str_chars("/*");
    let star = str_chars("*");
    if matches_at(&t, &slash2, 0) || matches_at(&t, &slash_star, 0) || matches_at(&t, &star, 0) {
        proof {
            reveal(legacy_tilde_line);
        }
        return false;
    }
    let p = match find_tilde(&t) {
        Some(p) => p,
        None => {
            proof {
                reveal(legacy_tilde_line);
            }
            return false;
        },
    };
    let before = trim_end_prefix(&t, p);
    let ok = lhs_is_ident(&before);
    proof {
        reveal(legacy_tilde_line);
    }
    ok
}

/// Whether the trimmed left side of `" ~ "` marks the obsolete form.
fn lhs_is_ident(before: &Vec<char>) -> (b: bool)
    ensures
        b == tilde_lhs_is_ident(before@),
{
    if contains_char(before, '=') {
        return false;
    }
    let let_kw = str_chars("let ");
    if matches_at(before, &let_kw, 0) {
        return false;
    }
    let a = count_lead_ws(before);
    proof {
        lemma_lead_ws_bound(before@);
    }
    let z = next_ws(before, a);
    let ok = z > a && all_ident(before, a, z);
    proof {
        let tok = first_token(before@);
        assert(trim_start(before@) =~= before@.skip(a as int));
        assert(tok =~= before@.subrange(a as int, z as int));
        if z > a {
            if ok {
                assert forall|r: int| 0 <= r < tok.len() implies is_ident_char(#[trigger] tok[r]) by {
                    assert(tok[r] == before@[a + r]);
                }
            } else {
                let r = choose|r: int| a <= r < z && !is_ident_char(#[trigger] before@[r]);
                assert(tok[r - a] == before@[r]);
            }
        }
    }
    ok
}

/// True when some non-comment line of `sn` holds the obsolete postfix
/// `ident ~ expr` bind (not `let x = ~expr`).
pub fn snippet_has_legacy_postfix_tilde(sn: &str) -> (b: bool)
    ensures
        b == exists|i: int| 0 <= i < lines(sn@).len() && legacy_tilde_line(#[trigger] lines(sn@)[i]),
{
    let chars = str_chars(sn);
    let ls = split_lines(&chars);
    let mut i: usize = 0;
    while i < ls.len()
        invariant
            i <= ls@.len(),
            ls.deep_view() == lines(sn@),
            forall|q: int| 0 <= q < i ==> !legacy_tilde_line(#[trigger] lines(sn@)[q]),
        decreases ls@.len() - i,
    {
        let hit = legacy_tilde_line_exec(&ls[i]);
        proof {
            assert(ls.deep_view()[i as int] == ls@[i as int].deep_view());
            assert(ls@[i as int].deep_view() =~= ls@[i as int]@);
        }
        if hit {
            return true;
        }
        i = i + 1;
    }
    false
}


/// The lines of `s`, as `str::lines` splits them.
fn split_lines(s: &Vec<char>) -> (r: Vec<Vec<char>>)
    ensures
        r.deep_view() == lines(s@),
{
    let mut r: Vec<Vec<char>> = Vec::new();
    let mut start: usize = 0;
    let mut i: usize = 0;
    proof {
        assert(s@.skip(0) =~= s@);
    }
    while i < s.len()
        invariant
            start <= i <= s@.len(),
            r.deep_view() + lines(s@.skip(start as int)) == lines(s@),
            forall|k: int| start <= k < i ==> #[trigger] s@[k] != '\n',
        decreases s@.len() - i,
    {
        if s[i] == '\n' {
            let mut line = slice_chars(s, start, i);
            if line.len() > 0 && line[line.len() - 1] == '\r' {
                line.pop();
            }
            proof {
                let rest = s@.skip(start as int);
                assert forall|k: int| 0 <= k < i - start implies #[trigger] rest[k] != '\n' by {
                    assert(rest[k] == s@[start + k]);
                }
                assert(rest[i - start] == '\n');
                lemma_line_end_is(rest, i - start);
                assert(rest.take(i - start) =~= s@.subrange(start as int, i as int));
                assert(rest.skip(i - start + 1) =~= s@.skip(i + 1));
                assert(line@ == strip_cr(rest.take(i - start))) by {
                    if rest.take(i - start).len() > 0 && rest.take(i - start).last() == '\r' {
                        assert(line@ =~= rest.take(i - start).drop_last());
                    }
                }
                assert(lines(rest) == seq![line@] + lines(s@.skip(i + 1)));
            }
            let ghost before = r.deep_view();
            let ghost old_r = r@;
            proof {
                assert forall|k: int| 0 <= k < r@.len() implies #[trigger] before[k] == old_r[k]@ by {
                    assert(old_r[k].deep_view() =~= old_r[k]@);
                }
            }
            r.push(line);
            proof {
                assert forall|k: int| 0 <= k < r@.len() implies #[trigger] r.deep_view()[k] == before.push(line@)[k] by {
                    assert(r@[k].deep_view() =~= r@[k]@);
                    if k < before.len() {
                        assert(r@[k] == old_r[k]);
                    }
                }
                assert(r.deep_view() =~= before.push(line@));
                assert(before.push(line@) + lines(s@.skip(i + 1)) =~= before + (seq![line@] + lines(s@.skip(i + 1))));
            }
            start = i + 1;
        }
        i = i + 1;
    }
    if start < s.len() {
        let line = slice_chars(s, start, s.len());
        proof {
            let rest = s@.skip(start as int);
            assert forall|k: int| 0 <= k < rest.len() implies #[trigger] rest[k] != '\n' by {
                assert(rest[k] == s@[start + k]);
            }
            lemma_line_end_is(rest, rest.len() as int);
            assert(line@ =~= rest);
            assert(lines(rest) == seq![rest]);
        }
        let ghost before = r.deep_view();
        let ghost old_r = r@;
        proof {
            assert forall|k: int| 0 <= k < r@.len() implies #[trigger] before[k] == old_r[k]@ by {
                assert(old_r[k].deep_view() =~= old_r[k]@);
            }
        }
        r.push(line);
        proof {
            assert forall|k: int| 0 <= k < r@.len() implies #[trigger] r.deep_view()[k] == (before + seq![line@])[k] by {
                assert(r@[k].deep_view() =~= r@[k]@);
                if k < before.len() {
                    assert(r@[k] == old_r[k]);
                }
            }
            assert(r.deep_view() =~= before + seq![line@]);
        }
    } else {
        proof {
            assert(s@.skip(start as int).len() == 0);
            assert(r.deep_view() + lines(s@.skip(start as int)) =~= r.deep_view());
        }
    }
    r
}

// ---------------------------------------------------------------------------
// Laws.

/// Counted occurrences do not overlap: together they fit in the text.
pub proof fn law_counted_occurrences_fit(h: Seq<char>, n: Seq<char>)
    requires
        n.len() > 0,
    ensures
        count_matches(h, n) * n.len() <= h.len(),
    decreases h.len(),
{
    if h.len() < n.len() {
        assert(count_matches(h, n) == 0);
        assert(0 * n.len() == 0) by (nonlinear_arith);
    } else if h.take(n.len() as int) == n {
        let rest = h.skip(n.len() as int);
        law_counted_occurrences_fit(rest, n);
        let c = count_matches(rest, n);
        assert(count_matches(h, n) == 1 + c);
        assert((1 + c) * n.len() <= h.len()) by (nonlinear_arith)
            requires
                c * n.len() <= rest.len(),
                rest.len() == h.len() - n.len(),
        ;
    } else {
        law_counted_occurrences_fit(h.drop_first(), n);
        assert(count_matches(h, n) == count_matches(h.drop_first(), n));
    }
}

/// A text without the needle counts none of it.
pub proof fn law_absent_needle_counts_zero(h: Seq<char>, n: Seq<char>)
    requires
        n.len() > 0,
        !has_sub(h, n),
    ensures
        count_matches(h, n) == 0,
    decreases h.len(),
{
    if h.len() >= n.len() {
        if h.take(n.len() as int) == n {
            assert(occurs_at(h, n, 0)) by {
                assert(h.subrange(0, n.len() as int) =~= h.take(n.len() as int));
            }
        } else {
            assert forall|i: int| !#[trigger] occurs_at(h.drop_first(), n, i) by {
                if occurs_at(h.drop_first(), n, i) {
                    assert(h.drop_first().subrange(i, i + n.len()) =~= h.subrange(i + 1, i + 1 + n.len()));
                    assert(occurs_at(h, n, i + 1));
                }
            }
            law_absent_needle_counts_zero(h.drop_first(), n);
        }
    }
}

// ---------------------------------------------------------------------------
// Names, attributes and snippets.

/// `h` ends with `n`.
pub open spec fn ends_with(h: Seq<char>, n: Seq<char>) -> bool {
    h.len() >= n.len() && h.skip(h.len() - n.len()) == n
}

/// Whether the text `h` ends with the literal `n`.
pub(crate) fn ends_with_str(h: &Vec<char>, n: &str) -> (b: bool)
    ensures
        b == ends_with(h@, n@),
{
    let nc = str_chars(n);
    if nc.len() > h.len() {
        return false;
    }
    let start = h.len() - nc.len();
    let r = matches_at(h, &nc, start);
    proof {
        assert(h@.subrange(start as int, start + nc@.len()) =~= h@.skip(h@.len() - nc@.len()));
    }
    r
}

/// An attribute path that marks a test: `test`, `...::test`, or one naming
/// `tokio::test` or `rstest`.
pub open spec fn test_like_attr(p: Seq<char>) -> bool {
    p == "test"@ || ends_with(p, "::test"@) || has_sub(p, "tokio::test"@) || has_sub(p, "rstest"@)
}

/// Whether an attribute path marks a test function.
pub fn attr_is_test_like(path: &str) -> (b: bool)
    ensures
        b == test_like_attr(path@),
{
    let p = str_chars(path);
    chars_equal(&p, "test") || ends_with_str(&p, "::test") || contains_str(&p, "tokio::test") || contains_str(
        &p,
        "rstest",
    )
}

/// A function name that marks a run boundary: `main` or `..._blocking`.
pub open spec fn boundary_name(name: Seq<char>) -> bool {
    name == "main"@ || ends_with(name, "_blocking"@)
}

/// Where running an effect is allowed: closures and inline constants, `main`
/// and `..._blocking` functions, test functions, and harness sources.
pub open spec fn run_boundary_ok(closure_like: bool, name: Seq<char>, has_test_attr: bool, file_path: Option<Seq<char>>) -> bool {
    closure_like || boundary_name(name) || has_test_attr || (file_path matches Some(p) && is_harness_path(p))
}

/// Whether code at this place may run effects: closures and inline
/// constants, `main` and `..._blocking` functions, test functions, and files
/// under tests, examples, benches or a binary's sources.
pub fn boundary_ok_for_run(closure_like: bool, name: &str, has_test_attr: bool, file_path: Option<&str>) -> (b: bool)
    ensures
        b == run_boundary_ok(closure_like, name@, has_test_attr, match file_path { Some(p) => Some(p@), None => None }),
{
    if closure_like {
        return true;
    }
    let n = str_chars(name);
    if chars_equal(&n, "main") || ends_with_str(&n, "_blocking") {
        return true;
    }
    if has_test_attr {
        return true;
    }
    match file_path {
        Some(p) => path_is_tests_examples_or_benches(p),
        None => false,
    }
}

/// Crates that implement the effect system skip the style lints: `forge_*`
/// packages and the logger and macro crates.
pub open spec fn style_lints_skip_crate(name: Seq<char>) -> bool {
    starts_with(name, "forge_"@) || name == "effect_logger"@ || name == "effect_macro"@ || name == "effect_proc_macro"@
}

/// Whether the style lints skip the crate named `name`.
pub fn effect_style_late_skip_crate(name: &str) -> (b: bool)
    ensures
        b == style_lints_skip_crate(name@),
{
    let n = str_chars(name);
    matches_at(&n, &str_chars("forge_"), 0) || chars_equal(&n, "effect_logger") || chars_equal(&n, "effect_macro")
        || chars_equal(&n, "effect_proc_macro")
}

/// Crates that implement the effect system and its DI helpers skip the interop lints.
pub open spec fn interop_lints_skip_crate(name: Seq<char>) -> bool {
    name == "effect"@ || name == "effect_config"@ || name == "effect_logger"@ || name == "effect_macro"@ || name
        == "effect_proc_macro"@ || name == "effect_dylint_rules"@
}

/// Whether the interop lints skip the crate named `name`.
pub fn effect_interop_skip_crate(name: &str) -> (b: bool)
    ensures
        b == interop_lints_skip_crate(name@),
{
    let n = str_chars(name);
    chars_equal(&n, "effect") || chars_equal(&n, "effect_config") || chars_equal(&n, "effect_logger") || chars_equal(
        &n,
        "effect_macro",
    ) || chars_equal(&n, "effect_proc_macro") || chars_equal(&n, "effect_dylint_rules")
}

/// Crates where raw `tracing::` macros are allowed.
pub open spec fn raw_tracing_allowed_in(name: Seq<char>) -> bool {
    starts_with(name, "forge_"@) || name == "effect"@ || name == "effect_logger"@ || name == "effect_macro"@ || name
        == "effect_proc_macro"@ || name == "effect_dylint_rules"@
}

/// Whether a macro call in crate `crate_name` whose path has the given
/// segments is a raw `tracing::...` macro that the lint reports.
pub fn reports_raw_tracing(crate_name: Option<&str>, segments: &[&str]) -> (b: bool)
    ensures
        b == (crate_name matches Some(n) && !raw_tracing_allowed_in(n@) && segments@.len() >= 2 && segments@[0]@
            == "tracing"@),
{
    let n = match crate_name {
        Some(n) => n,
        None => {
            return false;
        },
    };
    let c = str_chars(n);
    if matches_at(&c, &str_chars("forge_"), 0) {
        return false;
    }
    if chars_equal(&c, "effect") || chars_equal(&c, "effect_logger") || chars_equal(&c, "effect_macro") || chars_equal(
        &c,
        "effect_proc_macro",
    ) || chars_equal(&c, "effect_dylint_rules") {
        return false;
    }
    if segments.len() < 2 {
        return false;
    }
    chars_equal(&str_chars(segments[0]), "tracing")
}

/// A definition path naming `std::time::Instant::now` (or a re-export of it).
pub open spec fn instant_now_path(path: Seq<char>) -> bool {
    ends_with(path, "time::Instant::now"@)
}

/// Whether a definition path names `Instant::now`.
pub fn is_std_time_instant_now(path: &str) -> (b: bool)
    ensures
        b == instant_now_path(path@),
{
    ends_with_str(&str_chars(path), "time::Instant::now")
}

/// Whether the closure passed to `Effect::new_async` likely drives a nested
/// `.run(...)` across `.await` (which `from_async` cannot express).
pub fn new_async_snippet_suggests_run_env_across_await(snippet: &str) -> (b: bool)
    ensures
        b == (has_sub(snippet@, ".run("@) && has_sub(snippet@, ".await"@)),
{
    let s = str_chars(snippet);
    contains_str(&s, ".run(") && contains_str(&s, ".await")
}

} // verus!
