//! Character-level views of strings and the few string builders the library needs.
use vstd::prelude::*;

verus! {

/// Appends one character to a `String` (`String::push`): the contract claims
/// that the string's characters gain `c` at the end and nothing else changes.
#[verifier::external_body]
pub(crate) fn push_char(s: &mut String, c: char)
    ensures
        final(s)@ == old(s)@.push(c),
{
    s.push(c);
}

/// The characters of `s`, in order.
pub fn str_chars(s: &str) -> (v: Vec<char>)
    ensures
        v@ == s@,
{
    let mut v: Vec<char> = Vec::new();
    for c in it: s.chars()
        invariant
            v@ == it.seq().take(it.index() as int),
    {
        v.push(c);
    }
    v
}

/// A copy of the characters.
pub fn clone_chars(v: &Vec<char>) -> (r: Vec<char>)
    ensures
        r@ == v@,
{
    let mut r: Vec<char> = Vec::new();
    let mut i: usize = 0;
    while i < v.len()
        invariant
            i <= v@.len(),
            r@ == v@.take(i as int),
        decreases v@.len() - i,
    {
        r.push(v[i]);
        i = i + 1;
        proof {
            assert(v@.take(i as int) =~= v@.take(i as int - 1).push(v@[i as int - 1]));
        }
    }
    assert(v@.take(i as int) =~= v@);
    r
}

/// The string made of the given characters.
pub fn chars_to_string(v: &Vec<char>) -> (s: String)
    ensures
        s@ == v@,
{
    let mut s = String::new();
    let mut i: usize = 0;
    while i < v.len()
        invariant
            i <= v@.len(),
            s@ == v@.take(i as int),
        decreases v@.len() - i,
    {
        push_char(&mut s, v[i]);
        i = i + 1;
        proof {
            assert(v@.take(i as int) =~= v@.take(i as int - 1).push(v@[i as int - 1]));
        }
    }
    assert(v@.take(i as int) =~= v@);
    s
}

/// `pieces` joined with `sep` between consecutive pieces.
pub open spec fn joined(pieces: Seq<Seq<char>>, sep: Seq<char>) -> Seq<char>
    decreases pieces.len(),
{
    if pieces.len() == 0 {
        Seq::empty()
    } else if pieces.len() == 1 {
        pieces[0]
    } else {
        joined(pieces.drop_last(), sep) + sep + pieces.last()
    }
}

/// `x` between backticks.
pub open spec fn ticked(x: Seq<char>) -> Seq<char> {
    "`"@ + x + "`"@
}

/// Joins the strings with `sep` between consecutive ones (`[..].join(sep)`).
pub fn join_strings(pieces: &Vec<String>, sep: &str) -> (s: String)
    ensures
        s@ == joined(pieces.deep_view(), sep@),
{
    let mut s = String::new();
    let mut i: usize = 0;
    while i < pieces.len()
        invariant
            i <= pieces@.len(),
            s@ == joined(pieces.deep_view().take(i as int), sep@),
        decreases pieces@.len() - i,
    {
        proof {
            let t = pieces.deep_view().take(i as int + 1);
            assert(t.drop_last() =~= pieces.deep_view().take(i as int));
            assert(t.last() == pieces@[i as int]@);
        }
        if i > 0 {
            s.append(sep);
        }
        s.append(pieces[i].as_str());
        i = i + 1;
    }
    assert(pieces.deep_view().take(i as int) =~= pieces.deep_view());
    s
}

// ---------------------------------------------------------------------------
// Occurrences, whitespace and trimming.

/// `n` occurs in `h` starting at position `i`.
pub open spec fn occurs_at(h: Seq<char>, n: Seq<char>, i: int) -> bool {
    0 <= i && i + n.len() <= h.len() && h.subrange(i, i + n.len()) == n
}

/// Position of the first occurrence of `n` in `h` (meaningful when there is one).
pub open spec fn first_occurrence(h: Seq<char>, n: Seq<char>) -> int {
    choose|i: int| occurs_at(h, n, i) && forall|j: int| 0 <= j < i ==> !#[trigger] occurs_at(h, n, j)
}

/// The first occurrence is the occurrence with none before it.
pub(crate) proof fn lemma_first_occurrence_is(h: Seq<char>, n: Seq<char>, k: int)
    requires
        occurs_at(h, n, k),
        forall|j: int| 0 <= j < k ==> !#[trigger] occurs_at(h, n, j),
    ensures
        first_occurrence(h, n) == k,
        has_sub(h, n),
{
    let fo = first_occurrence(h, n);
    assert(occurs_at(h, n, fo) && forall|j: int| 0 <= j < fo ==> !#[trigger] occurs_at(h, n, j));
    if fo > k {
        assert(!occurs_at(h, n, k));
    }
    if fo < k {
        assert(fo >= 0);
        assert(!occurs_at(h, n, fo));
    }
}

/// `n` occurs somewhere in `h`.
pub open spec fn has_sub(h: Seq<char>, n: Seq<char>) -> bool {
    exists|i: int| #[trigger] occurs_at(h, n, i)
}

/// `h` begins with `n`.
pub open spec fn starts_with(h: Seq<char>, n: Seq<char>) -> bool {
    occurs_at(h, n, 0)
}

/// Whether `n` occurs in `h` at position `i`.
pub(crate) fn matches_at(h: &Vec<char>, n: &Vec<char>, i: usize) -> (b: bool)
    requires
        i <= h@.len(),
    ensures
        b == occurs_at(h@, n@, i as int),
{
    let hl = h.len();
    if n.len() > hl - i {
        return false;
    }
    let mut k: usize = 0;
    while k < n.len()
        invariant
            k <= n@.len(),
            hl == h@.len(),
            i + n@.len() <= h@.len(),
            forall|q: int| 0 <= q < k ==> h@[i + q] == n@[q],
        decreases n@.len() - k,
    {
        if h[i + k] != n[k] {
            proof {
                assert(h@.subrange(i as int, i + n@.len())[k as int] != n@[k as int]);
            }
            return false;
        }
        k = k + 1;
    }
    proof {
        assert(h@.subrange(i as int, i + n@.len()) =~= n@);
    }
    true
}

/// Whether the characters `v` spell `lit`.
pub(crate) fn chars_equal(v: &Vec<char>, lit: &str) -> (b: bool)
    ensures
        b == (v@ == lit@),
{
    let w = str_chars(lit);
    if v.len() != w.len() {
        return false;
    }
    let r = matches_at(v, &w, 0);
    proof {
        assert(v@.subrange(0, w@.len() as int) =~= v@);
    }
    r
}

/// Whether `n` occurs anywhere in `h`.
pub(crate) fn contains_chars(h: &Vec<char>, n: &Vec<char>) -> (b: bool)
    ensures
        b == has_sub(h@, n@),
{
    let mut i: usize = 0;
    while i < h.len()
        invariant
            i <= h@.len(),
            forall|q: int| 0 <= q < i ==> !#[trigger] occurs_at(h@, n@, q),
        decreases h@.len() - i,
    {
        if matches_at(h, n, i) {
            return true;
        }
        i = i + 1;
    }
    matches_at(h, n, i)
}

/// Whether the text `h` contains the literal `n`.
pub(crate) fn contains_str(h: &Vec<char>, n: &str) -> (b: bool)
    ensures
        b == has_sub(h@, n@),
{
    let nc = str_chars(n);
    contains_chars(h, &nc)
}

/// `char::is_whitespace`: the Unicode `White_Space` characters.
pub open spec fn is_ws(c: char) -> bool {
    ||| c == '\t' || c == '\n' || c == '\u{0B}' || c == '\u{0C}' || c == '\r' || c == ' '
    ||| c == '\u{85}' || c == '\u{A0}' || c == '\u{1680}'
    ||| ('\u{2000}' <= c && c <= '\u{200A}')
    ||| c == '\u{2028}' || c == '\u{2029}' || c == '\u{202F}' || c == '\u{205F}' || c == '\u{3000}'
}

/// Number of leading whitespace characters.
pub open spec fn lead_ws(s: Seq<char>) -> nat
    decreases s.len(),
{
    if s.len() > 0 && is_ws(s[0]) {
        1 + lead_ws(s.drop_first())
    } else {
        0
    }
}

/// Number of trailing whitespace characters.
pub open spec fn trail_ws(s: Seq<char>) -> nat
    decreases s.len(),
{
    if s.len() > 0 && is_ws(s.last()) {
        1 + trail_ws(s.drop_last())
    } else {
        0
    }
}

/// `s` without leading whitespace (`str::trim_start`).
pub open spec fn trim_start(s: Seq<char>) -> Seq<char> {
    s.skip(lead_ws(s) as int)
}

/// `s` without trailing whitespace (`str::trim_end`).
pub open spec fn trim_end(s: Seq<char>) -> Seq<char> {
    s.take(s.len() - trail_ws(s))
}

pub(crate) proof fn lemma_lead_ws_bound(s: Seq<char>)
    ensures
        lead_ws(s) <= s.len(),
        forall|k: int| 0 <= k < lead_ws(s) ==> is_ws(#[trigger] s[k]),
        lead_ws(s) < s.len() ==> !is_ws(s[lead_ws(s) as int]),
    decreases s.len(),
{
    if s.len() > 0 && is_ws(s[0]) {
        lemma_lead_ws_bound(s.drop_first());
        assert forall|k: int| 0 <= k < lead_ws(s) implies is_ws(#[trigger] s[k]) by {
            if k > 0 {
                assert(s[k] == s.drop_first()[k - 1]);
            }
        }
    }
}

pub(crate) proof fn lemma_trail_ws_bound(s: Seq<char>)
    ensures
        trail_ws(s) <= s.len(),
        forall|k: int| s.len() - trail_ws(s) <= k < s.len() ==> is_ws(#[trigger] s[k]),
        trail_ws(s) < s.len() ==> !is_ws(s[s.len() - trail_ws(s) - 1]),
    decreases s.len(),
{
    if s.len() > 0 && is_ws(s.last()) {
        lemma_trail_ws_bound(s.drop_last());
        assert forall|k: int| s.len() - trail_ws(s) <= k < s.len() implies is_ws(#[trigger] s[k]) by {
            if k < s.len() - 1 {
                assert(s[k] == s.drop_last()[k]);
            }
        }
    }
}

/// `lead_ws` is the number of leading whitespace characters.
pub(crate) proof fn lemma_lead_ws_is(s: Seq<char>, n: int)
    requires
        0 <= n <= s.len(),
        forall|k: int| 0 <= k < n ==> is_ws(#[trigger] s[k]),
        n < s.len() ==> !is_ws(s[n]),
    ensures
        lead_ws(s) == n,
    decreases s.len(),
{
    if n > 0 {
        assert forall|k: int| 0 <= k < n - 1 implies is_ws(#[trigger] s.drop_first()[k]) by {
            assert(s.drop_first()[k] == s[k + 1]);
        }
        assert(is_ws(s[0]));
        lemma_lead_ws_is(s.drop_first(), n - 1);
    }
}

/// `trail_ws` is the number of trailing whitespace characters.
pub(crate) proof fn lemma_trail_ws_is(s: Seq<char>, n: int)
    requires
        0 <= n <= s.len(),
        forall|k: int| s.len() - n <= k < s.len() ==> is_ws(#[trigger] s[k]),
        n < s.len() ==> !is_ws(s[s.len() - n - 1]),
    ensures
        trail_ws(s) == n,
    decreases s.len(),
{
    if n > 0 {
        assert forall|k: int| s.len() - 1 - (n - 1) <= k < s.len() - 1 implies is_ws(#[trigger] s.drop_last()[k]) by {
            assert(s.drop_last()[k] == s[k]);
        }
        assert(is_ws(s[s.len() - 1]));
        if n - 1 < s.len() - 1 {
            assert(s.drop_last()[s.len() - 1 - (n - 1) - 1] == s[s.len() - n - 1]);
        }
        lemma_trail_ws_is(s.drop_last(), n - 1);
    }
}

/// Whether `c` is whitespace (`char::is_whitespace`).
pub(crate) fn is_ws_char(c: char) -> (b: bool)
    ensures
        b == is_ws(c),
{
    c == '\t' || c == '\n' || c == '\u{0B}' || c == '\u{0C}' || c == '\r' || c == ' ' || c == '\u{85}'
        || c == '\u{A0}' || c == '\u{1680}' || ('\u{2000}' <= c && c <= '\u{200A}') || c == '\u{2028}'
        || c == '\u{2029}' || c == '\u{202F}' || c == '\u{205F}' || c == '\u{3000}'
}

/// Number of leading whitespace characters of `v`.
pub(crate) fn count_lead_ws(v: &Vec<char>) -> (n: usize)
    ensures
        n == lead_ws(v@),
{
    let mut a: usize = 0;
    while a < v.len() && is_ws_char(v[a])
        invariant
            a <= v@.len(),
            forall|q: int| 0 <= q < a ==> is_ws(#[trigger] v@[q]),
        decreases v@.len() - a,
    {
        a = a + 1;
    }
    proof {
        lemma_lead_ws_is(v@, a as int);
    }
    a
}

/// Characters `lo..hi` of `v`.
pub(crate) fn slice_chars(v: &Vec<char>, lo: usize, hi: usize) -> (r: Vec<char>)
    requires
        lo <= hi <= v@.len(),
    ensures
        r@ == v@.subrange(lo as int, hi as int),
{
    let mut r: Vec<char> = Vec::new();
    let mut i: usize = lo;
    while i < hi
        invariant
            lo <= i <= hi,
            hi <= v@.len(),
            r@ == v@.subrange(lo as int, i as int),
        decreases hi - i,
    {
        r.push(v[i]);
        i = i + 1;
        proof {
            assert(v@.subrange(lo as int, i as int) =~= v@.subrange(lo as int, i - 1).push(v@[i - 1]));
        }
    }
    r
}

/// The first `p` characters of `t` without trailing whitespace.
pub(crate) fn trim_end_prefix(t: &Vec<char>, p: usize) -> (before: Vec<char>)
    requires
        p <= t@.len(),
    ensures
        before@ == trim_end(t@.take(p as int)),
{
    let mut e: usize = p;
    while e > 0 && is_ws_char(t[e - 1])
        invariant
            e <= p <= t@.len(),
            forall|k: int| e <= k < p ==> is_ws(#[trigger] t@[k]),
        decreases e,
    {
        e = e - 1;
    }
    let before = slice_chars(t, 0, e);
    proof {
        let tp = t@.take(p as int);
        assert forall|k: int| tp.len() - (p - e) <= k < tp.len() implies is_ws(#[trigger] tp[k]) by {
            assert(tp[k] == t@[k]);
        }
        if e > 0 {
            assert(tp[tp.len() - (p - e) - 1] == t@[e - 1]);
        }
        lemma_trail_ws_is(tp, (p - e) as int);
        assert(before@ =~= trim_end(tp));
    }
    before
}

/// `str::trim`: without leading and trailing whitespace.
pub open spec fn trim(s: Seq<char>) -> Seq<char> {
    trim_end(trim_start(s))
}

/// The characters of `v` without leading and trailing whitespace.
pub(crate) fn trim_chars(v: &Vec<char>) -> (r: Vec<char>)
    ensures
        r@ == trim(v@),
{
    let ls = count_lead_ws(v);
    proof {
        lemma_lead_ws_bound(v@);
    }
    let t = slice_chars(v, ls, v.len());
    assert(t@ =~= trim_start(v@));
    assert(t@.take(t@.len() as int) =~= t@);
    trim_end_prefix(&t, t.len())
}

} // verus!
