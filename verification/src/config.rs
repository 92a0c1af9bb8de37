//! Typed reads of configuration values: given what the configuration provider
//! holds at a path (a string, nothing, or its own error), produce the value or
//! the configuration error the read reports.
use vstd::prelude::*;

use crate::text::{
    chars_equal, chars_to_string, first_occurrence, has_sub, is_ws, is_ws_char, joined, matches_at, occurs_at, slice_chars, str_chars,
    trim, trim_chars, trim_end, trim_start,
};

verus! {

/// Why a configuration read failed.
#[derive(Clone, Debug, PartialEq, Eq)]
pub enum ConfigError {
    /// Nothing is stored at the path.
    Missing {
        /// Dotted path of the read.
        path: String,
    },
    /// A value is stored but cannot be read as the requested type.
    Invalid {
        /// Dotted path of the read.
        path: String,
        /// The stored text.
        value: String,
        /// Why it was rejected.
        reason: String,
    },
}

/// `(namespace, leaf...)` as one path, e.g. `["SERVER", "HOST"]`.
pub fn nested_path(namespace: &str, leaf: &[&str]) -> (p: Vec<String>)
    ensures
        p.deep_view() == seq![namespace@] + leaf@.map_values(|s: &str| s@),
{
    let mut p: Vec<String> = Vec::new();
    p.push(namespace.to_owned());
    let mut i: usize = 0;
    while i < leaf.len()
        invariant
            i <= leaf@.len(),
            p@.len() == i + 1,
            p@[0]@ == namespace@,
            forall|k: int| 0 <= k < i ==> #[trigger] p@[k + 1]@ == leaf@[k]@,
        decreases leaf@.len() - i,
    {
        p.push(leaf[i].to_owned());
        i = i + 1;
    }
    assert(p.deep_view() =~= seq![namespace@] + leaf@.map_values(|s: &str| s@)) by {
        assert forall|k: int| 0 <= k < p@.len() implies #[trigger] p.deep_view()[k] == (seq![namespace@]
            + leaf@.map_values(|s: &str| s@))[k] by {
            assert(p.deep_view()[k] == p@[k]@);
            if k > 0 {
                assert(p@[(k - 1) + 1]@ == leaf@[k - 1]@);
            }
        }
    }
    p
}

/// The dotted form of a path: its segments joined with `"."`.
pub open spec fn dotted(path: Seq<&str>) -> Seq<char> {
    joined(path.map_values(|s: &str| s@), "."@)
}

/// The dotted form of `path`.
fn path_string(path: &[&str]) -> (s: String)
    ensures
        s@ == dotted(path@),
{
    let mut owned: Vec<String> = Vec::new();
    let mut i: usize = 0;
    while i < path.len()
        invariant
            i <= path@.len(),
            owned@.len() == i,
            forall|k: int| 0 <= k < i ==> #[trigger] owned@[k]@ == path@[k]@,
        decreases path@.len() - i,
    {
        owned.push(path[i].to_owned());
        i = i + 1;
    }
    assert(owned.deep_view() =~= path@.map_values(|s: &str| s@)) by {
        assert forall|k: int| 0 <= k < owned@.len() implies #[trigger] owned.deep_view()[k] == path@.map_values(
            |s: &str| s@,
        )[k] by {
            assert(owned.deep_view()[k] == owned@[k]@);
        }
    }
    crate::text::join_strings(&owned, ".")
}

/// `e` is `Missing` at path `p`.
pub open spec fn missing_at(e: ConfigError, p: Seq<char>) -> bool {
    e matches ConfigError::Missing { path } && path@ == p
}

/// `e` is `Invalid` at path `p` for the stored `value`, with `reason`.
pub open spec fn invalid_at(e: ConfigError, p: Seq<char>, value: Seq<char>, reason: Seq<char>) -> bool {
    e matches ConfigError::Invalid { path, value: v, reason: r } && path@ == p && v@ == value && r@ == reason
}

/// `r` is the provider's own error `e`.
pub open spec fn passes_error<T>(r: Result<T, ConfigError>, e: ConfigError) -> bool {
    r matches Err(x) && x == e
}

/// Required string.
pub fn read_string(path: &[&str], raw: Result<Option<String>, ConfigError>) -> (r: Result<String, ConfigError>)
    ensures
        match raw {
            Err(e) => passes_error(r, e),
            Ok(None) => r matches Err(e) && missing_at(e, dotted(path@)),
            Ok(Some(s)) => r matches Ok(v) && v@ == s@,
        },
{
    match raw {
        Err(e) => Err(e),
        Ok(None) => Err(ConfigError::Missing { path: path_string(path) }),
        Ok(Some(s)) => Ok(s),
    }
}

/// Optional string: nothing stored yields `None`.
pub fn read_string_opt(path: &[&str], raw: Result<Option<String>, ConfigError>) -> (r: Result<Option<String>, ConfigError>)
    ensures
        match raw {
            Err(e) => passes_error(r, e),
            Ok(None) => r matches Ok(None),
            Ok(Some(s)) => r matches Ok(Some(v)) && v@ == s@,
        },
{
    match raw {
        Err(e) => Err(e),
        Ok(v) => Ok(v),
    }
}

// ---------------------------------------------------------------------------
// Integers.

/// Why a decimal integer could not be read (the kinds of `ParseIntError`).
#[derive(Clone, Copy, Debug, PartialEq, Eq)]
pub enum IntParseFailure {
    /// The text is empty.
    Empty,
    /// A character is not a decimal digit (a lone sign counts as one).
    InvalidDigit,
    /// The value is above `i64::MAX`.
    PosOverflow,
    /// The value is below `i64::MIN`.
    NegOverflow,
}

/// An ASCII decimal digit.
pub open spec fn is_digit(c: char) -> bool {
    '0' <= c && c <= '9'
}

/// Reads the digits left to right, stopping at the first non-digit or the
/// first step whose value leaves the `i64` range.
pub open spec fn scan_digits(d: Seq<char>, negative: bool) -> Result<int, IntParseFailure>
    decreases d.len(),
{
    if d.len() == 0 {
        Ok(0)
    } else {
        match scan_digits(d.drop_last(), negative) {
            Err(e) => Err(e),
            Ok(v) => if !is_digit(d.last()) {
                Err(IntParseFailure::InvalidDigit)
            } else {
                let x = d.last() as int - '0' as int;
                let w = if negative { v * 10 - x } else { v * 10 + x };
                if i64::MIN <= w <= i64::MAX {
                    Ok(w)
                } else if negative {
                    Err(IntParseFailure::NegOverflow)
                } else {
                    Err(IntParseFailure::PosOverflow)
                }
            },
        }
    }
}

/// `str::parse::<i64>`: an optional `+` or `-`, then decimal digits.
pub open spec fn parse_i64_text(s: Seq<char>) -> Result<int, IntParseFailure> {
    if s.len() == 0 {
        Err(IntParseFailure::Empty)
    } else if s.len() == 1 && (s[0] == '+' || s[0] == '-') {
        Err(IntParseFailure::InvalidDigit)
    } else if s[0] == '+' {
        scan_digits(s.drop_first(), false)
    } else if s[0] == '-' {
        scan_digits(s.drop_first(), true)
    } else {
        scan_digits(s, false)
    }
}

/// The message `ParseIntError` displays for each kind.
pub open spec fn int_failure_text(k: IntParseFailure) -> Seq<char> {
    match k {
        IntParseFailure::Empty => "cannot parse integer from empty string"@,
        IntParseFailure::InvalidDigit => "invalid digit found in string"@,
        IntParseFailure::PosOverflow => "number too large to fit in target type"@,
        IntParseFailure::NegOverflow => "number too small to fit in target type"@,
    }
}

fn int_failure_message(k: IntParseFailure) -> (s: String)
    ensures
        s@ == int_failure_text(k),
{
    match k {
        IntParseFailure::Empty => String::from_str("cannot parse integer from empty string"),
        IntParseFailure::InvalidDigit => String::from_str("invalid digit found in string"),
        IntParseFailure::PosOverflow => String::from_str("number too large to fit in target type"),
        IntParseFailure::NegOverflow => String::from_str("number too small to fit in target type"),
    }
}

/// Reads `d[from..]` as digits after a sign.
fn scan_digits_exec(d: &Vec<char>, from: usize, negative: bool) -> (r: Result<i64, IntParseFailure>)
    requires
        from <= d@.len(),
    ensures
        match scan_digits(d@.skip(from as int), negative) {
            Ok(v) => r == Ok::<i64, IntParseFailure>(v as i64),
            Err(e) => r == Err::<i64, IntParseFailure>(e),
        },
{
    let ghost ds = d@.skip(from as int);
    let mut acc: i64 = 0;
    let mut i: usize = from;
    proof {
        assert(ds.take(0) =~= Seq::<char>::empty());
    }
    while i < d.len()
        invariant
            from <= i <= d@.len(),
            ds == d@.skip(from as int),
            scan_digits(ds.take(i - from), negative) == Ok::<int, IntParseFailure>(acc as int),
        decreases d@.len() - i,
    {
        let c = d[i];
        proof {
            assert(ds.take(i - from + 1).drop_last() =~= ds.take(i - from));
            assert(ds.take(i - from + 1).last() == c);
        }
        if !('0' <= c && c <= '9') {
            proof {
                lemma_scan_stops(ds, (i - from) as int, negative);
            }
            return Err(IntParseFailure::InvalidDigit);
        }
        let x = (c as u32 - '0' as u32) as i128;
        let w: i128 = if negative { (acc as i128) * 10 - x } else { (acc as i128) * 10 + x };
        if w < i64::MIN as i128 || w > i64::MAX as i128 {
            proof {
                lemma_scan_stops(ds, (i - from) as int, negative);
            }
            if negative {
                return Err(IntParseFailure::NegOverflow);
            } else {
                return Err(IntParseFailure::PosOverflow);
            }
        }
        acc = w as i64;
        i = i + 1;
    }
    proof {
        assert(ds.take(i - from) =~= ds);
    }
    Ok(acc)
}

/// Once the scan of a prefix fails, the scan of the whole fails the same way.
proof fn lemma_scan_stops(d: Seq<char>, m: int, negative: bool)
    requires
        0 <= m < d.len(),
        scan_digits(d.take(m + 1), negative) is Err,
    ensures
        scan_digits(d, negative) == scan_digits(d.take(m + 1), negative),
    decreases d.len(),
{
    if d.len() > m + 1 {
        assert(d.drop_last().take(m + 1) =~= d.take(m + 1));
        lemma_scan_stops(d.drop_last(), m, negative);
    } else {
        assert(d.take(m + 1) =~= d);
    }
}

/// `str::parse::<i64>` on the characters of `s`.
pub fn parse_i64(s: &str) -> (r: Result<i64, IntParseFailure>)
    ensures
        match parse_i64_text(s@) {
            Ok(v) => r == Ok::<i64, IntParseFailure>(v as i64),
            Err(e) => r == Err::<i64, IntParseFailure>(e),
        },
{
    let d = str_chars(s);
    if d.len() == 0 {
        return Err(IntParseFailure::Empty);
    }
    if d.len() == 1 && (d[0] == '+' || d[0] == '-') {
        return Err(IntParseFailure::InvalidDigit);
    }
    if d[0] == '+' {
        proof {
            assert(d@.skip(1) =~= s@.drop_first());
        }
        scan_digits_exec(&d, 1, false)
    } else if d[0] == '-' {
        proof {
            assert(d@.skip(1) =~= s@.drop_first());
        }
        scan_digits_exec(&d, 1, true)
    } else {
        proof {
            assert(d@.skip(0) =~= s@);
        }
        scan_digits_exec(&d, 0, false)
    }
}

/// Signed 64-bit integer parsed from the stored string.
pub fn read_i64(path: &[&str], raw: Result<Option<String>, ConfigError>) -> (r: Result<i64, ConfigError>)
    ensures
        match raw {
            Err(e) => passes_error(r, e),
            Ok(None) => r matches Err(e) && missing_at(e, dotted(path@)),
            Ok(Some(s)) => match parse_i64_text(s@) {
                Ok(v) => r == Ok::<i64, ConfigError>(v as i64),
                Err(k) => r matches Err(e) && invalid_at(e, dotted(path@), s@, int_failure_text(k)),
            },
        },
{
    match raw {
        Err(e) => Err(e),
        Ok(None) => Err(ConfigError::Missing { path: path_string(path) }),
        Ok(Some(s)) => match parse_i64(s.as_str()) {
            Ok(v) => Ok(v),
            Err(k) => Err(ConfigError::Invalid { path: path_string(path), value: s, reason: int_failure_message(k) }),
        },
    }
}

// ---------------------------------------------------------------------------
// Booleans.

/// `char::to_ascii_lowercase`.
pub open spec fn ascii_lower(c: char) -> char {
    if 'A' <= c && c <= 'Z' {
        ((c as int) + 32) as char
    } else {
        c
    }
}

/// `str::to_ascii_lowercase`.
pub open spec fn lower_text(s: Seq<char>) -> Seq<char> {
    s.map_values(|c: char| ascii_lower(c))
}

/// The boolean spelled by `s`: `true`/`1`/`yes` or `false`/`0`/`no`, ignoring ASCII case.
pub open spec fn parse_bool_text(s: Seq<char>) -> Option<bool> {
    let l = lower_text(s);
    if l == "true"@ || l == "1"@ || l == "yes"@ {
        Some(true)
    } else if l == "false"@ || l == "0"@ || l == "no"@ {
        Some(false)
    } else {
        None
    }
}

fn lower_chars(s: &str) -> (l: Vec<char>)
    ensures
        l@ == lower_text(s@),
{
    let d = str_chars(s);
    let mut l: Vec<char> = Vec::new();
    let mut i: usize = 0;
    while i < d.len()
        invariant
            i <= d@.len(),
            d@ == s@,
            l@ == lower_text(s@).take(i as int),
        decreases d@.len() - i,
    {
        let c = d[i];
        let lc = if 'A' <= c && c <= 'Z' {
            ((c as u8) + 32) as char
        } else {
            c
        };
        proof {
            assert(lc == ascii_lower(c));
            assert(lower_text(s@).take(i as int + 1) =~= lower_text(s@).take(i as int).push(ascii_lower(c)));
        }
        l.push(lc);
        i = i + 1;
    }
    assert(lower_text(s@).take(i as int) =~= lower_text(s@));
    l
}

/// `true`/`1`/`yes` or `false`/`0`/`no`, ignoring ASCII case.
pub fn parse_bool(s: &str) -> (r: Option<bool>)
    ensures
        r == parse_bool_text(s@),
{
    let l = lower_chars(s);
    if chars_equal(&l, "true") || chars_equal(&l, "1") || chars_equal(&l, "yes") {
        Some(true)
    } else if chars_equal(&l, "false") || chars_equal(&l, "0") || chars_equal(&l, "no") {
        Some(false)
    } else {
        None
    }
}

/// Boolean parsed from `"true"` / `"false"` / `"1"` / `"0"` / `"yes"` / `"no"` (ASCII case ignored).
pub fn read_bool(path: &[&str], raw: Result<Option<String>, ConfigError>) -> (r: Result<bool, ConfigError>)
    ensures
        match raw {
            Err(e) => passes_error(r, e),
            Ok(None) => r matches Err(e) && missing_at(e, dotted(path@)),
            Ok(Some(s)) => match parse_bool_text(s@) {
                Some(b) => r == Ok::<bool, ConfigError>(b),
                None => r matches Err(e) && invalid_at(e, dotted(path@), s@, "expected boolean string"@),
            },
        },
{
    match raw {
        Err(e) => Err(e),
        Ok(None) => Err(ConfigError::Missing { path: path_string(path) }),
        Ok(Some(s)) => match parse_bool(s.as_str()) {
            Some(b) => Ok(b),
            None => Err(
                ConfigError::Invalid {
                    path: path_string(path),
                    value: s,
                    reason: String::from_str("expected boolean string"),
                },
            ),
        },
    }
}

// ---------------------------------------------------------------------------
// Lists.

/// The pieces of `s` between non-overlapping occurrences of `d`, leftmost
/// first (`str::split`); an empty `d` splits before and after every character.
#[verifier::opaque]
pub open spec fn split_on(s: Seq<char>, d: Seq<char>) -> Seq<Seq<char>>
    decreases s.len(),
{
    if d.len() == 0 {
        seq![Seq::<char>::empty()] + s.map_values(|c: char| seq![c]) + seq![Seq::<char>::empty()]
    } else if has_sub(s, d) {
        let i = first_occurrence(s, d);
        if 0 <= i && i + d.len() <= s.len() {
            seq![s.take(i)] + split_on(s.skip(i + d.len()), d)
        } else {
            seq![s]
        }
    } else {
        seq![s]
    }
}

/// The pieces trimmed, empty ones left out.
#[verifier::opaque]
pub open spec fn kept_items(ps: Seq<Seq<char>>) -> Seq<Seq<char>>
    decreases ps.len(),
{
    if ps.len() == 0 {
        Seq::empty()
    } else {
        let rest = kept_items(ps.drop_last());
        let t = trim(ps.last());
        if t.len() > 0 {
            rest.push(t)
        } else {
            rest
        }
    }
}

/// The items of a list value: split at the delimiter, trimmed, empty items dropped.
pub open spec fn list_items(s: Seq<char>, d: Seq<char>) -> Seq<Seq<char>> {
    kept_items(split_on(s, d))
}

proof fn lemma_kept_concat(a: Seq<Seq<char>>, b: Seq<Seq<char>>)
    ensures
        kept_items(a + b) == kept_items(a) + kept_items(b),
    decreases b.len(),
{
    reveal(kept_items);
    if b.len() == 0 {
        assert(a + b =~= a);
    } else {
        assert((a + b).drop_last() =~= a + b.drop_last());
        lemma_kept_concat(a, b.drop_last());
    }
}

proof fn lemma_trim_single(c: char)
    ensures
        trim(seq![c]) == (if is_ws(c) { Seq::<char>::empty() } else { seq![c] }),
        trim(Seq::<char>::empty()) == Seq::<char>::empty(),
{
    let s = seq![c];
    if is_ws(c) {
        assert(crate::text::lead_ws(s.drop_first()) == 0);
        assert(trim_start(s) =~= Seq::<char>::empty());
    } else {
        assert(trim_start(s) =~= s);
        assert(s.drop_last() =~= Seq::<char>::empty());
        assert(trim_end(s) =~= s);
    }
    assert(trim_start(Seq::<char>::empty()) =~= Seq::<char>::empty());
    assert(trim_end(Seq::<char>::empty()) =~= Seq::<char>::empty());
}

/// Converts each character list to a `String`, appending to `out`.
fn push_item(out: &mut Vec<String>, item: &Vec<char>)
    ensures
        final(out).deep_view() == old(out).deep_view().push(item@),
{
    let ghost before = old(out).deep_view();
    let s = chars_to_string(item);
    out.push(s);
    proof {
        assert forall|k: int| 0 <= k < out@.len() implies #[trigger] out.deep_view()[k] == before.push(item@)[k] by {
            assert(out.deep_view()[k] == out@[k]@);
            if k < before.len() {
                assert(before[k] == old(out)@[k]@);
            }
        }
        assert(out.deep_view() =~= before.push(item@));
    }
}

/// The items of one piece.
proof fn lemma_kept_single(p: Seq<char>)
    ensures
        kept_items(seq![p]) == (if trim(p).len() > 0 { seq![trim(p)] } else { Seq::<Seq<char>>::empty() }),
{
    reveal(kept_items);
    assert(seq![p].drop_last() =~= Seq::<Seq<char>>::empty());
    assert(seq![p].last() == p);
    assert(kept_items(Seq::<Seq<char>>::empty()) == Seq::<Seq<char>>::empty());
    if trim(p).len() > 0 {
        assert(Seq::<Seq<char>>::empty().push(trim(p)) =~= seq![trim(p)]);
    }
}

/// Appending one piece.
proof fn lemma_kept_push(ps: Seq<Seq<char>>, p: Seq<char>)
    ensures
        kept_items(ps.push(p)) == (if trim(p).len() > 0 { kept_items(ps).push(trim(p)) } else { kept_items(ps) }),
{
    reveal(kept_items);
    assert(ps.push(p).drop_last() =~= ps);
}

/// Occurrences in a suffix are occurrences in the whole, shifted.
proof fn lemma_occurs_in_suffix(h: Seq<char>, d: Seq<char>, start: int, q: int)
    requires
        0 <= start <= h.len(),
    ensures
        occurs_at(h.skip(start), d, q) <==> (q >= 0 && occurs_at(h, d, start + q)),
{
    let rest = h.skip(start);
    if 0 <= q && q + d.len() <= rest.len() {
        assert(rest.subrange(q, q + d.len()) =~= h.subrange(start + q, start + q + d.len()));
    }
}

/// Splitting the text from `start`, when the next occurrence is at `i`.
proof fn lemma_split_step(h: Seq<char>, d: Seq<char>, start: int, i: int)
    requires
        d.len() > 0,
        0 <= start <= i,
        occurs_at(h, d, i),
        forall|q: int| start <= q < i ==> !#[trigger] occurs_at(h, d, q),
    ensures
        split_on(h.skip(start), d) == seq![h.subrange(start, i)] + split_on(h.skip(i + d.len()), d),
{
    let rest = h.skip(start);
    let k = i - start;
    lemma_occurs_in_suffix(h, d, start, k);
    assert forall|j: int| 0 <= j < k implies !#[trigger] occurs_at(rest, d, j) by {
        lemma_occurs_in_suffix(h, d, start, j);
    }
    crate::text::lemma_first_occurrence_is(rest, d, k);
    assert(rest.take(k) =~= h.subrange(start, i));
    assert(rest.skip(k + d.len()) =~= h.skip(i + d.len()));
    assert(split_on(rest, d) == seq![rest.take(k)] + split_on(rest.skip(k + d.len()), d)) by {
        reveal(split_on);
    }
}

/// Splitting the text from `start` when no occurrence follows.
proof fn lemma_split_last(h: Seq<char>, d: Seq<char>, start: int)
    requires
        d.len() > 0,
        0 <= start <= h.len(),
        forall|q: int| start <= q < h.len() ==> !#[trigger] occurs_at(h, d, q),
    ensures
        split_on(h.skip(start), d) == seq![h.skip(start)],
{
    reveal(split_on);
    let rest = h.skip(start);
    assert forall|q: int| !occurs_at(rest, d, q) by {
        lemma_occurs_in_suffix(h, d, start, q);
    }
}

/// The items when the delimiter is empty: each non-whitespace character.
fn split_each_char(h: &Vec<char>) -> (out: Vec<String>)
    ensures
        out.deep_view() == list_items(h@, Seq::<char>::empty()),
{
    let ghost singles = h@.map_values(|c: char| seq![c]);
    let ghost empty_piece = Seq::<char>::empty();
    let mut out: Vec<String> = Vec::new();
    let mut i: usize = 0;
    proof {
        lemma_kept_single(empty_piece);
        lemma_trim_single(' ');
        assert(seq![empty_piece] + singles.take(0) =~= seq![empty_piece]);
    }
    while i < h.len()
        invariant
            i <= h@.len(),
            singles == h@.map_values(|c: char| seq![c]),
            out.deep_view() == kept_items(seq![empty_piece] + singles.take(i as int)),
        decreases h@.len() - i,
    {
        let c = h[i];
        proof {
            lemma_trim_single(c);
            let pre = seq![empty_piece] + singles.take(i as int);
            assert(seq![empty_piece] + singles.take(i as int + 1) =~= pre.push(seq![c]));
            lemma_kept_push(pre, seq![c]);
        }
        if !is_ws_char(c) {
            let mut item: Vec<char> = Vec::new();
            item.push(c);
            proof {
                assert(item@ =~= seq![c]);
            }
            push_item(&mut out, &item);
        }
        i = i + 1;
    }
    proof {
        lemma_trim_single(' ');
        lemma_kept_single(empty_piece);
        assert(singles.take(i as int) =~= singles);
        let pre = seq![empty_piece] + singles;
        lemma_kept_concat(pre, seq![empty_piece]);
        reveal(split_on);
        assert(split_on(h@, Seq::<char>::empty()) == pre + seq![empty_piece]);
        assert(out.deep_view() =~= list_items(h@, Seq::<char>::empty()));
    }
    out
}

/// The items of the list value `s` with delimiter `delim`.
pub fn split_list(s: &str, delim: &str) -> (items: Vec<String>)
    ensures
        items.deep_view() == list_items(s@, delim@),
{
    let h = str_chars(s);
    let d = str_chars(delim);
    if d.len() == 0 {
        proof {
            assert(delim@ =~= Seq::<char>::empty());
        }
        return split_each_char(&h);
    }
    let mut out: Vec<String> = Vec::new();
    let mut start: usize = 0;
    let mut i: usize = 0;
    proof {
        assert(h@.skip(0) =~= h@);
    }
    while i < h.len()
        invariant
            start <= i <= h@.len(),
            h@ == s@,
            d@ == delim@,
            d@.len() > 0,
            out.deep_view() + kept_items(split_on(h@.skip(start as int), d@)) == list_items(s@, delim@),
            forall|q: int| start <= q < i ==> !#[trigger] occurs_at(h@, d@, q),
        decreases h@.len() - i,
    {
        if matches_at(&h, &d, i) {
            let piece = slice_chars(&h, start, i);
            let t = trim_chars(&piece);
            proof {
                lemma_split_step(h@, d@, start as int, i as int);
                lemma_kept_concat(seq![piece@], split_on(h@.skip(i + d@.len()), d@));
                lemma_kept_single(piece@);
            }
            let ghost before = out.deep_view();
            if t.len() > 0 {
                push_item(&mut out, &t);
            }
            proof {
                let next = kept_items(split_on(h@.skip(i + d@.len()), d@));
                if t@.len() > 0 {
                    assert(before + (seq![t@] + next) =~= before.push(t@) + next);
                } else {
                    assert(before + (Seq::<Seq<char>>::empty() + next) =~= before + next);
                }
            }
            i = i + d.len();
            start = i;
        } else {
            i = i + 1;
        }
    }
    let piece = slice_chars(&h, start, h.len());
    let t = trim_chars(&piece);
    proof {
        lemma_split_last(h@, d@, start as int);
        assert(h@.skip(start as int) =~= piece@);
        lemma_kept_single(piece@);
    }
    let ghost before = out.deep_view();
    if t.len() > 0 {
        push_item(&mut out, &t);
    }
    proof {
        if t@.len() > 0 {
            assert(before + seq![t@] =~= before.push(t@));
        } else {
            assert(before + Seq::<Seq<char>>::empty() =~= before);
        }
    }
    out
}

/// Sequence of strings: the stored value split at `delim`, each item
/// trimmed, empty items dropped.
pub fn read_string_list(path: &[&str], raw: Result<Option<String>, ConfigError>, delim: &str) -> (r: Result<Vec<String>, ConfigError>)
    ensures
        match raw {
            Err(e) => passes_error(r, e),
            Ok(None) => r matches Err(e) && missing_at(e, dotted(path@)),
            Ok(Some(s)) => r matches Ok(v) && v.deep_view() == list_items(s@, delim@),
        },
{
    match raw {
        Err(e) => Err(e),
        Ok(None) => Err(ConfigError::Missing { path: path_string(path) }),
        Ok(Some(s)) => Ok(split_list(s.as_str(), delim)),
    }
}

// ---------------------------------------------------------------------------
// Nested paths and defaults.

/// The dotted form of `namespace` followed by `leaf`.
pub open spec fn nested_dotted(namespace: &str, leaf: Seq<&str>) -> Seq<char> {
    joined(seq![namespace@] + leaf.map_values(|s: &str| s@), "."@)
}

fn nested_path_string(namespace: &str, leaf: &[&str]) -> (s: String)
    ensures
        s@ == nested_dotted(namespace, leaf@),
{
    let p = nested_path(namespace, leaf);
    crate::text::join_strings(&p, ".")
}

/// [`nested_path`] then [`read_string`].
pub fn read_nested_string(namespace: &str, leaf: &[&str], raw: Result<Option<String>, ConfigError>) -> (r: Result<String, ConfigError>)
    ensures
        match raw {
            Err(e) => passes_error(r, e),
            Ok(None) => r matches Err(e) && missing_at(e, nested_dotted(namespace, leaf@)),
            Ok(Some(s)) => r matches Ok(v) && v@ == s@,
        },
{
    match raw {
        Err(e) => Err(e),
        Ok(None) => Err(ConfigError::Missing { path: nested_path_string(namespace, leaf) }),
        Ok(Some(s)) => Ok(s),
    }
}

/// [`nested_path`] then [`read_string_list`].
pub fn read_nested_string_list(
    namespace: &str,
    leaf: &[&str],
    raw: Result<Option<String>, ConfigError>,
    delim: &str,
) -> (r: Result<Vec<String>, ConfigError>)
    ensures
        match raw {
            Err(e) => passes_error(r, e),
            Ok(None) => r matches Err(e) && missing_at(e, nested_dotted(namespace, leaf@)),
            Ok(Some(s)) => r matches Ok(v) && v.deep_view() == list_items(s@, delim@),
        },
{
    match raw {
        Err(e) => Err(e),
        Ok(None) => Err(ConfigError::Missing { path: nested_path_string(namespace, leaf) }),
        Ok(Some(s)) => Ok(split_list(s.as_str(), delim)),
    }
}

/// `Config.withDefault`: only a `Missing` error is replaced by the default.
pub trait WithConfigDefault<A>: Sized {
    /// `default` in place of a `Missing` error; anything else unchanged.
    fn with_default(self, default: A) -> Self;
}

impl<A> WithConfigDefault<A> for Result<A, ConfigError> {
    fn with_default(self, default: A) -> (r: Self)
        ensures
            (self matches Err(ConfigError::Missing { .. })) ==> r == Ok::<A, ConfigError>(default),
            !(self matches Err(ConfigError::Missing { .. })) ==> r == self,
    {
        match self {
            Err(ConfigError::Missing { .. }) => Ok(default),
            other => other,
        }
    }
}

// ---------------------------------------------------------------------------
// Laws.

/// A trimmed text that is not empty neither starts nor ends with whitespace.
proof fn lemma_trim_edges(s: Seq<char>)
    ensures
        trim(s).len() > 0 ==> !is_ws(trim(s)[0]) && !is_ws(trim(s).last()),
{
    let t = trim_start(s);
    crate::text::lemma_lead_ws_bound(s);
    crate::text::lemma_trail_ws_bound(t);
    if trim(s).len() > 0 {
        assert(t[0] == s[crate::text::lead_ws(s) as int]);
        assert(trim(s)[0] == t[0]);
        assert(trim(s).last() == t[t.len() - crate::text::trail_ws(t) - 1]);
    }
}

/// Every item of a list value is non-empty and has no whitespace at either end.
pub proof fn law_list_items_are_trimmed(s: Seq<char>, d: Seq<char>)
    ensures
        forall|i: int| 0 <= i < list_items(s, d).len() ==> {
            &&& (#[trigger] list_items(s, d)[i]).len() > 0
            &&& !is_ws(list_items(s, d)[i][0])
            &&& !is_ws(list_items(s, d)[i].last())
        },
{
    lemma_kept_items_trimmed(split_on(s, d));
}

proof fn lemma_kept_items_trimmed(ps: Seq<Seq<char>>)
    ensures
        forall|i: int| 0 <= i < kept_items(ps).len() ==> {
            &&& (#[trigger] kept_items(ps)[i]).len() > 0
            &&& !is_ws(kept_items(ps)[i][0])
            &&& !is_ws(kept_items(ps)[i].last())
        },
    decreases ps.len(),
{
    if ps.len() > 0 {
        lemma_kept_items_trimmed(ps.drop_last());
        lemma_trim_edges(ps.last());
        let rest = kept_items(ps.drop_last());
        let t = trim(ps.last());
        assert(ps.drop_last().push(ps.last()) =~= ps);
        lemma_kept_push(ps.drop_last(), ps.last());
        assert forall|i: int| 0 <= i < kept_items(ps).len() implies {
            &&& (#[trigger] kept_items(ps)[i]).len() > 0
            &&& !is_ws(kept_items(ps)[i][0])
            &&& !is_ws(kept_items(ps)[i].last())
        } by {
            if i < rest.len() {
                assert(kept_items(ps)[i] == rest[i]);
            } else {
                assert(kept_items(ps)[i] == t);
            }
        }
    } else {
        reveal(kept_items);
    }
}

/// Lowercasing twice is lowercasing once.
proof fn lemma_lower_idempotent(s: Seq<char>)
    ensures
        lower_text(lower_text(s)) == lower_text(s),
{
    assert(lower_text(lower_text(s)) =~= lower_text(s));
}

/// Reading a boolean ignores ASCII case: a text reads as its lowercase does.
/// Whatever its casing, `true`, `1` or `yes` reads true and `false`, `0` or
/// `no` reads false; every other text is no boolean.
pub proof fn law_bool_reading_ignores_ascii_case(s: Seq<char>)
    ensures
        parse_bool_text(s) == parse_bool_text(lower_text(s)),
        (lower_text(s) == "true"@ || lower_text(s) == "1"@ || lower_text(s) == "yes"@) ==> parse_bool_text(s) == Some(
            true,
        ),
        (lower_text(s) == "false"@ || lower_text(s) == "0"@ || lower_text(s) == "no"@) ==> parse_bool_text(s) == Some(
            false,
        ),
        parse_bool_text(s) is None ==> !(lower_text(s) == "true"@ || lower_text(s) == "1"@ || lower_text(s) == "yes"@
            || lower_text(s) == "false"@ || lower_text(s) == "0"@ || lower_text(s) == "no"@),
{
    lemma_lower_idempotent(s);
    reveal_strlit("true");
    reveal_strlit("1");
    reveal_strlit("yes");
    reveal_strlit("false");
    reveal_strlit("0");
    reveal_strlit("no");
    let l = lower_text(s);
    assert("true"@.len() == 4 && "yes"@.len() == 3 && "1"@.len() == 1);
    assert("false"@.len() == 5 && "no"@.len() == 2 && "0"@.len() == 1);
    assert("0"@[0] != "1"@[0]);
    if l == "0"@ {
        assert(l != "1"@);
    }
}

} // verus!
