//! W3C `traceparent` header parsing and rendering.
//!
//! A header has the shape `00-<32 hex>-<16 hex>-<2 hex>`: version, trace id,
//! span id and trace flags. Parsing works on the UTF-8 bytes of the header;
//! rendering always produces lowercase hex.
use vstd::prelude::*;

use crate::text::push_char;
use vstd::string::StringSliceAdditionalSpecFns;
use vstd::utf8::encode_utf8;

verus! {

/// The ASCII code of `-`, the field separator.
pub open spec fn dash() -> u8 {
    45u8
}

/// Splits `b` at every dash, like `str::split('-')`: `n` dashes give `n + 1`
/// fields, and the empty input gives one empty field.
pub open spec fn split_fields(b: Seq<u8>) -> Seq<Seq<u8>>
    decreases b.len(),
{
    if b.len() == 0 {
        seq![Seq::<u8>::empty()]
    } else {
        let prev = split_fields(b.drop_last());
        if b.last() == dash() {
            prev.push(Seq::<u8>::empty())
        } else {
            prev.update(prev.len() - 1, prev.last().push(b.last()))
        }
    }
}

/// Value of one ASCII hex digit byte, accepting both cases.
pub open spec fn hex_value(b: u8) -> Option<u8> {
    if 48 <= b && b <= 57 {
        Some((b - 48) as u8)
    } else if 97 <= b && b <= 102 {
        Some((b - 87) as u8)
    } else if 65 <= b && b <= 70 {
        Some((b - 55) as u8)
    } else {
        None
    }
}

/// Every byte of `f` is a hex digit.
pub open spec fn all_hex(f: Seq<u8>) -> bool {
    forall|i: int| 0 <= i < f.len() ==> (#[trigger] hex_value(f[i])) is Some
}

/// The byte encoded by the digit pair at positions `2 * i` and `2 * i + 1`.
pub open spec fn hex_pair(f: Seq<u8>, i: int) -> u8 {
    (hex_value(f[2 * i]).unwrap() * 16 + hex_value(f[2 * i + 1]).unwrap()) as u8
}

/// Decodes a field that must hold exactly `n` bytes written as `2 * n` hex digits.
pub open spec fn decode_hex(f: Seq<u8>, n: nat) -> Result<Seq<u8>, TraceParentParseError> {
    if f.len() != 2 * n {
        Err(TraceParentParseError::InvalidLength)
    } else if !all_hex(f) {
        Err(TraceParentParseError::InvalidHex)
    } else {
        Ok(Seq::new(n, |i: int| hex_pair(f, i)))
    }
}

/// Every byte of `b` is zero.
pub open spec fn all_zero(b: Seq<u8>) -> bool {
    forall|i: int| 0 <= i < b.len() ==> b[i] == 0
}

/// What parsing the header bytes `b` yields: the trace id bytes, span id bytes
/// and flags, or the first error found. Checks run in this order: field count,
/// version, trace id, span id, all-zero ids, flags.
pub open spec fn parse_traceparent(b: Seq<u8>) -> Result<
    (Seq<u8>, Seq<u8>, u8),
    TraceParentParseError,
> {
    let f = split_fields(b);
    if f.len() != 4 {
        Err(TraceParentParseError::InvalidFieldCount)
    } else if f[0] != seq![48u8, 48u8] {
        Err(TraceParentParseError::UnsupportedVersion)
    } else {
        match decode_hex(f[1], 16) {
            Err(e) => Err(e),
            Ok(trace) => match decode_hex(f[2], 8) {
                Err(e) => Err(e),
                Ok(span) => if all_zero(trace) || all_zero(span) {
                    Err(TraceParentParseError::AllZeroId)
                } else {
                    match decode_hex(f[3], 1) {
                        Err(e) => Err(e),
                        Ok(flags) => Ok((trace, span, flags[0])),
                    }
                },
            },
        }
    }
}

/// ASCII code of the lowercase hex digit for `n < 16`.
pub open spec fn hex_digit(n: u8) -> u8 {
    if n < 10 {
        (48 + n) as u8
    } else {
        (87 + n) as u8
    }
}

/// Lowercase hex rendering of `b`, two digits per byte, as ASCII codes.
pub open spec fn hex_lower(b: Seq<u8>) -> Seq<u8>
    decreases b.len(),
{
    if b.len() == 0 {
        Seq::empty()
    } else {
        hex_lower(b.drop_last()) + seq![hex_digit(b.last() / 16), hex_digit(b.last() % 16)]
    }
}

/// The characters with the given ASCII codes.
pub open spec fn ascii_chars(b: Seq<u8>) -> Seq<char> {
    b.map_values(|x: u8| x as char)
}

/// ASCII codes of the header `00-<trace>-<span>-<flags>`.
pub open spec fn render_traceparent(trace: Seq<u8>, span: Seq<u8>, flags: u8) -> Seq<u8> {
    seq![48u8, 48u8, dash()] + hex_lower(trace) + seq![dash()] + hex_lower(span) + seq![dash()]
        + hex_lower(seq![flags])
}

/// OpenTelemetry-shaped trace identifier: 16 opaque bytes rendered as 32 lowercase hex chars.
#[derive(Clone, Copy, Debug, PartialEq, Eq, Hash)]
pub struct TraceId([u8; 16]);

impl View for TraceId {
    type V = Seq<u8>;

    closed spec fn view(&self) -> Seq<u8> {
        self.0@
    }
}

impl TraceId {
    /// Builds a trace id from its OTel byte representation.
    pub fn from_bytes(bytes: [u8; 16]) -> (r: Self)
        ensures
            r@ == bytes@,
    {
        TraceId(bytes)
    }

    /// Returns the OTel byte representation.
    pub fn to_bytes(self) -> (r: [u8; 16])
        ensures
            r@ == self@,
    {
        self.0
    }

    /// 32 lowercase hex characters.
    pub fn to_string(&self) -> (s: String)
        ensures
            s@ == ascii_chars(hex_lower(self@)),
    {
        let mut s = String::new();
        write_hex(&mut s, &self.0);
        s
    }
}

/// OpenTelemetry-shaped span identifier: 8 opaque bytes rendered as 16 lowercase hex chars.
#[derive(Clone, Copy, Debug, PartialEq, Eq, Hash)]
pub struct SpanId([u8; 8]);

impl View for SpanId {
    type V = Seq<u8>;

    closed spec fn view(&self) -> Seq<u8> {
        self.0@
    }
}

impl SpanId {
    /// Builds a span id from its OTel byte representation.
    pub fn from_bytes(bytes: [u8; 8]) -> (r: Self)
        ensures
            r@ == bytes@,
    {
        SpanId(bytes)
    }

    /// Returns the OTel byte representation.
    pub fn to_bytes(self) -> (r: [u8; 8])
        ensures
            r@ == self@,
    {
        self.0
    }

    /// 16 lowercase hex characters.
    pub fn to_string(&self) -> (s: String)
        ensures
            s@ == ascii_chars(hex_lower(self@)),
    {
        let mut s = String::new();
        write_hex(&mut s, &self.0);
        s
    }

    /// Whether both ids hold the same bytes.
    pub fn is_same(&self, other: &SpanId) -> (b: bool)
        ensures
            b == (self@ == other@),
    {
        let mut i: usize = 0;
        while i < 8
            invariant
                i <= 8,
                forall|q: int| 0 <= q < i ==> self.0@[q] == other.0@[q],
            decreases 8 - i,
        {
            if self.0[i] != other.0[i] {
                return false;
            }
            i = i + 1;
        }
        proof {
            assert(self.0@ =~= other.0@);
        }
        true
    }
}

/// W3C/OTel trace flags. Bit `0x01` is the sampled flag.
#[derive(Clone, Copy, Debug, Default, PartialEq, Eq, Hash)]
pub struct TraceFlags {
    bits: u8,
}

impl TraceFlags {
    /// No trace flags set.
    pub fn unsampled() -> (r: Self)
        ensures
            r.spec_bits() == 0,
    {
        TraceFlags { bits: 0 }
    }

    /// Only the sampled trace flag set.
    pub fn sampled_only() -> (r: Self)
        ensures
            r.spec_bits() == 1,
    {
        TraceFlags { bits: 1 }
    }

    /// Raw bits, in specifications.
    pub closed spec fn spec_bits(self) -> u8 {
        self.bits
    }

    /// Builds flags from raw W3C/OTel bits.
    pub fn from_bits(bits: u8) -> (r: Self)
        ensures
            r.spec_bits() == bits,
    {
        TraceFlags { bits }
    }

    /// Returns raw W3C/OTel bits.
    pub fn bits(self) -> (r: u8)
        ensures
            r == self.spec_bits(),
    {
        self.bits
    }

    /// Returns true when the sampled flag (the lowest bit) is set.
    pub fn sampled(self) -> (r: bool)
        ensures
            r == (self.spec_bits() % 2 == 1),
    {
        let b = self.bits;
        assert((b & 1u8 == 1u8) == (b % 2 == 1)) by (bit_vector);
        b & 1u8 == 1u8
    }

    /// Two lowercase hex characters.
    pub fn to_string(&self) -> (s: String)
        ensures
            s@ == ascii_chars(hex_lower(seq![self.spec_bits()])),
    {
        let mut s = String::new();
        let one = [self.bits];
        write_hex(&mut s, &one);
        assert(one@ =~= seq![self.spec_bits()]);
        s
    }
}

/// Errors returned by W3C `traceparent` parsing.
#[derive(Clone, Copy, Debug, PartialEq, Eq)]
pub enum TraceParentParseError {
    /// Header did not have the four required dash-separated fields.
    InvalidFieldCount,
    /// Only version `00` is supported.
    UnsupportedVersion,
    /// A hex field had the wrong encoded length.
    InvalidLength,
    /// A hex field contained a non-hex character.
    InvalidHex,
    /// W3C forbids all-zero trace ids and span ids.
    AllZeroId,
}

/// Trace context attached to every recorded span.
#[derive(Clone, Copy, Debug, PartialEq, Eq, Hash)]
pub struct SpanContext {
    /// Trace id shared by all spans in one distributed trace.
    pub trace_id: TraceId,
    /// Span id unique within a trace.
    pub span_id: SpanId,
    /// W3C/OTel flags for the trace.
    pub trace_flags: TraceFlags,
}

impl View for SpanContext {
    type V = (Seq<u8>, Seq<u8>, u8);

    open spec fn view(&self) -> (Seq<u8>, Seq<u8>, u8) {
        (self.trace_id@, self.span_id@, self.trace_flags.spec_bits())
    }
}

impl SpanContext {
    /// Renders this context as a W3C `traceparent` header value.
    pub fn to_traceparent(self) -> (s: String)
        ensures
            s@ == ascii_chars(render_traceparent(self.trace_id@, self.span_id@, self.trace_flags.spec_bits())),
            s@.len() == 55,
    {
        let mut s = String::new();
        push_char(&mut s, '0');
        push_char(&mut s, '0');
        push_char(&mut s, '-');
        write_hex(&mut s, &self.trace_id.0);
        push_char(&mut s, '-');
        write_hex(&mut s, &self.span_id.0);
        push_char(&mut s, '-');
        let one = [self.trace_flags.bits];
        write_hex(&mut s, &one);
        proof {
            let t = hex_lower(self.trace_id@);
            let sp = hex_lower(self.span_id@);
            let fl = hex_lower(seq![self.trace_flags.spec_bits()]);
            assert(one@ =~= seq![self.trace_flags.spec_bits()]);
            let r = render_traceparent(self.trace_id@, self.span_id@, self.trace_flags.spec_bits());
            assert(ascii_chars(r) =~= seq!['0', '0', '-'] + ascii_chars(t) + seq!['-']
                + ascii_chars(sp) + seq!['-'] + ascii_chars(fl));
            lemma_id_lengths(self.trace_id, self.span_id);
            lemma_hex_lower(self.trace_id@);
            lemma_hex_lower(self.span_id@);
            lemma_hex_lower(seq![self.trace_flags.spec_bits()]);
        }
        s
    }

    /// Parses a W3C `traceparent` header value into a span context.
    pub fn from_traceparent(value: &str) -> (r: Result<Self, TraceParentParseError>)
        ensures
            match r {
                Ok(c) => parse_traceparent(value.spec_bytes()) == Ok::<_, TraceParentParseError>(c@),
                Err(e) => parse_traceparent(value.spec_bytes()) == Err::<(Seq<u8>, Seq<u8>, u8), _>(e),
            },
    {
        let bytes = value.as_bytes();
        let fields = split_dash(bytes);
        if fields.len() != 4 {
            return Err(TraceParentParseError::InvalidFieldCount);
        }
        let version = &fields[0];
        if !(version.len() == 2 && version[0] == 48u8 && version[1] == 48u8) {
            proof {
                if fields[0]@ == seq![48u8, 48u8] {
                    assert(version@[0] == 48u8);
                }
            }
            return Err(TraceParentParseError::UnsupportedVersion);
        }
        assert(fields[0]@ =~= seq![48u8, 48u8]);
        let trace = match decode_hex_field(&fields[1], 16) {
            Ok(t) => t,
            Err(e) => return Err(e),
        };
        let span = match decode_hex_field(&fields[2], 8) {
            Ok(t) => t,
            Err(e) => return Err(e),
        };
        if is_all_zero(&trace) || is_all_zero(&span) {
            return Err(TraceParentParseError::AllZeroId);
        }
        let flags = match decode_hex_field(&fields[3], 1) {
            Ok(t) => t,
            Err(e) => return Err(e),
        };
        let trace_id = TraceId(to_array16(&trace));
        let span_id = SpanId(to_array8(&span));
        let ctx = SpanContext { trace_id, span_id, trace_flags: TraceFlags { bits: flags[0] } };
        proof {
            assert(ctx@.0 =~= trace@);
            assert(ctx@.1 =~= span@);
        }
        Ok(ctx)
    }
}

/// Splitting a dash-free sequence gives just that sequence.
proof fn lemma_split_append_plain(a: Seq<u8>, b: Seq<u8>)
    requires
        forall|i: int| 0 <= i < b.len() ==> b[i] != dash(),
    ensures
        split_fields(a).len() >= 1,
        split_fields(a + b) == split_fields(a).update(
            split_fields(a).len() - 1,
            split_fields(a).last() + b,
        ),
    decreases b.len(),
{
    lemma_split_nonempty(a);
    if b.len() == 0 {
        assert(a + b =~= a);
        assert(split_fields(a).last() + b =~= split_fields(a).last());
        assert(split_fields(a).update(split_fields(a).len() - 1, split_fields(a).last())
            =~= split_fields(a));
    } else {
        let b0 = b.drop_last();
        lemma_split_append_plain(a, b0);
        let ab = a + b;
        assert(ab.drop_last() =~= a + b0);
        assert(ab.last() == b.last());
        assert(b[b.len() - 1] != dash());
        assert(ab.len() > 0);
        let prev = split_fields(ab.drop_last());
        assert(split_fields(ab) == prev.update(prev.len() - 1, prev.last().push(ab.last())));
        assert(prev.len() == split_fields(a).len());
        assert(prev.last() == split_fields(a).last() + b0);
        assert(prev.last().push(ab.last()) =~= split_fields(a).last() + b);
        assert(split_fields(a).last() + b0 + seq![b.last()] =~= split_fields(a).last() + b);
        assert(split_fields(a + b) =~= split_fields(a).update(
            split_fields(a).len() - 1,
            split_fields(a).last() + b,
        ));
    }
}

proof fn lemma_split_nonempty(a: Seq<u8>)
    ensures
        split_fields(a).len() >= 1,
    decreases a.len(),
{
    if a.len() > 0 {
        lemma_split_nonempty(a.drop_last());
    }
}

/// A dash followed by a dash-free field adds that field.
proof fn lemma_split_field(a: Seq<u8>, b: Seq<u8>)
    requires
        forall|i: int| 0 <= i < b.len() ==> b[i] != dash(),
    ensures
        split_fields(a + seq![dash()] + b) == split_fields(a).push(b),
{
    let ad = a + seq![dash()];
    assert(ad.drop_last() =~= a);
    lemma_split_nonempty(a);
    lemma_split_append_plain(ad, b);
    assert(split_fields(ad) == split_fields(a).push(Seq::<u8>::empty()));
    assert(Seq::<u8>::empty() + b =~= b);
    assert(split_fields(ad + b) =~= split_fields(a).push(b));
}

proof fn lemma_hex_digit(n: u8)
    requires
        n < 16,
    ensures
        hex_value(hex_digit(n)) == Some(n),
        hex_digit(n) != dash(),
        hex_digit(n) < 128,
{
}

/// Shape of `hex_lower`: two digits per byte, in order.
proof fn lemma_hex_lower(b: Seq<u8>)
    ensures
        hex_lower(b).len() == 2 * b.len(),
        forall|i: int| 0 <= i < b.len() ==> #[trigger] hex_lower(b)[2 * i] == hex_digit(b[i] / 16)
            && hex_lower(b)[2 * i + 1] == hex_digit(b[i] % 16),
    decreases b.len(),
{
    if b.len() > 0 {
        let b0 = b.drop_last();
        lemma_hex_lower(b0);
        assert(hex_lower(b) == hex_lower(b0) + seq![hex_digit(b.last() / 16), hex_digit(b.last() % 16)]);
        assert forall|i: int| 0 <= i < b.len() implies #[trigger] hex_lower(b)[2 * i] == hex_digit(b[i] / 16)
            && hex_lower(b)[2 * i + 1] == hex_digit(b[i] % 16) by {
            if i < b0.len() {
                assert(b0[i] == b[i]);
                assert(hex_lower(b)[2 * i] == hex_lower(b0)[2 * i]);
                assert(hex_lower(b)[2 * i + 1] == hex_lower(b0)[2 * i + 1]);
            } else {
                assert(i == b0.len());
                assert(b[i] == b.last());
            }
        }
    }
}

/// Every character of a hex rendering is a hex digit (so none is a dash) and ASCII.
proof fn lemma_hex_lower_digits(b: Seq<u8>)
    ensures
        forall|j: int|
            #![trigger hex_lower(b)[j]]
            0 <= j < hex_lower(b).len() ==> hex_value(hex_lower(b)[j]) is Some && hex_lower(b)[j]
                != dash() && hex_lower(b)[j] < 128,
{
    lemma_hex_lower(b);
    assert forall|j: int| 0 <= j < hex_lower(b).len() implies hex_value(#[trigger] hex_lower(b)[j]) is Some
        && hex_lower(b)[j] != dash() && hex_lower(b)[j] < 128 by {
        let i = j / 2;
        assert(0 <= i < b.len());
        assert(hex_lower(b)[2 * i] == hex_digit(b[i] / 16));
        lemma_hex_digit(b[i] / 16);
        lemma_hex_digit(b[i] % 16);
        if j % 2 == 0 {
            assert(j == 2 * i);
        } else {
            assert(j == 2 * i + 1);
        }
    }
}

/// Decoding a lowercase rendering gives the bytes back.
proof fn lemma_decode_hex_lower(b: Seq<u8>)
    ensures
        decode_hex(hex_lower(b), b.len()) == Ok::<Seq<u8>, TraceParentParseError>(b),
{
    lemma_hex_lower(b);
    lemma_hex_lower_digits(b);
    let h = hex_lower(b);
    assert(all_hex(h));
    assert forall|i: int| 0 <= i < b.len() implies #[trigger] hex_pair(h, i) == b[i] by {
        assert(h[2 * i] == hex_digit(b[i] / 16));
        lemma_hex_digit(b[i] / 16);
        lemma_hex_digit(b[i] % 16);
    }
    assert(Seq::new(b.len(), |i: int| hex_pair(h, i)) =~= b);
}

/// Every byte is an ASCII code.
pub open spec fn ascii_bytes(r: Seq<u8>) -> bool {
    forall|i: int| 0 <= i < r.len() ==> r[i] < 128
}

proof fn lemma_concat_ascii(a: Seq<u8>, b: Seq<u8>)
    requires
        ascii_bytes(a),
        ascii_bytes(b),
    ensures
        ascii_bytes(a + b),
{
    assert forall|i: int| 0 <= i < (a + b).len() implies (a + b)[i] < 128 by {
        if i < a.len() {
            assert((a + b)[i] == a[i]);
        } else {
            assert((a + b)[i] == b[i - a.len()]);
        }
    }
}

/// ASCII characters encode to their own codes in UTF-8.
proof fn lemma_ascii_encode(r: Seq<u8>)
    requires
        ascii_bytes(r),
    ensures
        encode_utf8(ascii_chars(r)) == r,
{
    let c = ascii_chars(r);
    assert forall|i: int| 0 <= i < c.len() implies (c[i] as nat) < 128 by {
        assert(c[i] == r[i] as char);
    }
    assert(vstd::utf8::is_ascii_chars(c));
    vstd::utf8::is_ascii_chars_encode_utf8(c);
    assert forall|i: int| 0 <= i < r.len() implies encode_utf8(c)[i] == r[i] by {
        assert(c[i] == r[i] as char);
        assert(c[i] as u8 == encode_utf8(c)[i]);
    }
    assert(encode_utf8(c) =~= r);
}

/// A trace id holds 16 bytes and a span id 8, so a rendered `traceparent`
/// header has 2 + 1 + 32 + 1 + 16 + 1 + 2 = 55 characters.
pub proof fn lemma_id_lengths(trace: TraceId, span: SpanId)
    ensures
        trace@.len() == 16,
        span@.len() == 8,
{
}

/// Rendering a context whose ids are not all zero, then parsing the header,
/// gives the same context back.
pub proof fn lemma_traceparent_roundtrip(ctx: SpanContext)
    requires
        !all_zero(ctx.trace_id@),
        !all_zero(ctx.span_id@),
    ensures
        parse_traceparent(
            encode_utf8(
                ascii_chars(
                    render_traceparent(ctx.trace_id@, ctx.span_id@, ctx.trace_flags.spec_bits()),
                ),
            ),
        ) == Ok::<_, TraceParentParseError>(ctx@),
{
    let t = ctx.trace_id@;
    let s = ctx.span_id@;
    let f = seq![ctx.trace_flags.spec_bits()];
    assert(t.len() == 16);
    assert(s.len() == 8);
    let ht = hex_lower(t);
    let hs = hex_lower(s);
    let hf = hex_lower(f);
    lemma_hex_lower_digits(t);
    lemma_hex_lower_digits(s);
    lemma_hex_lower_digits(f);
    lemma_hex_lower(t);
    lemma_hex_lower(s);
    lemma_hex_lower(f);
    let v = seq![48u8, 48u8];
    let r = render_traceparent(t, s, ctx.trace_flags.spec_bits());
    assert(r =~= v + seq![dash()] + ht + seq![dash()] + hs + seq![dash()] + hf);
    let d = seq![dash()];
    assert(ascii_bytes(v));
    assert(ascii_bytes(d));
    lemma_concat_ascii(v, d);
    lemma_concat_ascii(v + d, ht);
    lemma_concat_ascii(v + d + ht, d);
    lemma_concat_ascii(v + d + ht + d, hs);
    lemma_concat_ascii(v + d + ht + d + hs, d);
    lemma_concat_ascii(v + d + ht + d + hs + d, hf);
    lemma_ascii_encode(r);
    assert(split_fields(v) =~= seq![v]) by {
        let e = Seq::<u8>::empty();
        let one = seq![48u8];
        assert(split_fields(e) == seq![e]);
        assert(one.drop_last() =~= e);
        assert(split_fields(one) == seq![e].update(0, e.push(48u8)));
        assert(split_fields(one) =~= seq![one]);
        assert(v.drop_last() =~= one);
        assert(split_fields(v) == seq![one].update(0, one.push(48u8)));
        assert(one.push(48u8) =~= v);
    }
    lemma_split_field(v, ht);
    lemma_split_field(v + seq![dash()] + ht, hs);
    lemma_split_field(v + seq![dash()] + ht + seq![dash()] + hs, hf);
    let fields = split_fields(r);
    assert(fields =~= seq![v, ht, hs, hf]);
    lemma_decode_hex_lower(t);
    lemma_decode_hex_lower(s);
    lemma_decode_hex_lower(f);
}

/// Decodes one hex digit byte.
pub fn hex_nibble(b: u8) -> (r: Option<u8>)
    ensures
        r == hex_value(b),
{
    if 48 <= b && b <= 57 {
        Some(b - 48)
    } else if 97 <= b && b <= 102 {
        Some(b - 87)
    } else if 65 <= b && b <= 70 {
        Some(b - 55)
    } else {
        None
    }
}

/// Lowercase hex digit character for `n < 16`.
fn hex_digit_char(n: u8) -> (c: char)
    requires
        n < 16,
    ensures
        c == hex_digit(n) as char,
{
    if n < 10 {
        ((48 + n) as u8) as char
    } else {
        ((87 + n) as u8) as char
    }
}

/// Appends the lowercase hex rendering of `bytes` to `s`.
fn write_hex(s: &mut String, bytes: &[u8])
    ensures
        final(s)@ == old(s)@ + ascii_chars(hex_lower(bytes@)),
{
    let ghost start = s@;
    let mut i: usize = 0;
    while i < bytes.len()
        invariant
            i <= bytes@.len(),
            s@ == start + ascii_chars(hex_lower(bytes@.take(i as int))),
        decreases bytes@.len() - i,
    {
        let b = bytes[i];
        push_char(s, hex_digit_char(b / 16));
        push_char(s, hex_digit_char(b % 16));
        proof {
            let t = bytes@.take(i as int + 1);
            assert(t.drop_last() =~= bytes@.take(i as int));
            assert(t.last() == b);
            assert(ascii_chars(hex_lower(t)) =~= ascii_chars(hex_lower(bytes@.take(i as int)))
                + seq![hex_digit(b / 16) as char, hex_digit(b % 16) as char]);
        }
        i = i + 1;
    }
    assert(bytes@.take(i as int) =~= bytes@);
}

/// Splits header bytes at each dash.
fn split_dash(bytes: &[u8]) -> (fields: Vec<Vec<u8>>)
    ensures
        fields@.len() == split_fields(bytes@).len(),
        forall|k: int| 0 <= k < fields@.len() ==> #[trigger] fields@[k]@ == split_fields(bytes@)[k],
{
    let mut done: Vec<Vec<u8>> = Vec::new();
    let mut current: Vec<u8> = Vec::new();
    let mut i: usize = 0;
    while i < bytes.len()
        invariant
            i <= bytes@.len(),
            done@.len() + 1 == split_fields(bytes@.take(i as int)).len(),
            forall|k: int| 0 <= k < done@.len() ==> #[trigger] done@[k]@ == split_fields(bytes@.take(i as int))[k],
            current@ == split_fields(bytes@.take(i as int)).last(),
        decreases bytes@.len() - i,
    {
        let ghost before = bytes@.take(i as int);
        let ghost after = bytes@.take(i as int + 1);
        assert(after.drop_last() =~= before);
        let b = bytes[i];
        if b == 45u8 {
            let finished = current;
            done.push(finished);
            current = Vec::new();
            proof {
                assert(current@ =~= Seq::<u8>::empty());
            }
        } else {
            current.push(b);
        }
        i = i + 1;
        proof {
            assert forall|k: int| 0 <= k < done@.len() implies #[trigger] done@[k]@ == split_fields(after)[k] by {
                if b != 45u8 {
                    assert(k < split_fields(before).len() - 1);
                }
            }
        }
    }
    assert(bytes@.take(i as int) =~= bytes@);
    done.push(current);
    done
}

/// Decodes a field of `2 * n` hex digits into `n` bytes.
fn decode_hex_field(field: &Vec<u8>, n: usize) -> (r: Result<Vec<u8>, TraceParentParseError>)
    requires
        n <= 16,
    ensures
        match r {
            Ok(v) => decode_hex(field@, n as nat) == Ok::<_, TraceParentParseError>(v@),
            Err(e) => decode_hex(field@, n as nat) == Err::<Seq<u8>, _>(e),
        },
{
    if field.len() != 2 * n {
        return Err(TraceParentParseError::InvalidLength);
    }
    let mut k: usize = 0;
    while k < field.len()
        invariant
            k <= field@.len(),
            field@.len() == 2 * n,
            forall|j: int| 0 <= j < k ==> (#[trigger] hex_value(field@[j])) is Some,
        decreases field@.len() - k,
    {
        if hex_nibble(field[k]).is_none() {
            assert(hex_value(field@[k as int]) is None);
            return Err(TraceParentParseError::InvalidHex);
        }
        k = k + 1;
    }
    let mut out: Vec<u8> = Vec::new();
    let mut i: usize = 0;
    while i < n
        invariant
            i <= n,
            n <= 16,
            field@.len() == 2 * n,
            all_hex(field@),
            out@ =~= Seq::new(i as nat, |j: int| hex_pair(field@, j)),
        decreases n - i,
    {
        let hi = hex_nibble(field[2 * i]).unwrap();
        let lo = hex_nibble(field[2 * i + 1]).unwrap();
        assert(hex_value(field@[2 * i as int]) is Some);
        assert(hex_value(field@[2 * i as int + 1]) is Some);
        out.push(hi * 16 + lo);
        i = i + 1;
    }
    Ok(out)
}

/// Whether every byte is zero.
fn is_all_zero(v: &Vec<u8>) -> (r: bool)
    ensures
        r == all_zero(v@),
{
    let mut i: usize = 0;
    while i < v.len()
        invariant
            i <= v@.len(),
            forall|j: int| 0 <= j < i ==> v@[j] == 0,
        decreases v@.len() - i,
    {
        if v[i] != 0 {
            return false;
        }
        i = i + 1;
    }
    true
}

fn to_array16(v: &Vec<u8>) -> (a: [u8; 16])
    requires
        v@.len() == 16,
    ensures
        a@ == v@,
{
    let mut a = [0u8; 16];
    let mut i: usize = 0;
    while i < 16
        invariant
            i <= 16,
            v@.len() == 16,
            forall|j: int| 0 <= j < i ==> a@[j] == v@[j],
        decreases 16 - i,
    {
        a[i] = v[i];
        i = i + 1;
    }
    assert(a@ =~= v@);
    a
}

fn to_array8(v: &Vec<u8>) -> (a: [u8; 8])
    requires
        v@.len() == 8,
    ensures
        a@ == v@,
{
    let mut a = [0u8; 8];
    let mut i: usize = 0;
    while i < 8
        invariant
            i <= 8,
            v@.len() == 8,
            forall|j: int| 0 <= j < i ==> a@[j] == v@[j],
        decreases 8 - i,
    {
        a[i] = v[i];
        i = i + 1;
    }
    assert(a@ =~= v@);
    a
}

} // verus!
