//! The request value and its decoding from wire bytes.
//!
//! The wire format is one request line, any number of header lines, a blank
//! line, and exactly `content-length` body bytes.  [`spec_decode`] is the
//! mathematical decoder; [`Request::from_bytes`] is the executable one and
//! is proved to agree with it on every input.

use vstd::prelude::*;
use vstd::string::is_ascii;
use vstd::string::StringSliceAdditionalSpecFns;

use crate::ascii::{
    all_digits, copy_range, crlf_free, dec_digits, dec_value, find_byte, find_from, is_ws,
    lemma_find_from_at, lemma_find_from_props, lemma_lower_idempotent, lemma_trim_cr, lower,
    lower_slice, parse_dec, trim, trim_slice,
};
use crate::error::HttpError;
use crate::header_map::{
    distinct_keys, keys_lowercase, map_append, map_get, HeaderMap,
};
use crate::http_version::{lemma_version_token_facts, version_bytes, version_from, HttpVersion};
use crate::method::{lemma_method_token_facts, method_bytes, method_from, Method};

verus! {

broadcast use crate::ascii::lemma_find_from_bounds;

/// The spec-level contents of a header map: (name, value list) entries.
pub type Entries = Seq<(Seq<u8>, Seq<Seq<u8>>)>;

/// An inbound request, produced by one successful decode and immutable
/// thereafter.  `raw_target` is kept opaque: it is neither parsed nor
/// decoded.
pub struct Request {
    pub method: Method,
    pub raw_target: Vec<u8>,
    pub http_version: HttpVersion,
    pub headers: HeaderMap,
    pub body: Vec<u8>,
}

/// What one decode yields, as mathematical values.
#[verifier::ext_equal]
pub ghost struct RequestModel {
    pub method: Method,
    pub target: Seq<u8>,
    pub version: HttpVersion,
    pub headers: Entries,
    pub body: Seq<u8>,
}

impl View for Request {
    type V = RequestModel;

    open spec fn view(&self) -> RequestModel {
        RequestModel {
            method: self.method,
            target: self.raw_target@,
            version: self.http_version,
            headers: self.headers@,
            body: self.body@,
        }
    }
}

/// Split `s` at every occurrence of `sep`.  Always yields at least one
/// piece; `n` separators yield `n + 1` pieces, in order.
pub open spec fn split_on(s: Seq<u8>, sep: u8) -> Seq<Seq<u8>>
    decreases s.len(),
{
    if s.len() == 0 {
        seq![s]
    } else if s[0] == sep {
        seq![Seq::<u8>::empty()] + split_on(s.skip(1), sep)
    } else {
        let r = split_on(s.skip(1), sep);
        seq![seq![s[0]] + r[0]] + r.skip(1)
    }
}

pub proof fn lemma_split_len(s: Seq<u8>, sep: u8)
    ensures
        split_on(s, sep).len() >= 1,
    decreases s.len(),
{
    if s.len() > 0 {
        lemma_split_len(s.skip(1), sep);
    }
}

/// A separator-free sequence is one single piece.
pub proof fn lemma_split_no_sep(s: Seq<u8>, sep: u8)
    requires
        forall|k: int| 0 <= k < s.len() ==> s[k] != sep,
    ensures
        split_on(s, sep) == seq![s],
    decreases s.len(),
{
    if s.len() > 0 {
        lemma_split_no_sep(s.skip(1), sep);
        let r = split_on(s.skip(1), sep);
        assert(seq![s[0]] + s.skip(1) =~= s);
        assert(r.skip(1) =~~= Seq::<Seq<u8>>::empty());
        assert(split_on(s, sep) =~~= seq![s]);
    }
}

/// Splitting at the first separator peels off the leading piece.
pub proof fn lemma_split_at_sep(a: Seq<u8>, rest: Seq<u8>, sep: u8)
    requires
        forall|k: int| 0 <= k < a.len() ==> a[k] != sep,
    ensures
        split_on(a + seq![sep] + rest, sep) == seq![a] + split_on(rest, sep),
    decreases a.len(),
{
    let s = a + seq![sep] + rest;
    if a.len() == 0 {
        assert(s[0] == sep);
        assert(s.skip(1) =~= rest);
        assert(split_on(s, sep) =~~= seq![a] + split_on(rest, sep));
    } else {
        assert(s[0] == a[0]);
        assert(s.skip(1) =~= a.skip(1) + seq![sep] + rest);
        lemma_split_at_sep(a.skip(1), rest, sep);
        lemma_split_len(rest, sep);
        let r = split_on(s.skip(1), sep);
        assert(r == seq![a.skip(1)] + split_on(rest, sep));
        assert(r[0] == a.skip(1));
        assert(seq![s[0]] + r[0] =~= a);
        assert(r.skip(1) =~~= split_on(rest, sep));
        assert(split_on(s, sep) =~~= seq![a] + split_on(rest, sep));
    }
}

/// Splitting an all-separator sequence yields only empty pieces.
pub proof fn lemma_split_all_sep(s: Seq<u8>, sep: u8)
    requires
        forall|k: int| 0 <= k < s.len() ==> s[k] == sep,
    ensures
        forall|j: int|
            0 <= j < split_on(s, sep).len() ==> (#[trigger] split_on(s, sep)[j]).len() == 0,
    decreases s.len(),
{
    if s.len() > 0 {
        lemma_split_all_sep(s.skip(1), sep);
        let r = split_on(s.skip(1), sep);
        assert(split_on(s, sep) == seq![Seq::<u8>::empty()] + r);
        assert forall|j: int|
            0 <= j < split_on(s, sep).len() implies (#[trigger] split_on(s, sep)[j]).len()
            == 0 by {
            if j > 0 {
                assert(split_on(s, sep)[j] == r[j - 1]);
            }
        }
    }
}

/// A sequence with a non-separator byte has a non-empty piece.
pub proof fn lemma_split_has_nonempty(s: Seq<u8>, sep: u8)
    requires
        exists|k: int| 0 <= k < s.len() && s[k] != sep,
    ensures
        exists|j: int|
            0 <= j < split_on(s, sep).len() && (#[trigger] split_on(s, sep)[j]).len() > 0,
    decreases s.len(),
{
    if s[0] != sep {
        lemma_split_len(s.skip(1), sep);
        assert(split_on(s, sep)[0].len() > 0);
    } else {
        let k = choose|k: int| 0 <= k < s.len() && s[k] != sep;
        assert(s.skip(1)[k - 1] != sep);
        lemma_split_has_nonempty(s.skip(1), sep);
        let r = split_on(s.skip(1), sep);
        let j = choose|j: int| 0 <= j < r.len() && (#[trigger] r[j]).len() > 0;
        assert(split_on(s, sep)[j + 1].len() > 0);
    }
}

/// Parse the (already trimmed) request line: exactly three space-separated
/// tokens, with only empty tokens tolerated after the third.
pub open spec fn spec_request_line(line: Seq<u8>) -> Result<
    (Method, Seq<u8>, HttpVersion),
    HttpError,
> {
    let parts = split_on(line, 32);
    if parts.len() < 3 {
        Err(HttpError::MalformedRequestLine)
    } else if exists|k: int| 3 <= k < parts.len() && (#[trigger] parts[k]).len() > 0 {
        Err(HttpError::MalformedRequestLine)
    } else {
        match method_from(parts[0]) {
            None => Err(HttpError::UnknownMethod),
            Some(m) => match version_from(parts[2]) {
                None => Err(HttpError::UnknownVersion),
                Some(v) => Ok((m, parts[1], v)),
            },
        }
    }
}

/// Fold the raw value pieces of one header line into the entries: each
/// piece is trimmed and appended under `name`.
pub open spec fn append_list(es: Entries, name: Seq<u8>, vals: Seq<Seq<u8>>) -> Entries
    decreases vals.len(),
{
    if vals.len() == 0 {
        es
    } else {
        append_list(map_append(es, name, trim(vals[0])), name, vals.skip(1))
    }
}

/// Process one (already trimmed, non-empty) header line: the name is
/// everything before the first `:`, lowercased and trimmed; the value tail
/// is split on `;` and each piece trimmed and appended.  A line without a
/// `:` stores one empty value under the whole line as name.
pub open spec fn spec_header_line(line: Seq<u8>, es: Entries) -> Entries {
    match find_from(line, 58, 0) {
        Some(j) => append_list(es, lower(trim(line.take(j))), split_on(line.skip(j + 1), 59)),
        None => append_list(es, lower(trim(line)), split_on(Seq::<u8>::empty(), 59)),
    }
}

/// Consume header lines starting at `pos` until a blank line; yields the
/// accumulated entries and the position just past the blank line.
pub open spec fn parse_headers(s: Seq<u8>, pos: int, es: Entries) -> Result<
    (Entries, int),
    HttpError,
>
    decreases s.len() - pos,
{
    match find_from(s, 10, pos) {
        None => Err(HttpError::UnexpectedEof),
        Some(i) => {
            let line = trim(s.subrange(pos, i));
            if line.len() == 0 {
                Ok((es, i + 1))
            } else {
                parse_headers(s, i + 1, spec_header_line(line, es))
            }
        },
    }
}

/// The key under which the body length is declared.
pub open spec fn cl_key() -> Seq<u8> {
    "content-length".spec_bytes()
}

/// The declared body length: `0` when absent, the first value parsed as a
/// decimal number when present, an error when that value is not a decimal
/// number fitting in `usize`.
pub open spec fn spec_content_length(es: Entries) -> Result<nat, HttpError> {
    match map_get(es, cl_key()) {
        None => Ok(0),
        Some(vals) => if vals.len() == 0 {
            Ok(0)
        } else if vals[0].len() > 0 && all_digits(vals[0]) && dec_value(vals[0]) <= usize::MAX {
            Ok(dec_value(vals[0]))
        } else {
            Err(HttpError::InvalidContentLength)
        },
    }
}

/// The mathematical decoder: request line, headers, blank line, then
/// exactly the declared number of body bytes.
pub open spec fn spec_decode(s: Seq<u8>) -> Result<RequestModel, HttpError> {
    match find_from(s, 10, 0) {
        None => Err(HttpError::UnexpectedEof),
        Some(i) => match spec_request_line(trim(s.subrange(0, i))) {
            Err(e) => Err(e),
            Ok((m, t, v)) => match parse_headers(s, i + 1, Seq::empty()) {
                Err(e) => Err(e),
                Ok((es, bodypos)) => match spec_content_length(es) {
                    Err(e) => Err(e),
                    Ok(n) => if s.len() - bodypos < n {
                        Err(HttpError::UnexpectedEof)
                    } else {
                        Ok(
                            RequestModel {
                                method: m,
                                target: t,
                                version: v,
                                headers: es,
                                body: s.subrange(bodypos, bodypos + n),
                            },
                        )
                    },
                },
            },
        },
    }
}

/// Every byte from `from` on is a space.
fn all_spaces(s: &[u8], from: usize) -> (r: bool)
    requires
        from <= s@.len(),
    ensures
        r <==> forall|k: int| from <= k < s@.len() ==> s@[k] == 32,
{
    let mut i: usize = from;
    while i < s.len()
        invariant
            from <= i <= s@.len(),
            forall|k: int| from <= k < i ==> s@[k] == 32,
        decreases s@.len() - i,
    {
        if s[i] != 32 {
            return false;
        }
        i = i + 1;
    }
    true
}

/// Parse the request line into method, target and version.
#[verifier::rlimit(100)]
fn parse_request_line(line: &[u8]) -> (r: Result<(Method, Vec<u8>, HttpVersion), HttpError>)
    ensures
        match r {
            Ok(t) => spec_request_line(line@) == Ok::<(Method, Seq<u8>, HttpVersion), HttpError>(
                (t.0, t.1@, t.2),
            ),
            Err(e) => spec_request_line(line@) == Err::<(Method, Seq<u8>, HttpVersion), HttpError>(
                e,
            ),
        },
{
    let i1 = match find_byte(line, 32, 0) {
        None => {
            proof {
                lemma_find_from_props(line@, 32, 0);
                lemma_split_no_sep(line@, 32);
            }
            return Err(HttpError::MalformedRequestLine);
        },
        Some(i) => i,
    };
    proof {
        lemma_find_from_props(line@, 32, 0);
        assert(line@ =~= line@.subrange(0, i1 as int) + seq![32u8] + line@.skip(i1 + 1));
        lemma_split_at_sep(line@.subrange(0, i1 as int), line@.skip(i1 + 1), 32);
    }
    let tok0 = copy_range(line, 0, i1);
    let i2 = match find_byte(line, 32, i1 + 1) {
        None => {
            proof {
                lemma_find_from_props(line@, 32, i1 + 1);
                let rest1 = line@.skip(i1 + 1);
                assert(forall|k: int| 0 <= k < rest1.len() ==> rest1[k] != 32);
                lemma_split_no_sep(rest1, 32);
                assert(split_on(line@, 32).len() == 2);
            }
            return Err(HttpError::MalformedRequestLine);
        },
        Some(i) => i,
    };
    proof {
        lemma_find_from_props(line@, 32, i1 + 1);
        let rest1 = line@.skip(i1 + 1);
        let a1 = line@.subrange(i1 + 1, i2 as int);
        assert(forall|k: int| 0 <= k < a1.len() ==> a1[k] != 32);
        assert(rest1 =~= a1 + seq![32u8] + line@.skip(i2 + 1));
        lemma_split_at_sep(a1, line@.skip(i2 + 1), 32);
    }
    let tok1 = copy_range(line, i1 + 1, i2);
    let ghost rest2 = line@.skip(i2 + 1);
    let tok2 = match find_byte(line, 32, i2 + 1) {
        None => {
            proof {
                lemma_find_from_props(line@, 32, i2 + 1);
                assert(forall|k: int| 0 <= k < rest2.len() ==> rest2[k] != 32);
                lemma_split_no_sep(rest2, 32);
                assert(split_on(line@, 32) =~~= seq![tok0@, tok1@, rest2]);
            }
            copy_range(line, i2 + 1, line.len())
        },
        Some(i3) => {
            let ghost rest3 = line@.skip(i3 + 1);
            proof {
                lemma_find_from_props(line@, 32, i2 + 1);
                let a2 = line@.subrange(i2 + 1, i3 as int);
                assert(forall|k: int| 0 <= k < a2.len() ==> a2[k] != 32);
                assert(rest2 =~= a2 + seq![32u8] + rest3);
                lemma_split_at_sep(a2, rest3, 32);
                assert(split_on(line@, 32) =~~= seq![tok0@, tok1@, a2] + split_on(rest3, 32));
            }
            if !all_spaces(line, i3 + 1) {
                proof {
                    assert(exists|k: int| 0 <= k < rest3.len() && rest3[k] != 32) by {
                        let k0 = choose|k: int|
                            i3 + 1 <= k < line@.len() && #[trigger] line@[k] != 32;
                        assert(rest3[k0 - i3 - 1] != 32);
                    }
                    lemma_split_has_nonempty(rest3, 32);
                    let parts = split_on(line@, 32);
                    let r3 = split_on(rest3, 32);
                    let j = choose|j: int| 0 <= j < r3.len() && (#[trigger] r3[j]).len() > 0;
                    assert(parts[j + 3].len() > 0);
                }
                return Err(HttpError::MalformedRequestLine);
            }
            proof {
                assert(forall|k: int| 0 <= k < rest3.len() ==> rest3[k] == 32);
                lemma_split_all_sep(rest3, 32);
                let parts = split_on(line@, 32);
                assert(forall|k: int|
                    3 <= k < parts.len() ==> (#[trigger] parts[k]).len() == 0) by {
                    assert(forall|k: int|
                        3 <= k < parts.len() ==> parts[k] == split_on(rest3, 32)[k - 3]);
                }
            }
            copy_range(line, i2 + 1, i3)
        },
    };
    let m = match Method::from_bytes(tok0.as_slice()) {
        None => {
            return Err(HttpError::UnknownMethod);
        },
        Some(m) => m,
    };
    let v = match HttpVersion::from_bytes(tok2.as_slice()) {
        None => {
            return Err(HttpError::UnknownVersion);
        },
        Some(v) => v,
    };
    Ok((m, tok1, v))
}

/// Append the `;`-separated, individually trimmed value pieces found in
/// `line` from `p` on under `name` (already lowercased).
fn append_values(line: &[u8], p: usize, name: &[u8], headers: &mut HeaderMap)
    requires
        p <= line@.len(),
        distinct_keys(old(headers)@),
        name@ == lower(name@),
    ensures
        final(headers)@ == append_list(old(headers)@, name@, split_on(line@.skip(p as int), 59)),
        distinct_keys(final(headers)@),
        keys_lowercase(old(headers)@) ==> keys_lowercase(final(headers)@),
    decreases line@.len() - p,
{
    match find_byte(line, 59, p) {
        None => {
            let piece = trim_slice(&line[p..line.len()]);
            headers.append(name, piece);
            proof {
                lemma_find_from_props(line@, 59, p as int);
                let t = line@.skip(p as int);
                assert(forall|k: int| 0 <= k < t.len() ==> t[k] != 59);
                lemma_split_no_sep(t, 59);
                reveal_with_fuel(append_list, 2);
                assert(seq![t].skip(1) =~~= Seq::<Seq<u8>>::empty());
                assert(line@.subrange(p as int, line@.len() as int) =~= t);
            }
        },
        Some(j) => {
            let piece = trim_slice(&line[p..j]);
            headers.append(name, piece);
            proof {
                lemma_find_from_props(line@, 59, p as int);
                let t = line@.skip(p as int);
                let a = line@.subrange(p as int, j as int);
                assert(forall|k: int| 0 <= k < a.len() ==> a[k] != 59);
                assert(t =~= a + seq![59u8] + line@.skip(j + 1));
                lemma_split_at_sep(a, line@.skip(j + 1), 59);
                assert((seq![a] + split_on(line@.skip(j + 1), 59)).skip(1) =~~= split_on(
                    line@.skip(j + 1),
                    59,
                ));
            }
            append_values(line, j + 1, name, headers);
        },
    }
}

/// Process one trimmed, non-empty header line into the map.
fn append_header_line(line: &[u8], headers: &mut HeaderMap)
    requires
        distinct_keys(old(headers)@),
    ensures
        final(headers)@ == spec_header_line(line@, old(headers)@),
        distinct_keys(final(headers)@),
        keys_lowercase(old(headers)@) ==> keys_lowercase(final(headers)@),
{
    match find_byte(line, 58, 0) {
        Some(j) => {
            let raw = trim_slice(&line[0..j]);
            let name = lower_slice(raw.as_slice());
            proof {
                lemma_lower_idempotent(trim(line@.subrange(0, j as int)));
                assert(line@.take(j as int) =~= line@.subrange(0, j as int));
            }
            append_values(line, j + 1, name.as_slice(), headers);
        },
        None => {
            let raw = trim_slice(line);
            let name = lower_slice(raw.as_slice());
            proof {
                lemma_lower_idempotent(trim(line@));
                assert(line@.skip(line@.len() as int) =~= Seq::<u8>::empty());
            }
            append_values(line, line.len(), name.as_slice(), headers);
        },
    }
}

/// Read header lines until the blank line; yields the body start position.
fn read_headers(input: &[u8], pos: usize, headers: &mut HeaderMap) -> (r: Result<usize, HttpError>)
    requires
        pos <= input@.len(),
        distinct_keys(old(headers)@),
    ensures
        match r {
            Ok(bodypos) => ({
                &&& parse_headers(input@, pos as int, old(headers)@) == Ok::<
                    (Entries, int),
                    HttpError,
                >((final(headers)@, bodypos as int))
                &&& bodypos <= input@.len()
                &&& distinct_keys(final(headers)@)
                &&& (keys_lowercase(old(headers)@) ==> keys_lowercase(final(headers)@))
            }),
            Err(e) => parse_headers(input@, pos as int, old(headers)@) == Err::<
                (Entries, int),
                HttpError,
            >(e),
        },
    decreases input@.len() - pos,
{
    match find_byte(input, 10, pos) {
        None => Err(HttpError::UnexpectedEof),
        Some(i) => {
            let line = trim_slice(&input[pos..i]);
            if line.len() == 0 {
                Ok(i + 1)
            } else {
                append_header_line(line.as_slice(), headers);
                read_headers(input, i + 1, headers)
            }
        },
    }
}

/// A byte sequence that can stand as a header field name on the wire: no
/// `:` inside and no whitespace at the edges.
pub open spec fn name_like(s: Seq<u8>) -> bool {
    &&& forall|k: int| 0 <= k < s.len() ==> s[k] != 58
    &&& (s.len() > 0 ==> !crate::ascii::is_ws(s[0]) && !crate::ascii::is_ws(s[s.len() - 1]))
}

/// A byte sequence that can stand as one folded header value: no `;`
/// inside and no whitespace at the edges.
pub open spec fn value_like(s: Seq<u8>) -> bool {
    &&& forall|k: int| 0 <= k < s.len() ==> s[k] != 59
    &&& (s.len() > 0 ==> !crate::ascii::is_ws(s[0]) && !crate::ascii::is_ws(s[s.len() - 1]))
}

/// Decoding a header line `h: v` appends the one value `v` under the
/// lowercased key `h`.
pub proof fn lemma_single_value_line(h: Seq<u8>, v: Seq<u8>, es: Entries)
    requires
        name_like(h),
        value_like(v),
    ensures
        spec_header_line(h + ": ".spec_bytes() + v, es) == map_append(es, lower(h), v),
{
    reveal_strlit(": ");
    broadcast use vstd::string::is_ascii_spec_bytes;

    assert(is_ascii(": "));
    let cs = ": ".spec_bytes();
    assert(cs =~= seq![58u8, 32u8]);
    let line = h + cs + v;
    assert(line =~= h + (cs + v));
    assert(line[h.len() as int] == 58);
    lemma_find_from_at(line, 58, 0, h.len() as int);
    assert(line.take(h.len() as int) =~= h);
    crate::ascii::lemma_trim_fixed(h);
    let tail = line.skip(h.len() as int + 1);
    assert(tail =~= seq![32u8] + v);
    assert(forall|k: int| 0 <= k < tail.len() ==> tail[k] != 59);
    lemma_split_no_sep(tail, 59);
    reveal_with_fuel(append_list, 2);
    assert(seq![tail].skip(1) =~~= Seq::<Seq<u8>>::empty());
    crate::ascii::lemma_trim_fixed(v);
    assert(trim(tail) == v);
}

/// Decoding two header lines `h: a` then `h: b` yields the two values, in
/// order, under the one lowercased key `h`.
pub proof fn lemma_repeated_header(h: Seq<u8>, a: Seq<u8>, b: Seq<u8>)
    requires
        name_like(h),
        value_like(a),
        value_like(b),
    ensures
        spec_header_line(
            h + ": ".spec_bytes() + b,
            spec_header_line(h + ": ".spec_bytes() + a, Seq::empty()),
        ) == seq![(lower(h), seq![a, b])],
{
    let n = lower(h);
    let e0 = Seq::<(Seq<u8>, Seq<Seq<u8>>)>::empty();
    lemma_single_value_line(h, a, e0);
    let es1 = map_append(e0, n, a);
    assert(es1 =~~= seq![(n, seq![a])]);
    lemma_single_value_line(h, b, es1);
    let es2 = map_append(es1, n, b);
    assert(crate::header_map::find_key(es1, n) == 0);
    assert(es2[0].1 =~= seq![a, b]);
    assert(es2 =~~= seq![(n, seq![a, b])]);
}

/// Decoding one header line `h: a; b; c` yields the three values, in
/// order, under the lowercased key `h`.
#[verifier::rlimit(100)]
pub proof fn lemma_folded_values(h: Seq<u8>, a: Seq<u8>, b: Seq<u8>, c: Seq<u8>)
    requires
        name_like(h),
        value_like(a),
        value_like(b),
        value_like(c),
    ensures
        spec_header_line(
            h + ": ".spec_bytes() + a + "; ".spec_bytes() + b + "; ".spec_bytes() + c,
            Seq::empty(),
        ) == seq![(lower(h), seq![a, b, c])],
{
    reveal_strlit(": ");
    reveal_strlit("; ");
    broadcast use vstd::string::is_ascii_spec_bytes;

    assert(is_ascii(": "));
    assert(is_ascii("; "));
    let cs = ": ".spec_bytes();
    let ss = "; ".spec_bytes();
    assert(cs =~= seq![58u8, 32u8]);
    assert(ss =~= seq![59u8, 32u8]);
    let line = h + cs + a + ss + b + ss + c;
    assert(line =~= h + (cs + a + ss + b + ss + c));
    assert(line[h.len() as int] == 58);
    lemma_find_from_at(line, 58, 0, h.len() as int);
    assert(line.take(h.len() as int) =~= h);
    crate::ascii::lemma_trim_fixed(h);
    crate::ascii::lemma_trim_fixed(a);
    crate::ascii::lemma_trim_fixed(b);
    crate::ascii::lemma_trim_fixed(c);
    let p1 = seq![32u8] + a;
    let p2 = seq![32u8] + b;
    let p3 = seq![32u8] + c;
    let tail = line.skip(h.len() as int + 1);
    assert(tail =~= p1 + seq![59u8] + (p2 + seq![59u8] + p3));
    assert(forall|k: int| 0 <= k < p1.len() ==> p1[k] != 59);
    assert(forall|k: int| 0 <= k < p2.len() ==> p2[k] != 59);
    assert(forall|k: int| 0 <= k < p3.len() ==> p3[k] != 59);
    lemma_split_at_sep(p1, p2 + seq![59u8] + p3, 59);
    lemma_split_at_sep(p2, p3, 59);
    lemma_split_no_sep(p3, 59);
    assert(split_on(tail, 59) =~~= seq![p1, p2, p3]);
    let n = lower(h);
    let e0 = Seq::<(Seq<u8>, Seq<Seq<u8>>)>::empty();
    let es1 = map_append(e0, n, a);
    assert(es1 =~~= seq![(n, seq![a])]);
    let es2 = map_append(es1, n, b);
    assert(crate::header_map::find_key(es1, n) == 0);
    assert(es2 =~~= seq![(n, seq![a, b])]);
    let es3 = map_append(es2, n, c);
    assert(crate::header_map::find_key(es2, n) == 0);
    assert(es3 =~~= seq![(n, seq![a, b, c])]);
    reveal_with_fuel(append_list, 4);
    assert(seq![p1, p2, p3].skip(1) =~~= seq![p2, p3]);
    assert(seq![p2, p3].skip(1) =~~= seq![p3]);
    assert(seq![p3].skip(1) =~~= Seq::<Seq<u8>>::empty());
    assert(append_list(e0, n, seq![p1, p2, p3]) == append_list(es1, n, seq![p2, p3]));
    assert(append_list(es1, n, seq![p2, p3]) == append_list(es2, n, seq![p3]));
    assert(append_list(es2, n, seq![p3]) == es3);
}

/// The canonical body-length key: already lowercase, free of `:`, CR and
/// LF, with non-whitespace edges.
proof fn lemma_cl_key_facts()
    ensures
        lower(cl_key()) == cl_key(),
        cl_key().len() > 0,
        name_like(cl_key()),
        crlf_free(cl_key()),
{
    reveal_strlit("content-length");
    broadcast use vstd::string::is_ascii_spec_bytes;

    assert(is_ascii("content-length"));
    assert(cl_key() =~= seq![99u8, 111, 110, 116, 101, 110, 116, 45, 108, 101, 110, 103, 116, 104]);
    assert(lower(cl_key()) =~= cl_key());
}

impl Request {
    /// Decode one request from `input`.  The result agrees with
    /// [`spec_decode`] exactly: it succeeds if and only if the mathematical
    /// decoder does, with the same value or the same error.  Bytes past the
    /// declared body length are ignored.  Every header key in a decoded
    /// request equals its own lowercasing.
    pub fn from_bytes(input: &[u8]) -> (r: Result<Request, HttpError>)
        ensures
            match r {
                Ok(req) => spec_decode(input@) == Ok::<RequestModel, HttpError>(req@)
                    && distinct_keys(req.headers@) && keys_lowercase(req.headers@),
                Err(e) => spec_decode(input@) == Err::<RequestModel, HttpError>(e),
            },
    {
        let nl = match find_byte(input, 10, 0) {
            None => {
                return Err(HttpError::UnexpectedEof);
            },
            Some(i) => i,
        };
        let line = trim_slice(&input[0..nl]);
        let (m, target, v) = match parse_request_line(line.as_slice()) {
            Err(e) => {
                return Err(e);
            },
            Ok(t) => t,
        };
        let mut headers = HeaderMap::new();
        let bodypos = match read_headers(input, nl + 1, &mut headers) {
            Err(e) => {
                return Err(e);
            },
            Ok(p) => p,
        };
        proof {
            lemma_cl_key_facts();
        }
        let n: usize = match headers.get("content-length".as_bytes()) {
            None => 0,
            Some(vals) => {
                if vals.len() == 0 {
                    0
                } else {
                    match parse_dec(vals[0].as_slice()) {
                        Some(n) => n,
                        None => {
                            return Err(HttpError::InvalidContentLength);
                        },
                    }
                }
            },
        };
        if input.len() - bodypos < n {
            return Err(HttpError::UnexpectedEof);
        }
        let body = copy_range(input, bodypos, bodypos + n);
        let req = Request { method: m, raw_target: target, http_version: v, headers, body };
        proof {
            assert(spec_decode(input@) == Ok::<RequestModel, HttpError>(req@)) by {
                assert(spec_decode(input@) matches Ok(model) && model =~= req@);
            }
        }
        Ok(req)
    }
}

/// One header line per (name, value) pair, each terminated by CRLF.
pub open spec fn header_lines_bytes(hs: Seq<(Seq<u8>, Seq<u8>)>) -> Seq<u8>
    decreases hs.len(),
{
    if hs.len() == 0 {
        Seq::empty()
    } else {
        hs[0].0 + ": ".spec_bytes() + hs[0].1 + seq![13u8, 10u8] + header_lines_bytes(hs.skip(1))
    }
}

/// The wire bytes of a request with the given parts and an empty body.
pub open spec fn request_bytes(
    m: Method,
    t: Seq<u8>,
    v: HttpVersion,
    hs: Seq<(Seq<u8>, Seq<u8>)>,
) -> Seq<u8> {
    method_bytes(m) + seq![32u8] + t + seq![32u8] + version_bytes(v) + seq![13u8, 10u8]
        + header_lines_bytes(hs) + seq![13u8, 10u8]
}

/// A (name, value) pair that yields a well-formed header line: both parts
/// non-empty and free of CR and LF, the name free of `:` with
/// non-whitespace edges, the value free of `;` with non-whitespace edges.
pub open spec fn wf_header_pair(p: (Seq<u8>, Seq<u8>)) -> bool {
    &&& name_like(p.0)
    &&& p.0.len() > 0
    &&& crlf_free(p.0)
    &&& value_like(p.1)
    &&& p.1.len() > 0
    &&& crlf_free(p.1)
}

/// A target that survives the request line unchanged: free of spaces, CR
/// and LF.
pub open spec fn wf_target(t: Seq<u8>) -> bool {
    forall|k: int| 0 <= k < t.len() ==> (#[trigger] t[k]) != 32 && t[k] != 13 && t[k] != 10
}

/// The entries that the well-formed header lines produce: one value
/// appended per line, under the lowercased name.
pub open spec fn fold_pairs(es: Entries, hs: Seq<(Seq<u8>, Seq<u8>)>) -> Entries
    decreases hs.len(),
{
    if hs.len() == 0 {
        es
    } else {
        fold_pairs(map_append(es, lower(hs[0].0), hs[0].1), hs.skip(1))
    }
}

proof fn lemma_fold_pairs_props(es: Entries, hs: Seq<(Seq<u8>, Seq<u8>)>)
    requires
        keys_lowercase(es),
        forall|i: int| 0 <= i < es.len() ==> (#[trigger] es[i]).0 != cl_key(),
        forall|k: int| 0 <= k < hs.len() ==> lower((#[trigger] hs[k]).0) != cl_key(),
    ensures
        keys_lowercase(fold_pairs(es, hs)),
        forall|i: int|
            0 <= i < fold_pairs(es, hs).len() ==> (#[trigger] fold_pairs(es, hs)[i]).0 != cl_key(),
    decreases hs.len(),
{
    if hs.len() > 0 {
        let n = lower(hs[0].0);
        let es2 = map_append(es, n, hs[0].1);
        crate::header_map::lemma_find_key_props(es, n);
        lemma_lower_idempotent(hs[0].0);
        assert(keys_lowercase(es2));
        assert(forall|i: int| 0 <= i < es2.len() ==> (#[trigger] es2[i]).0 != cl_key());
        assert(forall|k: int|
            0 <= k < hs.skip(1).len() ==> lower((#[trigger] hs.skip(1)[k]).0) != cl_key());
        lemma_fold_pairs_props(es2, hs.skip(1));
    }
}

/// Well-formed header lines parse to exactly their folded entries, and
/// consume everything up to and including the blank line, leaving `tail`.
proof fn lemma_parse_wf_headers(
    s: Seq<u8>,
    pos: int,
    es: Entries,
    hs: Seq<(Seq<u8>, Seq<u8>)>,
    tail: Seq<u8>,
)
    requires
        0 <= pos <= s.len(),
        s.skip(pos) == header_lines_bytes(hs) + seq![13u8, 10u8] + tail,
        forall|k: int| 0 <= k < hs.len() ==> wf_header_pair(#[trigger] hs[k]),
    ensures
        parse_headers(s, pos, es) == Ok::<(Entries, int), HttpError>(
            (fold_pairs(es, hs), s.len() - tail.len()),
        ),
    decreases hs.len(),
{
    reveal_strlit(": ");
    broadcast use vstd::string::is_ascii_spec_bytes;

    assert(is_ascii(": "));
    let cs = ": ".spec_bytes();
    assert(cs =~= seq![58u8, 32u8]);
    let d = s.skip(pos);
    assert(forall|q: int| 0 <= q < d.len() ==> (#[trigger] d[q]) == s[q + pos]);
    if hs.len() == 0 {
        assert(d =~= seq![13u8, 10u8] + tail);
        assert(s.len() == pos + 2 + tail.len());
        assert(d[0] == 13 && d[1] == 10);
        assert(s[pos] == d[0] && s[pos + 1] == d[1]);
        lemma_find_from_at(s, 10, pos, pos + 1);
        assert(s.subrange(pos, pos + 1) =~= seq![13u8]);
        assert(trim(seq![13u8]).len() == 0) by {
            reveal_with_fuel(crate::ascii::trim_start, 3);
            assert(seq![13u8].skip(1) =~= Seq::<u8>::empty());
        }
    } else {
        let p0 = hs[0];
        let line0 = p0.0 + cs + p0.1;
        let nl = p0.0.len() as int;
        let l = line0.len() as int;
        let rest = header_lines_bytes(hs.skip(1)) + seq![13u8, 10u8] + tail;
        assert(d =~= line0 + seq![13u8, 10u8] + rest);
        assert(forall|q: int| 0 <= q < l ==> (#[trigger] line0[q]) != 10) by {
            assert forall|q: int| 0 <= q < l implies (#[trigger] line0[q]) != 10 by {
                if q < nl {
                    assert(line0[q] == p0.0[q]);
                } else if q < nl + 2 {
                    assert(line0[q] == cs[q - nl]);
                } else {
                    assert(line0[q] == p0.1[q - nl - 2]);
                }
            }
        }
        assert(d[l] == 13 && d[l + 1] == 10);
        assert(s[pos + l] == d[l] && s[pos + l + 1] == d[l + 1]);
        assert forall|k: int| pos <= k < pos + l + 1 implies s[k] != 10 by {
            assert(s[k] == d[k - pos]);
            if k - pos < l {
                assert(d[k - pos] == line0[k - pos]);
            } else {
                assert(d[k - pos] == 13);
            }
        }
        lemma_find_from_at(s, 10, pos, pos + l + 1);
        assert(s.subrange(pos, pos + l + 1) =~= line0 + seq![13u8]);
        assert(line0[0] == p0.0[0] && !is_ws(line0[0]));
        assert(line0[l - 1] == p0.1[p0.1.len() - 1] && !is_ws(line0[l - 1]));
        lemma_trim_cr(line0);
        lemma_single_value_line(p0.0, p0.1, es);
        let es2 = map_append(es, lower(p0.0), p0.1);
        assert(spec_header_line(line0, es) == es2);
        assert(s.skip(pos + l + 2) =~= rest) by {
            assert(forall|q: int| 0 <= q < rest.len() ==> rest[q] == d[q + l + 2]);
        }
        assert(forall|k: int|
            0 <= k < hs.skip(1).len() ==> wf_header_pair(#[trigger] hs.skip(1)[k]));
        lemma_parse_wf_headers(s, pos + l + 2, es2, hs.skip(1), tail);
        assert(fold_pairs(es, hs) == fold_pairs(es2, hs.skip(1)));
    }
}

/// Any well-formed request bytes decode successfully: the method, target
/// and version come back as given, each header line contributes its value
/// under its lowercased name, the body is empty, and every header key of
/// the result equals its own lowercasing.
#[verifier::rlimit(100)]
pub proof fn lemma_wf_request_decodes(
    m: Method,
    t: Seq<u8>,
    v: HttpVersion,
    hs: Seq<(Seq<u8>, Seq<u8>)>,
)
    requires
        wf_target(t),
        forall|k: int| 0 <= k < hs.len() ==> wf_header_pair(#[trigger] hs[k]),
        forall|k: int| 0 <= k < hs.len() ==> lower((#[trigger] hs[k]).0) != cl_key(),
    ensures
        spec_decode(request_bytes(m, t, v, hs)) matches Ok(req) && req.method == m && req.target
            == t && req.version == v && req.headers == fold_pairs(Seq::empty(), hs) && req.body
            == Seq::<u8>::empty() && keys_lowercase(req.headers),
{
    lemma_method_token_facts(m);
    lemma_version_token_facts(v);
    let mb = method_bytes(m);
    let vb = version_bytes(v);
    let mline = mb + seq![32u8] + t + seq![32u8] + vb;
    let ml = mline.len() as int;
    let hdr = header_lines_bytes(hs) + seq![13u8, 10u8];
    let s = request_bytes(m, t, v, hs);
    assert(s =~= mline + seq![13u8, 10u8] + hdr);
    assert(s[ml] == 13 && s[ml + 1] == 10);
    assert forall|k: int| 0 <= k < ml + 1 implies (#[trigger] s[k]) != 10 by {
        if k < mb.len() {
            assert(s[k] == mb[k]);
        } else if k == mb.len() {
            assert(s[k] == 32);
        } else if k < mb.len() + 1 + t.len() {
            assert(s[k] == t[k - mb.len() - 1]);
        } else if k == mb.len() + 1 + t.len() {
            assert(s[k] == 32);
        } else if k < ml {
            assert(s[k] == vb[k - mb.len() - t.len() - 2]);
        } else {
            assert(s[k] == 13);
        }
    }
    lemma_find_from_at(s, 10, 0, ml + 1);
    assert(s.subrange(0, ml + 1) =~= mline + seq![13u8]);
    assert(mline[0] == mb[0] && !is_ws(mline[0]));
    assert(mline[ml - 1] == vb[vb.len() - 1] && !is_ws(mline[ml - 1]));
    lemma_trim_cr(mline);
    assert(forall|k: int| 0 <= k < mb.len() ==> (#[trigger] mb[k]) != 32);
    assert(forall|k: int| 0 <= k < vb.len() ==> (#[trigger] vb[k]) != 32);
    assert(mline =~= mb + seq![32u8] + (t + seq![32u8] + vb));
    lemma_split_at_sep(mb, t + seq![32u8] + vb, 32);
    lemma_split_at_sep(t, vb, 32);
    lemma_split_no_sep(vb, 32);
    let parts = split_on(mline, 32);
    assert(parts =~~= seq![mb, t, vb]);
    assert(spec_request_line(mline) == Ok::<(Method, Seq<u8>, HttpVersion), HttpError>((m, t, v)));
    assert(s.skip(ml + 2) =~= hdr);
    lemma_parse_wf_headers(s, ml + 2, Seq::empty(), hs, Seq::empty());
    let entries = fold_pairs(Seq::empty(), hs);
    lemma_fold_pairs_props(Seq::empty(), hs);
    crate::header_map::lemma_find_key_props(entries, cl_key());
    assert(map_get(entries, cl_key()) is None);
    assert(spec_content_length(entries) == Ok::<nat, HttpError>(0));
    assert(s.subrange(s.len() as int, s.len() as int) =~= Seq::<u8>::empty());
}

/// Folding one more pair at the end appends its value last.
proof fn lemma_fold_pairs_snoc(es: Entries, hs: Seq<(Seq<u8>, Seq<u8>)>, p: (Seq<u8>, Seq<u8>))
    ensures
        fold_pairs(es, hs.push(p)) == map_append(fold_pairs(es, hs), lower(p.0), p.1),
    decreases hs.len(),
{
    let w = hs.push(p);
    if hs.len() == 0 {
        reveal_with_fuel(fold_pairs, 2);
        assert(w.skip(1) =~~= Seq::<(Seq<u8>, Seq<u8>)>::empty());
    } else {
        assert(w.skip(1) =~~= hs.skip(1).push(p));
        lemma_fold_pairs_snoc(map_append(es, lower(hs[0].0), hs[0].1), hs.skip(1), p);
    }
}

/// Any well-formed request bytes that declare a `content-length` and carry
/// exactly that many body bytes decode successfully: the request line
/// fields come back as given, the headers fold as written with the
/// `content-length` entry last, the body is returned byte for byte, and
/// every header key of the result equals its own lowercasing.
#[verifier::rlimit(100)]
pub proof fn lemma_wf_request_with_body_decodes(
    m: Method,
    t: Seq<u8>,
    v: HttpVersion,
    hs: Seq<(Seq<u8>, Seq<u8>)>,
    body: Seq<u8>,
)
    requires
        wf_target(t),
        forall|k: int| 0 <= k < hs.len() ==> wf_header_pair(#[trigger] hs[k]),
        forall|k: int| 0 <= k < hs.len() ==> lower((#[trigger] hs[k]).0) != cl_key(),
        body.len() <= usize::MAX,
    ensures
        ({
            let hs2 = hs.push((cl_key(), dec_digits(body.len())));
            let entries = fold_pairs(Seq::empty(), hs).push(
                (cl_key(), seq![dec_digits(body.len())]),
            );
            spec_decode(request_bytes(m, t, v, hs2) + body) matches Ok(req) && req.method == m
                && req.target == t && req.version == v && req.headers == entries && req.body == body
                && keys_lowercase(req.headers)
        }),
{
    lemma_method_token_facts(m);
    lemma_version_token_facts(v);
    lemma_cl_key_facts();
    crate::ascii::lemma_dec_digits_digits(body.len());
    crate::ascii::lemma_dec_value_of_digits(body.len());
    let num = dec_digits(body.len());
    let clp = (cl_key(), num);
    assert(wf_header_pair(clp));
    let hs2 = hs.push(clp);
    assert(forall|k: int| 0 <= k < hs2.len() ==> wf_header_pair(#[trigger] hs2[k]));
    let mb = method_bytes(m);
    let vb = version_bytes(v);
    let mline = mb + seq![32u8] + t + seq![32u8] + vb;
    let ml = mline.len() as int;
    let hdr = header_lines_bytes(hs2) + seq![13u8, 10u8];
    let s = request_bytes(m, t, v, hs2) + body;
    assert(s =~= mline + seq![13u8, 10u8] + (hdr + body));
    assert(s[ml] == 13 && s[ml + 1] == 10);
    assert forall|k: int| 0 <= k < ml + 1 implies (#[trigger] s[k]) != 10 by {
        if k < mb.len() {
            assert(s[k] == mb[k]);
        } else if k == mb.len() {
            assert(s[k] == 32);
        } else if k < mb.len() + 1 + t.len() {
            assert(s[k] == t[k - mb.len() - 1]);
        } else if k == mb.len() + 1 + t.len() {
            assert(s[k] == 32);
        } else if k < ml {
            assert(s[k] == vb[k - mb.len() - t.len() - 2]);
        } else {
            assert(s[k] == 13);
        }
    }
    lemma_find_from_at(s, 10, 0, ml + 1);
    assert(s.subrange(0, ml + 1) =~= mline + seq![13u8]);
    assert(mline[0] == mb[0] && !is_ws(mline[0]));
    assert(mline[ml - 1] == vb[vb.len() - 1] && !is_ws(mline[ml - 1]));
    lemma_trim_cr(mline);
    assert(forall|k: int| 0 <= k < mb.len() ==> (#[trigger] mb[k]) != 32);
    assert(forall|k: int| 0 <= k < vb.len() ==> (#[trigger] vb[k]) != 32);
    assert(mline =~= mb + seq![32u8] + (t + seq![32u8] + vb));
    lemma_split_at_sep(mb, t + seq![32u8] + vb, 32);
    lemma_split_at_sep(t, vb, 32);
    lemma_split_no_sep(vb, 32);
    assert(split_on(mline, 32) =~~= seq![mb, t, vb]);
    assert(spec_request_line(mline) == Ok::<(Method, Seq<u8>, HttpVersion), HttpError>((m, t, v)));
    assert(s.skip(ml + 2) =~= header_lines_bytes(hs2) + seq![13u8, 10u8] + body);
    lemma_parse_wf_headers(s, ml + 2, Seq::empty(), hs2, body);
    let bodypos = s.len() - body.len();
    let es_pre = fold_pairs(Seq::empty(), hs);
    lemma_fold_pairs_props(Seq::empty(), hs);
    lemma_fold_pairs_snoc(Seq::empty(), hs, clp);
    crate::header_map::lemma_find_key_props(es_pre, cl_key());
    assert(crate::header_map::find_key(es_pre, cl_key()) == -1);
    let entries = map_append(es_pre, cl_key(), num);
    assert(entries =~~= es_pre.push((cl_key(), seq![num])));
    assert(fold_pairs(Seq::empty(), hs2) == entries);
    crate::header_map::lemma_find_key_first(entries, cl_key(), es_pre.len() as int);
    assert(map_get(entries, cl_key()) == Some(seq![num]));
    assert(num.len() > 0 && all_digits(num) && dec_value(num) == body.len());
    assert(spec_content_length(entries) == Ok::<nat, HttpError>(body.len()));
    assert(s.len() - bodypos == body.len());
    assert(s.subrange(bodypos, bodypos + body.len()) =~= body);
    assert(keys_lowercase(entries)) by {
        assert(forall|i: int|
            0 <= i < es_pre.len() ==> (#[trigger] entries[i]).0 == es_pre[i].0);
        assert(entries[es_pre.len() as int].0 == cl_key());
    }
}

} // verus!
