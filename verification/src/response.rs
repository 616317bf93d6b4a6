//! The response value and its serialization to wire bytes.

use vstd::prelude::*;
use vstd::string::is_ascii;
use vstd::string::StringSliceAdditionalSpecFns;

use crate::ascii::{crlf_free, dec_digits, push_dec, push_slice};
use crate::error::HttpError;
use crate::header_map::{distinct_keys, HeaderMap};
use crate::http_version::{version_bytes, HttpVersion};
use crate::status_code::StatusCode;

verus! {

/// An outbound response.  The caller builds it freely; the encoder emits
/// exactly what is present, neither adding nor reordering headers, and does
/// not compute `Content-Length`.
pub struct Response {
    pub http_version: HttpVersion,
    pub status_code: StatusCode,
    pub headers: HeaderMap,
    pub body: Vec<u8>,
}

/// The two-byte line terminator.
pub open spec fn crlf() -> Seq<u8> {
    seq![13u8, 10u8]
}

/// Header values joined by `;`.
pub open spec fn join_values(vals: Seq<Seq<u8>>) -> Seq<u8>
    decreases vals.len(),
{
    if vals.len() == 0 {
        Seq::empty()
    } else if vals.len() == 1 {
        vals[0]
    } else {
        vals[0] + seq![59u8] + join_values(vals.skip(1))
    }
}

/// One header line without its terminator: `name: values`.
pub open spec fn header_line(e: (Seq<u8>, Seq<Seq<u8>>)) -> Seq<u8> {
    e.0 + seq![58u8, 32u8] + join_values(e.1)
}

/// All header lines, each followed by CRLF.
pub open spec fn header_block(es: Seq<(Seq<u8>, Seq<Seq<u8>>)>) -> Seq<u8>
    decreases es.len(),
{
    if es.len() == 0 {
        Seq::empty()
    } else {
        header_line(es[0]) + crlf() + header_block(es.skip(1))
    }
}

/// The status line without its terminator: `version code reason`.
pub open spec fn status_line(v: HttpVersion, sc: StatusCode) -> Seq<u8> {
    version_bytes(v) + seq![32u8] + dec_digits(sc.0 as nat) + seq![32u8] + sc.1.spec_bytes()
}

/// The full wire encoding of a response: status line, header block, blank
/// line, body.
pub open spec fn spec_encode(r: Response) -> Seq<u8> {
    status_line(r.http_version, r.status_code) + crlf() + header_block(r.headers@) + crlf()
        + r.body@
}

/// `join_values(s.push(x))` extends `join_values(s)` with `;` and `x`.
proof fn lemma_join_snoc(s: Seq<Seq<u8>>, x: Seq<u8>)
    ensures
        join_values(s.push(x)) == if s.len() == 0 {
            x
        } else {
            join_values(s) + seq![59u8] + x
        },
    decreases s.len(),
{
    let p = s.push(x);
    if s.len() == 0 {
        assert(p.len() == 1);
        assert(p[0] == x);
    } else if s.len() == 1 {
        assert(p.skip(1) =~= seq![x]);
        assert(join_values(p.skip(1)) == x);
        assert(join_values(p) == p[0] + seq![59u8] + x);
        assert(p[0] == s[0]);
        assert(join_values(s) == s[0]);
    } else {
        assert(p.skip(1) =~= s.skip(1).push(x));
        lemma_join_snoc(s.skip(1), x);
        assert(join_values(p) == p[0] + seq![59u8] + join_values(s.skip(1).push(x)));
        assert(join_values(p) =~= join_values(s) + seq![59u8] + x);
    }
}

/// `header_block(es.push(e))` extends `header_block(es)` with one line.
proof fn lemma_block_snoc(es: Seq<(Seq<u8>, Seq<Seq<u8>>)>, e: (Seq<u8>, Seq<Seq<u8>>))
    ensures
        header_block(es.push(e)) == header_block(es) + header_line(e) + crlf(),
    decreases es.len(),
{
    let p = es.push(e);
    if es.len() == 0 {
        reveal_with_fuel(header_block, 2);
        assert(p.skip(1) =~= Seq::<(Seq<u8>, Seq<Seq<u8>>)>::empty());
        assert(header_block(p) =~= header_block(es) + header_line(e) + crlf());
    } else {
        assert(p.skip(1) =~= es.skip(1).push(e));
        lemma_block_snoc(es.skip(1), e);
        assert(header_block(p) == header_line(es[0]) + crlf() + (header_block(es.skip(1))
            + header_line(e) + crlf()));
        assert(header_block(es) == header_line(es[0]) + crlf() + header_block(es.skip(1)));
        assert(header_line(es[0]) + crlf() + (header_block(es.skip(1)) + header_line(e) + crlf())
            =~= (header_line(es[0]) + crlf() + header_block(es.skip(1))) + header_line(e) + crlf());
    }
}

impl Response {
    /// A fresh response: `HTTP/1.1`, status `200 OK`, no headers, no body.
    pub fn new() -> (r: Response)
        ensures
            r.http_version == HttpVersion::Http1_1,
            r.status_code.0 == 200,
            r.status_code.1@ == crate::status_code::reason_chars(200),
            r.headers@ == Seq::<(Seq<u8>, Seq<Seq<u8>>)>::empty(),
            distinct_keys(r.headers@),
            r.body@ == Seq::<u8>::empty(),
    {
        Response {
            http_version: HttpVersion::Http1_1,
            status_code: StatusCode(200, "OK"),
            headers: HeaderMap::new(),
            body: Vec::new(),
        }
    }

    /// Serialize this response, appending its wire bytes to `out`.
    /// Writing to an in-memory buffer cannot fail; the `Result` mirrors the
    /// shape callers expect from a sink-directed write.
    pub fn write_to(&self, out: &mut Vec<u8>) -> (r: Result<(), HttpError>)
        ensures
            r is Ok,
            final(out)@ == old(out)@ + spec_encode(*self),
    {
        let ghost base = out@;
        let tok = self.http_version.token();
        push_slice(out, tok.as_bytes());
        out.push(32);
        push_dec(out, self.status_code.0);
        out.push(32);
        push_slice(out, self.status_code.1.as_bytes());
        out.push(13);
        out.push(10);
        proof {
            assert(out@ =~= base + status_line(self.http_version, self.status_code) + crlf());
        }
        let ghost head = out@;
        let n = self.headers.len();
        let mut i: usize = 0;
        while i < n
            invariant
                i <= n == self.headers@.len(),
                out@ == head + header_block(self.headers@.take(i as int)),
            decreases n - i,
        {
            let name = self.headers.name_at(i);
            push_slice(out, name.as_slice());
            out.push(58);
            out.push(32);
            let ghost line_start = out@;
            let vals = self.headers.values_at(i);
            let m = vals.len();
            let mut j: usize = 0;
            while j < m
                invariant
                    j <= m == self.headers@[i as int].1.len(),
                    i < self.headers@.len(),
                    crate::header_map::vecs_view(vals@) == self.headers@[i as int].1,
                    m == vals@.len(),
                    out@ == line_start + join_values(self.headers@[i as int].1.take(j as int)),
                decreases m - j,
            {
                if j > 0 {
                    out.push(59);
                }
                push_slice(out, vals[j].as_slice());
                proof {
                    let vv = self.headers@[i as int].1;
                    assert(vals@[j as int]@ == vv[j as int]);
                    assert(vv.take(j + 1) =~= vv.take(j as int).push(vv[j as int]));
                    lemma_join_snoc(vv.take(j as int), vv[j as int]);
                    if j == 0 {
                        assert(vv.take(0int) =~= Seq::<Seq<u8>>::empty());
                    }
                }
                j = j + 1;
            }
            out.push(13);
            out.push(10);
            proof {
                let es = self.headers@;
                let vv = es[i as int].1;
                assert(vv.take(vv.len() as int) =~= vv);
                assert(out@ =~= line_start + join_values(vv) + crlf());
                assert(line_start =~= head + header_block(es.take(i as int)) + es[i as int].0
                    + seq![58u8, 32u8]);
                assert(out@ =~= head + header_block(es.take(i as int)) + header_line(es[i as int])
                    + crlf());
                lemma_block_snoc(es.take(i as int), es[i as int]);
                assert(es.take(i + 1) =~= es.take(i as int).push(es[i as int]));
                assert(out@ =~= head + header_block(es.take(i + 1)));
            }
            i = i + 1;
        }
        out.push(13);
        out.push(10);
        proof {
            assert(self.headers@.take(self.headers@.len() as int) =~= self.headers@);
            assert(out@ =~= head + header_block(self.headers@) + crlf());
        }
        push_slice(out, self.body.as_slice());
        proof {
            assert(out@ =~= base + spec_encode(*self));
        }
        Ok(())
    }
}

/// The blank-line separator `\r\n\r\n` occurs in `s` at position `i`.
pub open spec fn has_separator_at(s: Seq<u8>, i: int) -> bool {
    &&& 0 <= i
    &&& i + 4 <= s.len()
    &&& s[i] == 13
    &&& s[i + 1] == 10
    &&& s[i + 2] == 13
    &&& s[i + 3] == 10
}

/// Everything the encoder emits before the body: status line, header
/// block, and the blank-line separator.
pub open spec fn pre_body(r: Response) -> Seq<u8> {
    status_line(r.http_version, r.status_code) + crlf() + header_block(r.headers@) + crlf()
}

proof fn lemma_join_crlf_free(vals: Seq<Seq<u8>>)
    requires
        forall|j: int| 0 <= j < vals.len() ==> crlf_free(#[trigger] vals[j]),
    ensures
        crlf_free(join_values(vals)),
    decreases vals.len(),
{
    if vals.len() > 1 {
        assert(forall|j: int| 0 <= j < vals.skip(1).len() ==> crlf_free(
            #[trigger] vals.skip(1)[j],
        ));
        lemma_join_crlf_free(vals.skip(1));
    }
}

proof fn lemma_line_crlf_free(e: (Seq<u8>, Seq<Seq<u8>>))
    requires
        crlf_free(e.0),
        forall|j: int| 0 <= j < e.1.len() ==> crlf_free(#[trigger] e.1[j]),
    ensures
        crlf_free(header_line(e)),
        header_line(e).len() >= 2,
        header_line(e)[0] != 13,
{
    lemma_join_crlf_free(e.1);
}

/// In a header block followed by its blank line, the final `\r\n\r\n` is
/// the only one, and it is there exactly when the block is non-empty.
proof fn lemma_block_single_sep(es: Seq<(Seq<u8>, Seq<Seq<u8>>)>)
    requires
        forall|k: int| 0 <= k < es.len() ==> crlf_free((#[trigger] es[k]).0),
        forall|k: int, j: int|
            0 <= k < es.len() && 0 <= j < es[k].1.len() ==> crlf_free(#[trigger] es[k].1[j]),
    ensures
        (header_block(es) + crlf()).len() >= 2,
        es.len() > 0 ==> (header_block(es) + crlf())[0] != 13,
        es.len() > 0 ==> has_separator_at(
            header_block(es) + crlf(),
            (header_block(es) + crlf()).len() - 4,
        ),
        forall|i: int|
            #[trigger] has_separator_at(header_block(es) + crlf(), i) ==> es.len() > 0 && i == (
            header_block(es) + crlf()).len() - 4,
    decreases es.len(),
{
    let t = header_block(es) + crlf();
    if es.len() == 0 {
        assert(t =~= crlf());
    } else {
        let rest = es.skip(1);
        assert(forall|k: int| 0 <= k < rest.len() ==> crlf_free((#[trigger] rest[k]).0));
        assert(forall|k: int, j: int|
            0 <= k < rest.len() && 0 <= j < rest[k].1.len() ==> crlf_free(
                #[trigger] rest[k].1[j],
            )) by {
            assert(forall|k: int| 0 <= k < rest.len() ==> (#[trigger] rest[k]) == es[k + 1]);
        }
        lemma_block_single_sep(rest);
        lemma_line_crlf_free(es[0]);
        let line0 = header_line(es[0]);
        let l = line0.len() as int;
        let tr = header_block(rest) + crlf();
        assert(t =~= line0 + crlf() + tr);
        if rest.len() == 0 {
            assert(tr =~= crlf());
        }
        assert(has_separator_at(t, t.len() - 4)) by {
            if rest.len() == 0 {
                assert(t =~= line0 + crlf() + crlf());
            } else {
                assert(has_separator_at(tr, tr.len() - 4));
                assert(t.len() - 4 == l + 2 + (tr.len() - 4));
            }
        }
        assert forall|i: int| #[trigger] has_separator_at(t, i) implies es.len() > 0 && i == t.len()
            - 4 by {
            if i < l {
                assert(t[i] == line0[i]);
                assert(false);
            } else if i == l {
                assert(t[i + 2] == tr[0]);
                if rest.len() > 0 {
                    assert(tr[0] != 13);
                    assert(false);
                } else {
                    assert(t.len() == l + 4);
                }
            } else if i == l + 1 {
                assert(t[i] == 10);
                assert(false);
            } else {
                assert(t[i] == tr[i - l - 2]);
                assert(t[i + 1] == tr[i - l - 1]);
                assert(t[i + 2] == tr[i - l]);
                assert(t[i + 3] == tr[i - l + 1]);
                assert(has_separator_at(tr, i - l - 2));
            }
        }
    }
}

proof fn lemma_version_crlf_free(v: HttpVersion)
    ensures
        crlf_free(version_bytes(v)),
        version_bytes(v).len() > 0,
{
    reveal_strlit("HTTP/1.0");
    reveal_strlit("HTTP/1.1");
    reveal_strlit("HTTP/2.0");
    broadcast use vstd::string::is_ascii_spec_bytes;

    assert(is_ascii("HTTP/1.0"));
    assert(is_ascii("HTTP/1.1"));
    assert(is_ascii("HTTP/2.0"));
    match v {
        HttpVersion::Http1_0 => {
            assert(version_bytes(v) =~= seq![72u8, 84, 84, 80, 47, 49, 46, 48]);
        },
        HttpVersion::Http1_1 => {
            assert(version_bytes(v) =~= seq![72u8, 84, 84, 80, 47, 49, 46, 49]);
        },
        HttpVersion::Http2_0 => {
            assert(version_bytes(v) =~= seq![72u8, 84, 84, 80, 47, 50, 46, 48]);
        },
    }
}

/// The encoded bytes are the header section, one blank-line separator, and
/// the body; the separator is the only `\r\n\r\n` occurrence in the header
/// section, provided no header name, header value, or the reason phrase
/// holds a CR or LF byte.  (The encoder does not check that proviso; it is
/// a precondition on inputs.)
#[verifier::rlimit(100)]
pub proof fn lemma_single_separator(r: Response)
    requires
        crlf_free(r.status_code.1.spec_bytes()),
        forall|k: int| 0 <= k < r.headers@.len() ==> crlf_free((#[trigger] r.headers@[k]).0),
        forall|k: int, j: int|
            0 <= k < r.headers@.len() && 0 <= j < r.headers@[k].1.len() ==> crlf_free(
                #[trigger] r.headers@[k].1[j],
            ),
    ensures
        spec_encode(r) == pre_body(r) + r.body@,
        has_separator_at(pre_body(r), pre_body(r).len() - 4),
        forall|i: int| #[trigger] has_separator_at(pre_body(r), i) ==> i == pre_body(r).len() - 4,
{
    assert(spec_encode(r) =~= pre_body(r) + r.body@);
    lemma_block_single_sep(r.headers@);
    lemma_version_crlf_free(r.http_version);
    crate::ascii::lemma_dec_digits_digits(r.status_code.0 as nat);
    let s = status_line(r.http_version, r.status_code);
    let vb = version_bytes(r.http_version);
    let dd = dec_digits(r.status_code.0 as nat);
    let rb = r.status_code.1.spec_bytes();
    assert forall|k: int| 0 <= k < s.len() implies (#[trigger] s[k]) != 13 && s[k] != 10 by {
        if k < vb.len() {
            assert(s[k] == vb[k]);
        } else if k == vb.len() {
            assert(s[k] == 32);
        } else if k < vb.len() + 1 + dd.len() {
            assert(s[k] == dd[k - vb.len() - 1]);
        } else if k == vb.len() + 1 + dd.len() {
            assert(s[k] == 32);
        } else {
            assert(s[k] == rb[k - vb.len() - dd.len() - 2]);
        }
    }
    let es = r.headers@;
    let t = header_block(es) + crlf();
    let p = pre_body(r);
    let l = s.len() as int;
    assert(p =~= s + crlf() + t);
    assert(has_separator_at(p, p.len() - 4)) by {
        if es.len() == 0 {
            assert(p =~= s + crlf() + crlf());
        } else {
            assert(has_separator_at(t, t.len() - 4));
            assert(p.len() - 4 == l + 2 + (t.len() - 4));
        }
    }
    assert forall|i: int| #[trigger] has_separator_at(p, i) implies i == p.len() - 4 by {
        if i < l {
            assert(p[i] == s[i]);
            assert(false);
        } else if i == l {
            assert(p[i + 2] == t[0]);
            if es.len() > 0 {
                assert(t[0] != 13);
                assert(false);
            } else {
                assert(t =~= crlf());
                assert(p.len() == l + 4);
            }
        } else if i == l + 1 {
            assert(p[i] == 10);
            assert(false);
        } else {
            assert(p[i] == t[i - l - 2]);
            assert(p[i + 1] == t[i - l - 1]);
            assert(p[i + 2] == t[i - l]);
            assert(p[i + 3] == t[i - l + 1]);
            assert(has_separator_at(t, i - l - 2));
        }
    }
}

/// A response with no headers and no body encodes to exactly
/// `<version> <code> <reason>` followed by a blank line: the status line,
/// its terminator, and the empty-header terminator.
pub proof fn lemma_encode_empty(r: Response)
    requires
        r.headers@.len() == 0,
        r.body@.len() == 0,
    ensures
        spec_encode(r) == version_bytes(r.http_version) + " ".spec_bytes() + dec_digits(
            r.status_code.0 as nat,
        ) + " ".spec_bytes() + r.status_code.1.spec_bytes() + "\r\n\r\n".spec_bytes(),
{
    reveal_strlit(" ");
    reveal_strlit("\r\n\r\n");
    broadcast use vstd::string::is_ascii_spec_bytes;

    assert(is_ascii(" "));
    assert(is_ascii("\r\n\r\n"));
    assert(" ".spec_bytes() =~= seq![32u8]);
    assert("\r\n\r\n".spec_bytes() =~= crlf() + crlf());
    assert(spec_encode(r) =~= version_bytes(r.http_version) + " ".spec_bytes() + dec_digits(
        r.status_code.0 as nat,
    ) + " ".spec_bytes() + r.status_code.1.spec_bytes() + "\r\n\r\n".spec_bytes());
}

} // verus!
