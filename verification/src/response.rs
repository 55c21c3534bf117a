//! The HTTP response and its serialized form: status line, header lines in
//! map order, a blank line, then the body bytes. `Content-Length` is
//! derived from the body at encoding time, overwriting any caller-set
//! value.

use vstd::prelude::*;
use crate::headers::Headers;
use crate::headers::spec_insert;
use crate::headers::wf_entries;
use crate::headers::wf_name;
use crate::headers::wf_value;
use crate::range::spec_u64_digits;
use crate::range::is_digit;
use crate::text::ascii_seq;
use crate::text::lit_bytes;

verus! {

broadcast use vstd::string::group_string_axioms;

/// The mathematical shape of a response.
pub ghost struct RespView {
    pub status: u16,
    pub headers: Seq<(Seq<u8>, Seq<u8>)>,
    pub body: Option<Seq<u8>>,
}

/// A response: status code, headers, and an optional body. Responses whose
/// payload is streamed straight from the resource carry no body here; the
/// transfer happens after the head is written.
pub struct Response {
    pub status: u16,
    pub headers: Headers,
    pub body: Option<Vec<u8>>,
}

impl View for Response {
    type V = RespView;

    open spec fn view(&self) -> RespView {
        RespView {
            status: self.status,
            headers: self.headers@,
            body: match self.body {
                Some(ref b) => Some(b@),
                None => None,
            },
        }
    }
}

/// A CRLF pair.
pub open spec fn crlf() -> Seq<u8> {
    seq![13u8, 10u8]
}

/// One emitted header line: `name: value` and CRLF.
pub open spec fn spec_header_line_bytes(e: (Seq<u8>, Seq<u8>)) -> Seq<u8> {
    e.0 + ascii_seq(": "@) + e.1 + crlf()
}

/// The emitted header block: every entry's line, in map order.
pub open spec fn spec_headers_bytes(h: Seq<(Seq<u8>, Seq<u8>)>) -> Seq<u8>
    decreases h.len(),
{
    if h.len() == 0 {
        Seq::empty()
    } else {
        spec_header_line_bytes(h[0]) + spec_headers_bytes(h.drop_first())
    }
}

/// The status line: `HTTP/1.1`, a space, the status digits, CRLF.
pub open spec fn spec_status_line(status: u16) -> Seq<u8> {
    ascii_seq("HTTP/1.1 "@) + spec_u64_digits(status as int) + crlf()
}

/// The headers a response is emitted with: when a body is present, its
/// exact length overwrites any stored `content-length`.
pub open spec fn spec_headers_out(v: RespView) -> Seq<(Seq<u8>, Seq<u8>)> {
    match v.body {
        Some(b) => spec_insert(
            v.headers,
            ascii_seq("content-length"@),
            spec_u64_digits(b.len() as int),
        ),
        None => v.headers,
    }
}

/// A response's whole wire form.
pub open spec fn spec_encode_response(v: RespView) -> Seq<u8> {
    spec_status_line(v.status) + spec_headers_bytes(spec_headers_out(v)) + crlf() + match v.body {
        Some(b) => b,
        None => Seq::empty(),
    }
}

impl Response {
    /// A response the codec can emit: a sound header map and a three-digit
    /// status code.
    pub open spec fn wf(&self) -> bool {
        self.headers.wf() && 100 <= self.status <= 999
    }

    /// The response a status code alone makes: the default headers with
    /// that code.
    pub fn status(status: u16) -> (r: Response)
        requires
            100 <= status <= 999,
        ensures
            r@.status == status,
            r@.headers == Response::spec_default_headers(),
            r@.body is None,
            r.wf(),
    {
        let mut r = Response::default();
        r.set_status(status);
        r
    }

    /// Replaces the status code.
    pub fn set_status(&mut self, status: u16)
        requires
            100 <= status <= 999,
        ensures
            final(self)@ == (RespView { status, ..old(self)@ }),
            old(self).wf() ==> final(self).wf(),
    {
        self.status = status;
    }

    /// Replaces the whole header map.
    pub fn set_headers(&mut self, headers: Headers)
        ensures
            final(self)@ == (RespView { headers: headers@, ..old(self)@ }),
            old(self).wf() && headers.wf() ==> final(self).wf(),
    {
        self.headers = headers;
    }

    /// Stores a header, overwriting an existing one of the same name.
    pub fn set_header(&mut self, name: Vec<u8>, value: Vec<u8>)
        requires
            old(self).wf(),
            wf_name(name@),
            wf_value(value@),
        ensures
            final(self)@ == (RespView {
                headers: spec_insert(old(self)@.headers, name@, value@),
                ..old(self)@
            }),
            final(self).wf(),
    {
        self.headers.insert(name, value);
    }

    /// A mutable borrow of the headers.
    pub fn headers_mut(&mut self) -> (r: &mut Headers)
        ensures
            *r == old(self).headers,
            *final(self) == (Response {
                status: old(self).status,
                headers: *final(r),
                body: old(self).body,
            }),
    {
        &mut self.headers
    }

    /// Replaces the body.
    pub fn set_body(&mut self, body: Vec<u8>)
        ensures
            final(self)@ == (RespView { body: Some(body@), ..old(self)@ }),
            old(self).wf() ==> final(self).wf(),
    {
        self.body = Some(body);
    }

    /// The same response carrying `body`.
    pub fn with_body(self, body: Vec<u8>) -> (r: Response)
        ensures
            r@ == (RespView { body: Some(body@), ..self@ }),
            self.wf() ==> r.wf(),
    {
        Response { status: self.status, headers: self.headers, body: Some(body) }
    }

    /// The default header map: the server's name, a binary content type,
    /// and keep-alive.
    pub open spec fn spec_default_headers() -> Seq<(Seq<u8>, Seq<u8>)> {
        seq![
            (ascii_seq("server"@), ascii_seq("mikufans_bvc_server"@)),
            (ascii_seq("content-type"@), ascii_seq("application/octet-stream"@)),
            (ascii_seq("connection"@), ascii_seq("keep-alive"@)),
        ]
    }

    /// Serializes the response, deriving `content-length` from the body
    /// when one is present.
    pub fn encode(self) -> (r: Vec<u8>)
        requires
            self.wf(),
        ensures
            r@ == spec_encode_response(self@),
    {
        let ghost v = self@;
        let mut out: Vec<u8> = Vec::new();
        proof {
            reveal_strlit("HTTP/1.1 ");
        }
        push_bytes(&mut out, lit_bytes("HTTP/1.1 ").as_slice());
        let digits = u64_digits(self.status as u64);
        push_bytes(&mut out, digits.as_slice());
        out.push(13);
        out.push(10);
        proof {
            assert(out@ =~= spec_status_line(v.status));
        }
        let mut this = self;
        let body = match this.body {
            Some(b) => {
                let len_digits = u64_digits(b.len() as u64);
                proof {
                    lemma_digits_wf(b@.len() as int);
                    reveal_strlit("content-length");
                    assert(wf_name(ascii_seq("content-length"@)));
                }
                this.headers.insert(lit_bytes("content-length"), len_digits);
                Some(b)
            },
            None => None,
        };
        proof {
            assert(this.headers@ == spec_headers_out(v));
        }
        let hn = this.headers.len();
        let mut i: usize = 0;
        let ghost head_start = out@;
        proof {
            assert(this.headers@.take(0) =~= Seq::<(Seq<u8>, Seq<u8>)>::empty());
            assert(out@ =~= head_start + spec_headers_bytes(this.headers@.take(0)));
        }
        while i < hn
            invariant
                i <= hn,
                hn == this.headers@.len(),
                out@ == head_start + spec_headers_bytes(this.headers@.take(i as int)),
            decreases hn - i,
        {
            let ghost before = out@;
            let (name, value) = this.headers.entry_at(i);
            push_bytes(&mut out, name.as_slice());
            proof {
                reveal_strlit(": ");
            }
            push_bytes(&mut out, lit_bytes(": ").as_slice());
            push_bytes(&mut out, value.as_slice());
            out.push(13);
            out.push(10);
            proof {
                assert(out@ =~= before + spec_header_line_bytes(this.headers@[i as int]));
                lemma_headers_bytes_push(
                    this.headers@.take(i as int),
                    this.headers@[i as int],
                );
                assert(this.headers@.take(i as int).push(this.headers@[i as int]) =~= this
                    .headers@
                    .take(i as int + 1));
                assert(out@ =~= head_start + spec_headers_bytes(this.headers@.take(i as int + 1)));
            }
            i = i + 1;
        }
        proof {
            assert(this.headers@.take(hn as int) =~= this.headers@);
        }
        out.push(13);
        out.push(10);
        match body {
            Some(b) => {
                push_bytes(&mut out, b.as_slice());
                proof {
                    assert(out@ =~= spec_encode_response(v));
                }
            },
            None => {
                proof {
                    assert(out@ =~= spec_encode_response(v));
                }
            },
        }
        out
    }
}

impl Default for Response {
    /// A fresh `200` response carrying the default headers and no body.
    fn default() -> (r: Response)
        ensures
            r@.status == 200,
            r@.headers == Response::spec_default_headers(),
            r@.body is None,
            r.wf(),
    {
        let mut headers = Headers::new();
        proof {
            reveal_strlit("server");
            reveal_strlit("mikufans_bvc_server");
            reveal_strlit("content-type");
            reveal_strlit("application/octet-stream");
            reveal_strlit("connection");
            reveal_strlit("keep-alive");
            assert(wf_name(ascii_seq("server"@)));
            assert(wf_name(ascii_seq("content-type"@)));
            assert(wf_name(ascii_seq("connection"@)));
            assert(wf_value(ascii_seq("mikufans_bvc_server"@)));
            assert(wf_value(ascii_seq("application/octet-stream"@)));
            assert(wf_value(ascii_seq("keep-alive"@)));
        }
        headers.insert(lit_bytes("server"), lit_bytes("mikufans_bvc_server"));
        proof {
            assert(headers@ =~= seq![(ascii_seq("server"@), ascii_seq("mikufans_bvc_server"@))]);
            assert(ascii_seq("server"@).len() == 6);
            assert(ascii_seq("content-type"@).len() == 12);
            assert(ascii_seq("connection"@).len() == 10);
        }
        proof {
            assert(forall|j: int|
                0 <= j < headers@.len() ==> (#[trigger] headers@[j]).0.len() == 6);
            crate::headers::lemma_insert_fresh(
                headers@,
                ascii_seq("content-type"@),
                ascii_seq("application/octet-stream"@),
            );
        }
        headers.insert(lit_bytes("content-type"), lit_bytes("application/octet-stream"));
        proof {
            assert(headers@ =~= seq![
                (ascii_seq("server"@), ascii_seq("mikufans_bvc_server"@)),
                (ascii_seq("content-type"@), ascii_seq("application/octet-stream"@)),
            ]);
        }
        proof {
            assert(forall|j: int|
                0 <= j < headers@.len() ==> (#[trigger] headers@[j]).0.len() == 6 || headers@[j].0.len()
                    == 12);
            crate::headers::lemma_insert_fresh(
                headers@,
                ascii_seq("connection"@),
                ascii_seq("keep-alive"@),
            );
        }
        headers.insert(lit_bytes("connection"), lit_bytes("keep-alive"));
        proof {
            assert(headers@ =~= Response::spec_default_headers());
        }
        Response { status: 200, headers, body: None }
    }
}

/// Appends `src` to `out`.
pub fn push_bytes(out: &mut Vec<u8>, src: &[u8])
    ensures
        final(out)@ == old(out)@ + src@,
{
    let mut i: usize = 0;
    while i < src.len()
        invariant
            i <= src@.len(),
            out@ == old(out)@ + src@.take(i as int),
        decreases src@.len() - i,
    {
        out.push(src[i]);
        proof {
            assert(old(out)@ + src@.take(i as int + 1) =~= (old(out)@ + src@.take(i as int)).push(
                src@[i as int],
            ));
        }
        i = i + 1;
    }
    proof {
        assert(src@.take(src@.len() as int) =~= src@);
    }
}

/// The decimal digits of `n`.
pub fn u64_digits(n: u64) -> (r: Vec<u8>)
    ensures
        r@ == spec_u64_digits(n as int),
{
    let mut m: u64 = n;
    let mut out: Vec<u8> = Vec::new();
    proof {
        assert(spec_u64_digits(n as int) + Seq::<u8>::empty() =~= spec_u64_digits(n as int));
    }
    loop
        invariant
            spec_u64_digits(n as int) == spec_u64_digits(m as int) + out@,
        decreases m,
    {
        let ghost old_out = out@;
        let ghost old_m = m as int;
        let d: u8 = (m % 10) as u8 + 48;
        out.insert(0, d);
        proof {
            assert(out@ =~= seq![d] + old_out);
        }
        if m < 10 {
            proof {
                assert(spec_u64_digits(old_m) =~= seq![d]);
                assert(spec_u64_digits(old_m) + old_out =~= out@);
            }
            return out;
        }
        m = m / 10;
        proof {
            assert(spec_u64_digits(old_m) =~= spec_u64_digits(m as int).push(d));
            assert(spec_u64_digits(m as int).push(d) + old_out =~= spec_u64_digits(m as int)
                + out@);
        }
    }
}

/// Rendered digits make a sound header value: nonempty digits, no CR/LF.
pub proof fn lemma_digits_wf(n: int)
    requires
        n >= 0,
    ensures
        wf_value(spec_u64_digits(n)),
        spec_u64_digits(n).len() > 0,
        forall|i: int| 0 <= i < spec_u64_digits(n).len() ==> is_digit(#[trigger] spec_u64_digits(n)[i]),
{
    crate::range::lemma_u64_digits_roundtrip(n);
}

/// Whether the four bytes at `q` are the CRLF CRLF that ends a message
/// head.
pub open spec fn is_blank_at(s: Seq<u8>, q: int) -> bool {
    &&& 0 <= q
    &&& q + 4 <= s.len()
    &&& s[q] == 13
    &&& s[q + 1] == 10
    &&& s[q + 2] == 13
    &&& s[q + 3] == 10
}

/// The position of the first head-ending CRLF CRLF, if any.
pub open spec fn spec_find_blank(s: Seq<u8>) -> Option<int>
    decreases s.len(),
{
    if s.len() < 4 {
        None
    } else if s[0] == 13 && s[1] == 10 && s[2] == 13 && s[3] == 10 {
        Some(0int)
    } else {
        match spec_find_blank(s.drop_first()) {
            Some(i) => Some(i + 1),
            None => None,
        }
    }
}

/// `spec_find_blank` finds the first blank, or reports that none exists.
pub proof fn lemma_find_blank_first(s: Seq<u8>)
    ensures
        match spec_find_blank(s) {
            Some(p) => is_blank_at(s, p) && (forall|q: int| 0 <= q < p ==> !is_blank_at(s, q)),
            None => forall|q: int| !is_blank_at(s, q),
        },
    decreases s.len(),
{
    if s.len() >= 4 && !(s[0] == 13 && s[1] == 10 && s[2] == 13 && s[3] == 10) {
        let t = s.drop_first();
        lemma_find_blank_first(t);
        assert(forall|j: int| 0 <= j < t.len() ==> t[j] == s[j + 1]);
        assert(forall|q: int| 1 <= q ==> (is_blank_at(s, q) <==> is_blank_at(t, q - 1)));
    } else if s.len() < 4 {
        assert(forall|q: int| !is_blank_at(s, q));
    }
}

/// A position holding a blank, with none before it, is what
/// `spec_find_blank` returns.
pub proof fn lemma_find_blank_unique(s: Seq<u8>, p: int)
    requires
        is_blank_at(s, p),
        forall|q: int| 0 <= q < p ==> !is_blank_at(s, q),
    ensures
        spec_find_blank(s) == Some(p),
    decreases s.len(),
{
    if p > 0 {
        let t = s.drop_first();
        assert(forall|j: int| 0 <= j < t.len() ==> t[j] == s[j + 1]);
        assert(is_blank_at(t, p - 1));
        assert(forall|q: int| 0 <= q < p - 1 ==> !is_blank_at(t, q)) by {
            assert(forall|q: int| 0 <= q < p - 1 ==> (is_blank_at(t, q) ==> is_blank_at(s, q + 1)));
        }
        lemma_find_blank_unique(t, p - 1);
        assert(!is_blank_at(s, 0));
    }
}

/// Folds raw header lines of a response head into a map; every line must
/// be well-formed.
pub open spec fn spec_decode_headers(
    lines: Seq<Seq<u8>>,
    acc: Seq<(Seq<u8>, Seq<u8>)>,
) -> Option<Seq<(Seq<u8>, Seq<u8>)>>
    decreases lines.len(),
{
    if lines.len() == 0 {
        Some(acc)
    } else {
        match crate::request::spec_parse_header_line(lines[0]) {
            Err(e) => None,
            Ok((n, v)) => spec_decode_headers(lines.drop_first(), spec_insert(acc, n, v)),
        }
    }
}

/// What a raw response message means: the head up to the first blank
/// line, split into the status line and header lines, and the raw body
/// after it.
pub open spec fn spec_decode_response(s: Seq<u8>) -> Option<(u16, Seq<(Seq<u8>, Seq<u8>)>, Seq<u8>)> {
    match spec_find_blank(s) {
        None => None,
        Some(p) => {
            let lines = crate::text::spec_lines(s.take(p + 2));
            let body = s.skip(p + 4);
            if lines.len() == 0 {
                None
            } else {
                let sl = lines[0];
                if sl.len() >= 9 && sl.take(9) == ascii_seq("HTTP/1.1 "@) {
                    match crate::range::spec_parse_u64(sl.skip(9)) {
                        Some(code) => if 100 <= code <= 999 {
                            match spec_decode_headers(lines.drop_first(), Seq::empty()) {
                                Some(hs) => Some((code as u16, hs, body)),
                                None => None,
                            }
                        } else {
                            None
                        },
                        None => None,
                    }
                } else {
                    None
                }
            }
        },
    }
}

#[derive(Debug)]
/// A raw response message read back: its status, header map and body.
pub struct DecodedResponse {
    pub status: u16,
    pub headers: Headers,
    pub body: Vec<u8>,
}

/// Reads a raw response message back into its parts.
#[verifier::loop_isolation(false)]
pub fn decode_response(s: &[u8]) -> (r: Option<DecodedResponse>)
    ensures
        match r {
            Some(d) => spec_decode_response(s@) == Some((d.status, d.headers@, d.body@))
                && d.headers.wf(),
            None => spec_decode_response(s@) is None,
        },
{
    let n = s.len();
    let mut q: usize = 0;
    let mut blank: Option<usize> = None;
    while blank.is_none() && n - q >= 4
        invariant
            q <= n,
            n == s@.len(),
            match blank {
                Some(p) => is_blank_at(s@, p as int) && (forall|x: int|
                    0 <= x < p ==> !is_blank_at(s@, x)),
                None => forall|x: int| 0 <= x < q ==> !is_blank_at(s@, x),
            },
            blank is Some ==> q <= n,
        decreases n - q + (if blank is Some { 0int } else { 1int }),
    {
        if s[q] == 13 && s[q + 1] == 10 && s[q + 2] == 13 && s[q + 3] == 10 {
            blank = Some(q);
        } else {
            q = q + 1;
        }
    }
    let p = match blank {
        Some(p) => p,
        None => {
            proof {
                assert forall|x: int| !is_blank_at(s@, x) by {
                    if 0 <= x < q {
                    } else {
                        assert(x < 0 || x + 4 > n);
                    }
                }
                lemma_find_blank_first(s@);
            }
            return None;
        },
    };
    proof {
        lemma_find_blank_unique(s@, p as int);
    }
    let head = crate::text::copy_range(s, 0, p + 2);
    let body = crate::text::copy_range(s, p + 4, n);
    proof {
        assert(head@ =~= s@.take(p as int + 2));
        assert(body@ =~= s@.skip(p as int + 4));
    }
    let lines = crate::text::split_lines(head.as_slice());
    if lines.len() == 0 {
        return None;
    }
    proof {
        assert(lines.deep_view()[0] =~= lines@[0]@);
        reveal_strlit("HTTP/1.1 ");
    }
    let sl = &lines[0];
    if sl.len() < 9 {
        return None;
    }
    let prefix = crate::text::copy_range(sl.as_slice(), 0, 9);
    proof {
        assert(prefix@ =~= sl@.take(9));
    }
    if !crate::method::bytes_eq(prefix.as_slice(), lit_bytes("HTTP/1.1 ").as_slice()) {
        return None;
    }
    let digits = crate::text::copy_range(sl.as_slice(), 9, sl.len());
    proof {
        assert(digits@ =~= sl@.skip(9));
    }
    let code = match crate::range::parse_u64(digits.as_slice()) {
        Some(code) => code,
        None => {
            return None;
        },
    };
    if code < 100 || code > 999 {
        return None;
    }
    let mut headers = Headers::new();
    let ghost all_lines = crate::text::spec_lines(head@);
    proof {
        assert(all_lines.drop_first() =~= all_lines.skip(1));
    }
    let mut idx: usize = 1;
    loop
        invariant
            1 <= idx <= lines@.len(),
            headers.wf(),
            spec_decode_headers(all_lines.drop_first(), Seq::empty()) == spec_decode_headers(
                all_lines.skip(idx as int),
                headers@,
            ),
        decreases lines@.len() - idx,
    {
        if idx >= lines.len() {
            proof {
                assert(all_lines.skip(idx as int) =~= Seq::<Seq<u8>>::empty());
            }
            return Some(DecodedResponse { status: code as u16, headers, body });
        }
        proof {
            assert(all_lines[idx as int] =~= lines@[idx as int]@);
            assert(all_lines.skip(idx as int)[0] == all_lines[idx as int]);
        }
        match crate::request::parse_header_line(&lines[idx]) {
            Ok((hn, hv)) => {
                headers.insert(hn, hv);
                idx = idx + 1;
                proof {
                    assert(all_lines.skip(idx as int - 1).drop_first() =~= all_lines.skip(
                        idx as int,
                    ));
                }
            },
            Err(e) => {
                return None;
            },
        }
    }
}

/// Emitting one more header appends its line.
pub proof fn lemma_headers_bytes_push(h: Seq<(Seq<u8>, Seq<u8>)>, e: (Seq<u8>, Seq<u8>))
    ensures
        spec_headers_bytes(h.push(e)) =~= spec_headers_bytes(h) + spec_header_line_bytes(e),
    decreases h.len(),
{
    if h.len() == 0 {
        assert(h.push(e)[0] == e);
        assert(h.push(e).drop_first() =~= Seq::<(Seq<u8>, Seq<u8>)>::empty());
        assert(spec_headers_bytes(h.push(e).drop_first()) =~= Seq::<u8>::empty());
        assert(spec_headers_bytes(h.push(e)) =~= spec_header_line_bytes(e));
    } else {
        assert(h.push(e)[0] == h[0]);
        assert(h.push(e).drop_first() =~= h.drop_first().push(e));
        lemma_headers_bytes_push(h.drop_first(), e);
        assert(spec_headers_bytes(h.push(e)) =~= spec_header_line_bytes(h[0]) + (
        spec_headers_bytes(h.drop_first()) + spec_header_line_bytes(e)));
        assert(spec_headers_bytes(h) == spec_header_line_bytes(h[0]) + spec_headers_bytes(
            h.drop_first(),
        ));
    }
}

} // verus!
