//! Decoding an HTTP/1.1 request head: the request line's three tokens,
//! then header lines until the blank line that ends the head. The request
//! never carries a body.

use vstd::prelude::*;
use crate::err::Error;
use crate::headers::Headers;
use crate::headers::is_tchar;
use crate::headers::spec_insert;
use crate::headers::wf_entries;
use crate::headers::wf_name;
use crate::headers::wf_value;
use crate::method::Method;
use crate::method::spec_parse_method;
use crate::text::ascii_seq;
use crate::text::copy_range;
use crate::text::find_byte;
use crate::text::lemma_find_none;
use crate::text::lemma_find_unique;
use crate::text::lit_bytes;
use crate::text::lower_bytes;
use crate::text::spec_find;
use crate::text::spec_lines;
use crate::text::spec_lower;
use crate::text::spec_trim;
use crate::text::split_lines;
use crate::text::trim_bytes;
use crate::uri::parse_uri_path;
use crate::uri::uri_ref_path;

verus! {

broadcast use vstd::string::group_string_axioms;

/// The mathematical shape of a parsed request.
pub ghost struct ReqView {
    pub method: Method,
    pub target: Seq<u8>,
    pub path: Seq<u8>,
    pub headers: Seq<(Seq<u8>, Seq<u8>)>,
}

/// A parsed request: the verb, the raw request-target, the target's path
/// component, and the header map.
#[derive(Debug)]
pub struct Request {
    pub method: Method,
    pub target: Vec<u8>,
    pub path: Vec<u8>,
    pub headers: Headers,
}

impl View for Request {
    type V = ReqView;

    open spec fn view(&self) -> ReqView {
        ReqView {
            method: self.method,
            target: self.target@,
            path: self.path@,
            headers: self.headers@,
        }
    }
}

impl Request {
    /// The parser only builds requests whose header map is well-formed.
    pub open spec fn wf(&self) -> bool {
        self.headers.wf()
    }
}

/// What the request line says. The tokens are checked the way the server
/// reads them: the method first, then the request-target, then that the
/// third token exists and is the literal `HTTP/1.1`; tokens past the third
/// are ignored.
pub open spec fn spec_parse_request_line(line: Seq<u8>) -> Result<(Method, Seq<u8>), Error> {
    match spec_find(line, 32) {
        None => match spec_parse_method(line) {
            None => Err(Error::RequestMethodInvalid),
            Some(m) => Err(Error::RequestTargetInvalid),
        },
        Some(i) => {
            let t0 = line.take(i);
            let rest = line.skip(i + 1);
            match spec_parse_method(t0) {
                None => Err(Error::RequestMethodInvalid),
                Some(m) => match spec_find(rest, 32) {
                    None => if uri_ref_path(rest) is Some {
                        Err(Error::RequestLineMalformed)
                    } else {
                        Err(Error::RequestTargetInvalid)
                    },
                    Some(j) => {
                        let t1 = rest.take(j);
                        let rest2 = rest.skip(j + 1);
                        let t2 = match spec_find(rest2, 32) {
                            None => rest2,
                            Some(k) => rest2.take(k),
                        };
                        if uri_ref_path(t1) is None {
                            Err(Error::RequestTargetInvalid)
                        } else if t2 != ascii_seq("HTTP/1.1"@) {
                            Err(Error::HttpVersionUnsupported)
                        } else {
                            Ok((m, t1))
                        }
                    },
                },
            }
        },
    }
}

/// What a header line says: the bytes before the first `:` are the name (a
/// nonempty token, stored lowercase), the bytes after it, trimmed of
/// whitespace, are the value (which must be free of CR). A line without a
/// `:`, a bad name, or a bad value is malformed.
pub open spec fn spec_parse_header_line(line: Seq<u8>) -> Result<(Seq<u8>, Seq<u8>), Error> {
    match spec_find(line, 58) {
        None => Err(Error::HeaderMalformed),
        Some(i) => {
            let name = line.take(i);
            let value = spec_trim(line.skip(i + 1));
            if name.len() > 0 && (forall|k: int| 0 <= k < name.len() ==> is_tchar(#[trigger] name[k]))
                && wf_value(value) {
                Ok((spec_lower(name), value))
            } else {
                Err(Error::HeaderMalformed)
            }
        },
    }
}

/// Folds header lines into the map until the blank line that ends the
/// head; running out of lines first means the head was cut short.
pub open spec fn spec_parse_header_block(
    lines: Seq<Seq<u8>>,
    acc: Seq<(Seq<u8>, Seq<u8>)>,
) -> Result<Seq<(Seq<u8>, Seq<u8>)>, Error>
    decreases lines.len(),
{
    if lines.len() == 0 {
        Err(Error::HeaderMalformed)
    } else if lines[0].len() == 0 {
        Ok(acc)
    } else {
        match spec_parse_header_line(lines[0]) {
            Err(e) => Err(e),
            Ok((n, v)) => spec_parse_header_block(lines.drop_first(), spec_insert(acc, n, v)),
        }
    }
}

/// What a request head means: nothing at all for an empty stream, or a
/// request line followed by headers up to a blank line, or the first error
/// in the order the head is read.
pub open spec fn spec_parse_request(s: Seq<u8>) -> Result<Option<ReqView>, Error> {
    if s.len() == 0 {
        Ok(None)
    } else {
        let lines = spec_lines(s);
        match spec_parse_request_line(lines[0]) {
            Err(e) => Err(e),
            Ok((m, target)) => match spec_parse_header_block(
                lines.drop_first(),
                Seq::empty(),
            ) {
                Err(e) => Err(e),
                Ok(hs) => Ok(
                    Some(
                        ReqView {
                            method: m,
                            target: target,
                            path: uri_ref_path(target)->Some_0,
                            headers: hs,
                        },
                    ),
                ),
            },
        }
    }
}

/// A head is complete once some line in it is empty.
pub open spec fn spec_head_complete(s: Seq<u8>) -> bool {
    exists|i: int| 0 <= i < spec_lines(s).len() && spec_lines(s)[i].len() == 0
}

/// Reports whether the bytes read so far hold a full request head, that
/// is, whether the blank line ending the head has arrived.
pub fn head_complete(s: &[u8]) -> (r: bool)
    ensures
        r == spec_head_complete(s@),
{
    let lines = split_lines(s);
    let mut i: usize = 0;
    while i < lines.len()
        invariant
            i <= lines@.len(),
            lines.deep_view() == spec_lines(s@),
            lines@.len() == lines.deep_view().len(),
            forall|j: int| 0 <= j < i ==> spec_lines(s@)[j].len() != 0,
        decreases lines@.len() - i,
    {
        proof {
            assert(lines.deep_view()[i as int] =~= lines@[i as int]@);
        }
        if lines[i].len() == 0 {
            return true;
        }
        i = i + 1;
    }
    false
}

/// Reads the request line.
fn parse_request_line(line: &Vec<u8>) -> (r: Result<(Method, Vec<u8>, Vec<u8>), Error>)
    ensures
        match r {
            Ok((m, target, path)) => spec_parse_request_line(line@) == Ok::<_, Error>(
                (m, target@),
            ) && uri_ref_path(target@) == Some(path@),
            Err(e) => spec_parse_request_line(line@) == Err::<(Method, Seq<u8>), _>(e),
        },
{
    let n = line.len();
    match find_byte(line.as_slice(), 0, 32) {
        None => {
            proof {
                lemma_find_none(line@, 32);
            }
            match Method::parse(line.as_slice()) {
                None => Err(Error::RequestMethodInvalid),
                Some(_) => Err(Error::RequestTargetInvalid),
            }
        },
        Some(i) => {
            proof {
                lemma_find_unique(line@, 32, i as int);
            }
            let t0 = copy_range(line.as_slice(), 0, i);
            let rest = copy_range(line.as_slice(), i + 1, n);
            proof {
                assert(t0@ =~= line@.take(i as int));
                assert(rest@ =~= line@.skip(i as int + 1));
            }
            match Method::parse(t0.as_slice()) {
                None => Err(Error::RequestMethodInvalid),
                Some(m) => {
                    let rn = rest.len();
                    match find_byte(rest.as_slice(), 0, 32) {
                        None => {
                            proof {
                                lemma_find_none(rest@, 32);
                            }
                            match parse_uri_path(rest.as_slice()) {
                                Some(_) => Err(Error::RequestLineMalformed),
                                None => Err(Error::RequestTargetInvalid),
                            }
                        },
                        Some(j) => {
                            proof {
                                lemma_find_unique(rest@, 32, j as int);
                            }
                            let t1 = copy_range(rest.as_slice(), 0, j);
                            let rest2 = copy_range(rest.as_slice(), j + 1, rn);
                            proof {
                                assert(t1@ =~= rest@.take(j as int));
                                assert(rest2@ =~= rest@.skip(j as int + 1));
                            }
                            let r2n = rest2.len();
                            let t2 = match find_byte(rest2.as_slice(), 0, 32) {
                                None => {
                                    proof {
                                        lemma_find_none(rest2@, 32);
                                    }
                                    rest2
                                },
                                Some(k) => {
                                    proof {
                                        lemma_find_unique(rest2@, 32, k as int);
                                    }
                                    let t = copy_range(rest2.as_slice(), 0, k);
                                    proof {
                                        assert(t@ =~= rest2@.take(k as int));
                                    }
                                    t
                                },
                            };
                            match parse_uri_path(t1.as_slice()) {
                                None => Err(Error::RequestTargetInvalid),
                                Some(path) => {
                                    proof {
                                        reveal_strlit("HTTP/1.1");
                                    }
                                    if crate::method::bytes_eq(
                                        t2.as_slice(),
                                        lit_bytes("HTTP/1.1").as_slice(),
                                    ) {
                                        Ok((m, t1, path))
                                    } else {
                                        Err(Error::HttpVersionUnsupported)
                                    }
                                },
                            }
                        },
                    }
                },
            }
        },
    }
}

/// Reads one header line into its lowercased name and trimmed value.
#[verifier::loop_isolation(false)]
pub(crate) fn parse_header_line(line: &Vec<u8>) -> (r: Result<(Vec<u8>, Vec<u8>), Error>)
    ensures
        match r {
            Ok((n, v)) => spec_parse_header_line(line@) == Ok::<_, Error>((n@, v@)) && wf_name(n@)
                && wf_value(v@),
            Err(e) => spec_parse_header_line(line@) == Err::<(Seq<u8>, Seq<u8>), _>(e),
        },
{
    let ln = line.len();
    match find_byte(line.as_slice(), 0, 58) {
        None => {
            proof {
                lemma_find_none(line@, 58);
            }
            Err(Error::HeaderMalformed)
        },
        Some(i) => {
            proof {
                lemma_find_unique(line@, 58, i as int);
            }
            let name = copy_range(line.as_slice(), 0, i);
            let value = trim_bytes(vstd::slice::slice_subrange(line.as_slice(), i + 1, ln));
            proof {
                assert(name@ =~= line@.take(i as int));
                assert(value@ == spec_trim(line@.skip(i as int + 1)));
            }
            if name.len() == 0 {
                return Err(Error::HeaderMalformed);
            }
            let mut k: usize = 0;
            while k < name.len()
                invariant
                    k <= name@.len(),
                    forall|j: int| 0 <= j < k ==> is_tchar(#[trigger] name@[j]),
                decreases name@.len() - k,
            {
                let b = name[k];
                let ok = (97 <= b && b <= 122) || (65 <= b && b <= 90) || (48 <= b && b <= 57) || b
                    == 33 || (35 <= b && b <= 39) || b == 42 || b == 43 || b == 45 || b == 46 || b
                    == 94 || b == 95 || b == 96 || b == 124 || b == 126;
                if !ok {
                    proof {
                        assert(!is_tchar(name@[k as int]));
                    }
                    return Err(Error::HeaderMalformed);
                }
                k = k + 1;
            }
            let mut k: usize = 0;
            while k < value.len()
                invariant
                    k <= value@.len(),
                    forall|j: int| 0 <= j < k ==> value@[j] != 13 && value@[j] != 10,
                decreases value@.len() - k,
            {
                let b = value[k];
                if b == 13 || b == 10 {
                    proof {
                        assert(!wf_value(value@));
                    }
                    return Err(Error::HeaderMalformed);
                }
                k = k + 1;
            }
            let lname = lower_bytes(name.as_slice());
            proof {
                assert forall|j: int| 0 <= j < lname@.len() implies is_tchar(#[trigger] lname@[j])
                    && !(65 <= lname@[j] <= 90) by {
                    assert(is_tchar(name@[j]));
                }
                assert(wf_name(lname@));
            }
            Ok((lname, value))
        },
    }
}

/// Decodes one request head. An empty head means the peer closed before
/// sending anything: that is "no request", not an error. The head is
/// everything up to (and including) the blank line that `head_complete`
/// waits for; a head cut short before that line is a header error.
#[verifier::loop_isolation(false)]
pub fn parse_request(head: &[u8]) -> (r: Result<Option<Request>, Error>)
    ensures
        match (r, spec_parse_request(head@)) {
            (Ok(Some(req)), Ok(Some(v))) => req@ == v && req.wf(),
            (Ok(None), Ok(None)) => true,
            (Err(e1), Err(e2)) => e1 == e2,
            _ => false,
        },
{
    if head.len() == 0 {
        return Ok(None);
    }
    let lines = split_lines(head);
    proof {
        assert(spec_lines(head@).len() > 0);
        assert(lines.deep_view()[0] =~= lines@[0]@);
    }
    let (method, target, path) = match parse_request_line(&lines[0]) {
        Ok(t) => t,
        Err(e) => {
            return Err(e);
        },
    };
    let mut headers = Headers::new();
    let ghost header_lines = spec_lines(head@).drop_first();
    proof {
        assert(header_lines =~= spec_lines(head@).skip(1));
    }
    let mut idx: usize = 1;
    loop
        invariant
            1 <= idx <= lines@.len(),
            lines.deep_view() == spec_lines(head@),
            lines@.len() == lines.deep_view().len(),
            headers.wf(),
            spec_parse_header_block(header_lines, Seq::empty())
                == spec_parse_header_block(lines.deep_view().skip(idx as int), headers@),
        decreases lines@.len() - idx,
    {
        if idx >= lines.len() {
            proof {
                assert(lines.deep_view().skip(idx as int) =~= Seq::<Seq<u8>>::empty());
            }
            return Err(Error::HeaderMalformed);
        }
        proof {
            assert(lines.deep_view()[idx as int] =~= lines@[idx as int]@);
            assert(lines.deep_view().skip(idx as int)[0] == lines.deep_view()[idx as int]);
        }
        let line = &lines[idx];
        if line.len() == 0 {
            proof {
                assert(spec_parse_header_block(lines.deep_view().skip(idx as int), headers@)
                    == Ok::<_, Error>(headers@));
            }
            return Ok(
                Some(
                    Request {
                        method,
                        target,
                        path,
                        headers,
                    },
                ),
            );
        }
        let ghost rest_before = lines.deep_view().skip(idx as int);
        match parse_header_line(line) {
            Ok((n, v)) => {
                let ghost acc_before = headers@;
                headers.insert(n, v);
                idx = idx + 1;
                proof {
                    assert(rest_before.drop_first() =~= lines.deep_view().skip(idx as int));
                }
            },
            Err(e) => {
                return Err(e);
            },
        }
    }
}

} // verus!
