//! HTTP methods: the standard verbs, and how a method token is read.

use vstd::prelude::*;
use crate::text::ascii_seq;
use crate::text::lit_bytes;

verus! {

broadcast use vstd::string::group_string_axioms;

#[derive(Clone, Copy, Debug, PartialEq, Eq, Structural)]
/// A standard HTTP verb. Any other token in the request line is a
/// `RequestMethodInvalid` parse error.
pub enum Method {
    Get,
    Post,
    Put,
    Delete,
    Head,
    Options,
    Connect,
    Patch,
    Trace,
}

/// The wire name of a method.
pub open spec fn spec_method_name(m: Method) -> Seq<u8> {
    match m {
        Method::Get => ascii_seq("GET"@),
        Method::Post => ascii_seq("POST"@),
        Method::Put => ascii_seq("PUT"@),
        Method::Delete => ascii_seq("DELETE"@),
        Method::Head => ascii_seq("HEAD"@),
        Method::Options => ascii_seq("OPTIONS"@),
        Method::Connect => ascii_seq("CONNECT"@),
        Method::Patch => ascii_seq("PATCH"@),
        Method::Trace => ascii_seq("TRACE"@),
    }
}

/// The method a token names, if any.
pub open spec fn spec_parse_method(s: Seq<u8>) -> Option<Method> {
    if s == spec_method_name(Method::Get) {
        Some(Method::Get)
    } else if s == spec_method_name(Method::Post) {
        Some(Method::Post)
    } else if s == spec_method_name(Method::Put) {
        Some(Method::Put)
    } else if s == spec_method_name(Method::Delete) {
        Some(Method::Delete)
    } else if s == spec_method_name(Method::Head) {
        Some(Method::Head)
    } else if s == spec_method_name(Method::Options) {
        Some(Method::Options)
    } else if s == spec_method_name(Method::Connect) {
        Some(Method::Connect)
    } else if s == spec_method_name(Method::Patch) {
        Some(Method::Patch)
    } else if s == spec_method_name(Method::Trace) {
        Some(Method::Trace)
    } else {
        None
    }
}

/// Reading a method's own wire name gives that method back.
pub proof fn lemma_method_name_parses(m: Method)
    ensures
        spec_parse_method(spec_method_name(m)) == Some(m),
{
    reveal_strlit("GET");
    reveal_strlit("POST");
    reveal_strlit("PUT");
    reveal_strlit("DELETE");
    reveal_strlit("HEAD");
    reveal_strlit("OPTIONS");
    reveal_strlit("CONNECT");
    reveal_strlit("PATCH");
    reveal_strlit("TRACE");
    assert(ascii_seq("GET"@)[0] == 71u8);
    assert(ascii_seq("POST"@)[0] == 80u8);
    assert(ascii_seq("PUT"@)[0] == 80u8);
    assert(ascii_seq("PUT"@)[1] == 85u8);
    assert(ascii_seq("POST"@)[1] == 79u8);
    assert(ascii_seq("DELETE"@)[0] == 68u8);
    assert(ascii_seq("HEAD"@)[0] == 72u8);
    assert(ascii_seq("OPTIONS"@)[0] == 79u8);
    assert(ascii_seq("CONNECT"@)[0] == 67u8);
    assert(ascii_seq("PATCH"@)[0] == 80u8);
    assert(ascii_seq("PATCH"@)[1] == 65u8);
    assert(ascii_seq("TRACE"@)[0] == 84u8);
    assert(ascii_seq("TRACE"@)[1] == 82u8);
    assert(ascii_seq("GET"@).len() == 3);
    assert(ascii_seq("PUT"@).len() == 3);
    assert(ascii_seq("POST"@).len() == 4);
    assert(ascii_seq("HEAD"@).len() == 4);
    assert(ascii_seq("DELETE"@).len() == 6);
    assert(ascii_seq("OPTIONS"@).len() == 7);
    assert(ascii_seq("CONNECT"@).len() == 7);
    assert(ascii_seq("PATCH"@).len() == 5);
    assert(ascii_seq("TRACE"@).len() == 5);
}

/// Compares two byte strings.
pub fn bytes_eq(a: &[u8], b: &[u8]) -> (r: bool)
    ensures
        r <==> a@ == b@,
{
    if a.len() != b.len() {
        proof {
            assert(a@ != b@);
        }
        return false;
    }
    let mut i: usize = 0;
    while i < a.len()
        invariant
            i <= a@.len(),
            a@.len() == b@.len(),
            forall|j: int| 0 <= j < i ==> a@[j] == b@[j],
        decreases a@.len() - i,
    {
        if a[i] != b[i] {
            proof {
                assert(a@ != b@);
            }
            return false;
        }
        i = i + 1;
    }
    proof {
        assert(a@ =~= b@);
    }
    true
}

impl Method {
    /// Reads a method token from the request line.
    pub fn parse(token: &[u8]) -> (r: Option<Method>)
        ensures
            r == spec_parse_method(token@),
    {
        proof {
            reveal_strlit("GET");
            reveal_strlit("POST");
            reveal_strlit("PUT");
            reveal_strlit("DELETE");
            reveal_strlit("HEAD");
            reveal_strlit("OPTIONS");
            reveal_strlit("CONNECT");
            reveal_strlit("PATCH");
            reveal_strlit("TRACE");
        }
        if bytes_eq(token, lit_bytes("GET").as_slice()) {
            Some(Method::Get)
        } else if bytes_eq(token, lit_bytes("POST").as_slice()) {
            Some(Method::Post)
        } else if bytes_eq(token, lit_bytes("PUT").as_slice()) {
            Some(Method::Put)
        } else if bytes_eq(token, lit_bytes("DELETE").as_slice()) {
            Some(Method::Delete)
        } else if bytes_eq(token, lit_bytes("HEAD").as_slice()) {
            Some(Method::Head)
        } else if bytes_eq(token, lit_bytes("OPTIONS").as_slice()) {
            Some(Method::Options)
        } else if bytes_eq(token, lit_bytes("CONNECT").as_slice()) {
            Some(Method::Connect)
        } else if bytes_eq(token, lit_bytes("PATCH").as_slice()) {
            Some(Method::Patch)
        } else if bytes_eq(token, lit_bytes("TRACE").as_slice()) {
            Some(Method::Trace)
        } else {
            None
        }
    }
}

} // verus!
