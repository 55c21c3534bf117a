//! The library's cross-cutting laws, each proved once and for all inputs:
//! how rendered `Range` headers resolve, and what the router then promises
//! about the partial-content head.

use vstd::prelude::*;
use crate::err::Error;
use crate::headers::spec_get;
use crate::headers::spec_insert;
use crate::headers::is_tchar;
use crate::headers::wf_value;
use crate::method::Method;
use crate::method::lemma_method_name_parses;
use crate::method::spec_method_name;
use crate::request::ReqView;
use crate::request::spec_parse_header_block;
use crate::request::spec_parse_header_line;
use crate::request::spec_parse_request;
use crate::request::spec_parse_request_line;
use crate::response::crlf;
use crate::text::spec_lines;
use crate::text::spec_lower;
use crate::text::spec_trim;
use crate::text::strip_cr;
use crate::uri::uri_ref_path;
use crate::range::EndPos;
use crate::range::RangeDirective;
use crate::range::RangeSpec;
use crate::range::StartPos;
use crate::range::is_digit;
use crate::range::lemma_parse_u64_of_digits;
use crate::range::lemma_u64_digits_roundtrip;
use crate::range::spec_parse_range_header;
use crate::range::spec_parse_range_item;
use crate::range::spec_parse_range_items;
use crate::range::spec_resolve_range;
use crate::range::spec_u64_digits;
use crate::router::RouteClass;
use crate::router::spec_build_plan;
use crate::router::spec_content_range_value;
use crate::router::spec_resource_headers_partial;
use crate::text::ascii_seq;
use crate::text::lemma_find_none;
use crate::text::lemma_find_unique;
use crate::text::spec_find;

verus! {

broadcast use vstd::string::group_string_axioms;

/// The header value `bytes=A-B`.
pub open spec fn spec_range_header_explicit(a: u64, b: u64) -> Seq<u8> {
    ascii_seq("bytes="@) + spec_u64_digits(a as int) + seq![45u8] + spec_u64_digits(b as int)
}

/// The header value `bytes=-N`.
pub open spec fn spec_range_header_suffix(n: u64) -> Seq<u8> {
    ascii_seq("bytes="@) + seq![45u8] + spec_u64_digits(n as int)
}

/// `bytes=A-B` parses to the single explicit range `A..B`.
pub proof fn lemma_parse_explicit(a: u64, b: u64)
    ensures
        spec_parse_range_header(spec_range_header_explicit(a, b)) == Some(
            seq![RangeSpec { start: StartPos::Index(a), end: EndPos::Index(b) }],
        ),
{
    reveal_strlit("bytes=");
    let hdr = spec_range_header_explicit(a, b);
    let da = spec_u64_digits(a as int);
    let db = spec_u64_digits(b as int);
    let rest = da + seq![45u8] + db;
    lemma_u64_digits_roundtrip(a as int);
    lemma_u64_digits_roundtrip(b as int);
    assert(hdr.len() >= 6);
    assert(hdr.take(6) =~= ascii_seq("bytes="@));
    assert(hdr.skip(6) =~= rest);
    assert(forall|j: int| 0 <= j < rest.len() ==> rest[j] != 44) by {
        assert(forall|j: int| 0 <= j < da.len() ==> is_digit(#[trigger] da[j]));
        assert(forall|j: int| 0 <= j < db.len() ==> is_digit(#[trigger] db[j]));
        assert(forall|j: int|
            0 <= j < rest.len() ==> #[trigger] rest[j] == (if j < da.len() {
                da[j]
            } else if j == da.len() {
                45u8
            } else {
                db[j - da.len() - 1]
            }));
    }
    lemma_find_none(rest, 44);
    assert(rest[da.len() as int] == 45);
    assert(forall|j: int| 0 <= j < da.len() ==> #[trigger] rest[j] == da[j] && rest[j] != 45);
    lemma_find_unique(rest, 45, da.len() as int);
    assert(rest.take(da.len() as int) =~= da);
    assert(rest.skip(da.len() as int + 1) =~= db);
    lemma_parse_u64_of_digits(a);
    lemma_parse_u64_of_digits(b);
    assert(spec_parse_range_item(rest) == Some(
        RangeSpec { start: StartPos::Index(a), end: EndPos::Index(b) },
    ));
    assert(spec_parse_range_items(rest) == Some(
        seq![RangeSpec { start: StartPos::Index(a), end: EndPos::Index(b) }],
    ));
}

/// `bytes=-N` parses to the single suffix range of the last `N` bytes.
pub proof fn lemma_parse_suffix(n: u64)
    ensures
        spec_parse_range_header(spec_range_header_suffix(n)) == Some(
            seq![RangeSpec { start: StartPos::FromLast(n), end: EndPos::Last }],
        ),
{
    reveal_strlit("bytes=");
    let hdr = spec_range_header_suffix(n);
    let dn = spec_u64_digits(n as int);
    let rest = seq![45u8] + dn;
    lemma_u64_digits_roundtrip(n as int);
    assert(hdr.len() >= 6);
    assert(hdr.take(6) =~= ascii_seq("bytes="@));
    assert(hdr.skip(6) =~= rest);
    assert(forall|j: int| 0 <= j < rest.len() ==> rest[j] != 44) by {
        assert(forall|j: int| 0 <= j < dn.len() ==> is_digit(#[trigger] dn[j]));
        assert(forall|j: int|
            0 <= j < rest.len() ==> #[trigger] rest[j] == (if j == 0 {
                45u8
            } else {
                dn[j - 1]
            }));
    }
    lemma_find_none(rest, 44);
    assert(rest[0] == 45);
    lemma_find_unique(rest, 45, 0);
    assert(rest.take(0) =~= Seq::<u8>::empty());
    assert(rest.skip(1) =~= dn);
    lemma_parse_u64_of_digits(n);
    assert(spec_parse_range_item(rest) == Some(
        RangeSpec { start: StartPos::FromLast(n), end: EndPos::Last },
    ));
}

/// Resolving `bytes=A-B` with `A <= B <= total` serves exactly the span
/// `[A, B)` as partial content.
pub proof fn lemma_resolve_explicit_in_bounds(a: u64, b: u64, total: u64)
    requires
        a <= b <= total,
    ensures
        spec_resolve_range(Some(spec_range_header_explicit(a, b)), total)
            == (RangeDirective::Partial { start: a, end: b }),
{
    lemma_parse_explicit(a, b);
}

/// Resolving `bytes=-N` with `N <= total` serves the final `N` bytes:
/// the span from `total - N` to `total`.
pub proof fn lemma_resolve_suffix_in_bounds(n: u64, total: u64)
    requires
        n <= total,
    ensures
        spec_resolve_range(Some(spec_range_header_suffix(n)), total) == (RangeDirective::Partial {
            start: (total - n) as u64,
            end: total,
        }),
{
    lemma_parse_suffix(n);
}

/// A range that points outside the resource (start past the total, end
/// past the total, or a start after its end) degrades to serving the
/// whole resource: never an error, never a 416.
pub proof fn lemma_resolve_explicit_out_of_bounds(a: u64, b: u64, total: u64)
    requires
        a > total || b > total || a > b,
    ensures
        spec_resolve_range(Some(spec_range_header_explicit(a, b)), total) == RangeDirective::Whole,
{
    lemma_parse_explicit(a, b);
}

/// A suffix of more bytes than the resource has degrades the same way.
pub proof fn lemma_resolve_suffix_out_of_bounds(n: u64, total: u64)
    requires
        n > total,
    ensures
        spec_resolve_range(Some(spec_range_header_suffix(n)), total) == RangeDirective::Whole,
{
    lemma_parse_suffix(n);
}

/// An absent header serves the whole resource.
pub proof fn lemma_resolve_absent(total: u64)
    ensures
        spec_resolve_range(None, total) == RangeDirective::Whole,
{
}

/// A range pointing outside the resource still gets an ordinary 200
/// answer from the router: no error, and no 416.
pub proof fn lemma_out_of_bounds_plan(method: Method, a: u64, b: u64, total: u64)
    requires
        a > total || b > total || a > b,
    ensures
        spec_build_plan(
            method,
            Some(spec_range_header_explicit(a, b)),
            RouteClass::Resource,
            Some(total),
        ).response.status == 200,
{
    lemma_resolve_explicit_out_of_bounds(a, b, total);
}

/// The partial-content plan for `bytes=A-B` within a resource of `total`
/// bytes answers 206 and carries `content-range: bytes A-B/TOTAL` and
/// `content-length` equal to `B - A`, and streams `[A, B)` exactly when
/// the method is GET.
pub proof fn lemma_partial_plan(method: Method, a: u64, b: u64, total: u64)
    requires
        a <= b <= total,
    ensures
        ({
            let p = spec_build_plan(
                method,
                Some(spec_range_header_explicit(a, b)),
                RouteClass::Resource,
                Some(total),
            );
            &&& p.response.status == 206
            &&& spec_get(p.response.headers, ascii_seq("content-range"@)) == Some(
                spec_content_range_value(a, b, total),
            )
            &&& spec_get(p.response.headers, ascii_seq("content-length"@)) == Some(
                spec_u64_digits((b - a) as int),
            )
            &&& p.transfer == (if method == Method::Get {
                Some((a, b))
            } else {
                None::<(u64, u64)>
            })
        }),
{
    lemma_resolve_explicit_in_bounds(a, b, total);
    let h = spec_resource_headers_partial(a, b, total);
    reveal_strlit("content-range");
    reveal_strlit("content-length");
    reveal_strlit("accept-ranges");
    reveal_strlit("server");
    reveal_strlit("content-type");
    reveal_strlit("connection");
    reveal_strlit("access-control-allow-origin");
    reveal_strlit("access-control-allow-methods");
    reveal_strlit("access-control-expose-headers");
    reveal_strlit("access-control-max-age");
    assert(ascii_seq("server"@).len() == 6);
    assert(ascii_seq("content-type"@).len() == 12);
    assert(ascii_seq("connection"@).len() == 10);
    assert(ascii_seq("access-control-allow-origin"@).len() == 27);
    assert(ascii_seq("access-control-allow-methods"@).len() == 28);
    assert(ascii_seq("access-control-expose-headers"@).len() == 29);
    assert(ascii_seq("access-control-max-age"@).len() == 22);
    assert(ascii_seq("content-length"@).len() == 14);
    assert(ascii_seq("content-range"@).len() == 13);
    assert(ascii_seq("accept-ranges"@).len() == 13);
    assert(ascii_seq("accept-ranges"@)[0] == 97u8);
    assert(ascii_seq("content-range"@)[0] == 99u8);
    assert(h[9].0 == ascii_seq("content-range"@));
    assert(forall|j: int| 0 <= j < 9 ==> #[trigger] h[j].0 != ascii_seq("content-range"@));
    crate::headers::lemma_get_found(h, ascii_seq("content-range"@), 9);
    assert(h[8].0 == ascii_seq("content-length"@));
    assert(forall|j: int| 0 <= j < 8 ==> #[trigger] h[j].0 != ascii_seq("content-length"@));
    crate::headers::lemma_get_found(h, ascii_seq("content-length"@), 8);
}

/// The wire form of a request head written with `m`, `target` and the
/// header pairs `hs`, each line CRLF-terminated, closed by a blank line.
pub open spec fn spec_render_header_lines(hs: Seq<(Seq<u8>, Seq<u8>)>) -> Seq<u8>
    decreases hs.len(),
{
    if hs.len() == 0 {
        crlf()
    } else {
        hs[0].0 + seq![58u8] + hs[0].1 + crlf() + spec_render_header_lines(hs.drop_first())
    }
}

/// A whole rendered request head.
pub open spec fn spec_render_head(m: Method, target: Seq<u8>, hs: Seq<(Seq<u8>, Seq<u8>)>) -> Seq<
    u8,
> {
    spec_method_name(m) + seq![32u8] + target + seq![32u8] + ascii_seq("HTTP/1.1"@) + crlf()
        + spec_render_header_lines(hs)
}

/// A header pair as a well-behaved sender writes it: a nonempty lowercase
/// token name, and a value free of CR and LF that carries no surrounding
/// whitespace of its own.
pub open spec fn wf_sent_header(e: (Seq<u8>, Seq<u8>)) -> bool {
    &&& e.0.len() > 0
    &&& forall|k: int| 0 <= k < e.0.len() ==> is_tchar(#[trigger] e.0[k]) && !(65 <= e.0[k] <= 90)
    &&& wf_value(e.1)
    &&& spec_trim(e.1) == e.1
}

/// A request-target as the request line can carry it: nonempty, free of
/// spaces, CR and LF, and a parseable URI reference.
pub open spec fn wf_sent_target(target: Seq<u8>) -> bool {
    &&& forall|k: int|
        0 <= k < target.len() ==> #[trigger] target[k] != 32 && target[k] != 13 && target[k] != 10
    &&& uri_ref_path(target) is Some
}

/// Splitting off one CRLF-terminated line whose text holds no LF and no
/// CR gives that text back as the first line.
pub proof fn lemma_lines_crlf(a: Seq<u8>, rest: Seq<u8>)
    requires
        forall|j: int| 0 <= j < a.len() ==> #[trigger] a[j] != 10 && a[j] != 13,
    ensures
        spec_lines(a + crlf() + rest) == seq![a] + spec_lines(rest),
{
    let s = a + crlf() + rest;
    assert(s[a.len() as int] == 13);
    assert(s[a.len() as int + 1] == 10);
    assert(forall|j: int| 0 <= j < a.len() + 1 ==> #[trigger] s[j] != 10);
    lemma_find_unique(s, 10, a.len() as int + 1);
    assert(s.take(a.len() as int + 1) =~= a + seq![13u8]);
    assert(strip_cr(a + seq![13u8]) =~= a);
    assert(s.skip(a.len() as int + 2) =~= rest);
    assert(spec_lines(s) == seq![strip_cr(s.take(a.len() as int + 1))] + spec_lines(
        s.skip(a.len() as int + 2),
    ));
    assert(seq![strip_cr(s.take(a.len() as int + 1))] =~= seq![a]);
}

/// Folding well-formed sent headers into the block parser reads back
/// exactly the successive inserts of those pairs.
pub proof fn lemma_header_block_roundtrip(hs: Seq<(Seq<u8>, Seq<u8>)>, acc: Seq<(Seq<u8>, Seq<u8>)>)
    requires
        forall|i: int| 0 <= i < hs.len() ==> wf_sent_header(#[trigger] hs[i]),
    ensures
        spec_parse_header_block(spec_lines(spec_render_header_lines(hs)), acc) == Ok::<_, Error>(
            spec_fold_headers(acc, hs),
        ),
    decreases hs.len(),
{
    if hs.len() == 0 {
        let s = crlf();
        assert(s[1] == 10);
        assert(s[0] != 10);
        lemma_find_unique(s, 10, 1);
        assert(s.take(1) =~= seq![13u8]);
        assert(strip_cr(seq![13u8]) =~= Seq::<u8>::empty());
        assert(s.skip(2) =~= Seq::<u8>::empty());
        assert(spec_lines(Seq::<u8>::empty()) =~= Seq::<Seq<u8>>::empty());
        assert(spec_lines(s) == seq![strip_cr(s.take(1))] + spec_lines(s.skip(2)));
        assert(spec_lines(s) =~= seq![Seq::<u8>::empty()]);
        assert(spec_parse_header_block(spec_lines(s), acc) == Ok::<_, Error>(acc));
    } else {
        let e = hs[0];
        let a = e.0 + seq![58u8] + e.1;
        assert(wf_sent_header(e));
        assert(forall|j: int| 0 <= j < e.0.len() ==> is_tchar(#[trigger] e.0[j]));
        assert(forall|j: int|
            0 <= j < a.len() ==> #[trigger] a[j] == (if j < e.0.len() {
                e.0[j]
            } else if j == e.0.len() {
                58u8
            } else {
                e.1[j - e.0.len() - 1]
            }));
        assert(forall|j: int| 0 <= j < a.len() ==> #[trigger] a[j] != 10 && a[j] != 13) by {
            assert(forall|j: int|
                0 <= j < e.0.len() ==> is_tchar(#[trigger] e.0[j]) ==> e.0[j] != 10 && e.0[j]
                    != 13);
        }
        let tail = spec_render_header_lines(hs.drop_first());
        assert(spec_render_header_lines(hs) =~= a + crlf() + tail);
        lemma_lines_crlf(a, tail);
        // the first colon stands right after the name
        assert(a[e.0.len() as int] == 58);
        assert(forall|j: int| 0 <= j < e.0.len() ==> #[trigger] a[j] != 58) by {
            assert(forall|j: int| 0 <= j < e.0.len() ==> is_tchar(#[trigger] e.0[j]));
        }
        lemma_find_unique(a, 58, e.0.len() as int);
        assert(a.take(e.0.len() as int) =~= e.0);
        assert(a.skip(e.0.len() as int + 1) =~= e.1);
        assert(spec_lower(e.0) =~= e.0);
        assert(spec_parse_header_line(a) == Ok::<_, Error>((e.0, e.1)));
        lemma_header_block_roundtrip(hs.drop_first(), spec_insert(acc, e.0, e.1));
        let lines = spec_lines(spec_render_header_lines(hs));
        assert(lines == seq![a] + spec_lines(tail));
        assert(lines[0] == a);
        assert(a.len() > 0);
        assert(lines.drop_first() =~= spec_lines(tail));
    }
}

/// The successive overwriting inserts of a header list into a map.
pub open spec fn spec_fold_headers(
    acc: Seq<(Seq<u8>, Seq<u8>)>,
    hs: Seq<(Seq<u8>, Seq<u8>)>,
) -> Seq<(Seq<u8>, Seq<u8>)>
    decreases hs.len(),
{
    if hs.len() == 0 {
        acc
    } else {
        spec_fold_headers(spec_insert(acc, hs[0].0, hs[0].1), hs.drop_first())
    }
}

/// Folding headers whose names are pairwise distinct and absent from the
/// accumulator just appends them in order.
pub proof fn lemma_fold_headers_distinct(
    acc: Seq<(Seq<u8>, Seq<u8>)>,
    hs: Seq<(Seq<u8>, Seq<u8>)>,
)
    requires
        forall|i: int, j: int| 0 <= i < j < hs.len() ==> hs[i].0 != hs[j].0,
        forall|i: int, j: int|
            0 <= i < acc.len() && 0 <= j < hs.len() ==> (#[trigger] acc[i]).0 != (#[trigger] hs[j]).0,
    ensures
        spec_fold_headers(acc, hs) =~= acc + hs,
    decreases hs.len(),
{
    if hs.len() == 0 {
        assert(spec_fold_headers(acc, hs) =~= acc + hs);
    } else {
        let e = hs[0];
        assert(forall|i: int| 0 <= i < acc.len() ==> acc[i].0 != e.0);
        crate::headers::lemma_insert_fresh(acc, e.0, e.1);
        let acc2 = spec_insert(acc, e.0, e.1);
        assert(acc2 =~= acc + seq![e]);
        assert(forall|i: int, j: int|
            0 <= i < acc2.len() && 0 <= j < hs.drop_first().len() ==> (#[trigger] acc2[i]).0 != (
            #[trigger] hs.drop_first()[j]).0) by {
            assert(forall|j: int| 0 <= j < hs.drop_first().len() ==> hs.drop_first()[j] == hs[j + 1]);
        }
        lemma_fold_headers_distinct(acc2, hs.drop_first());
        assert(acc2 + hs.drop_first() =~= acc + hs);
    }
}

/// No method's wire name holds a space, CR or LF.
pub proof fn lemma_method_name_clean(m: Method)
    ensures
        forall|j: int|
            0 <= j < spec_method_name(m).len() ==> #[trigger] spec_method_name(m)[j] != 32
                && spec_method_name(m)[j] != 13 && spec_method_name(m)[j] != 10,
        spec_method_name(m).len() > 0,
{
    reveal_strlit("GET");
    reveal_strlit("POST");
    reveal_strlit("PUT");
    reveal_strlit("DELETE");
    reveal_strlit("HEAD");
    reveal_strlit("OPTIONS");
    reveal_strlit("CONNECT");
    reveal_strlit("PATCH");
    reveal_strlit("TRACE");
}

/// Parsing a well-formed request head reads back exactly what was
/// written: the method, the raw target and its URI path, and the headers
/// in order. The head here is one a well-behaved client sends: distinct
/// lowercase header names, values already trimmed.
pub proof fn lemma_parse_request_roundtrip(
    m: Method,
    target: Seq<u8>,
    hs: Seq<(Seq<u8>, Seq<u8>)>,
)
    requires
        wf_sent_target(target),
        forall|i: int| 0 <= i < hs.len() ==> wf_sent_header(#[trigger] hs[i]),
        forall|i: int, j: int| 0 <= i < j < hs.len() ==> hs[i].0 != hs[j].0,
    ensures
        spec_parse_request(spec_render_head(m, target, hs)) == Ok::<_, Error>(
            Some(
                ReqView {
                    method: m,
                    target: target,
                    path: uri_ref_path(target)->Some_0,
                    headers: hs,
                },
            ),
        ),
{
    reveal_strlit("HTTP/1.1");
    let s = spec_render_head(m, target, hs);
    let mn = spec_method_name(m);
    let rl = mn + seq![32u8] + target + seq![32u8] + ascii_seq("HTTP/1.1"@);
    let tail = spec_render_header_lines(hs);
    lemma_method_name_clean(m);
    assert(s =~= rl + crlf() + tail);
    assert(forall|j: int|
        0 <= j < rl.len() ==> #[trigger] rl[j] == (if j < mn.len() {
            mn[j]
        } else if j == mn.len() {
            32u8
        } else if j < mn.len() + 1 + target.len() {
            target[j - mn.len() - 1]
        } else if j == mn.len() + 1 + target.len() {
            32u8
        } else {
            ascii_seq("HTTP/1.1"@)[j - mn.len() - 2 - target.len()]
        }));
    assert(forall|j: int| 0 <= j < rl.len() ==> #[trigger] rl[j] != 10 && rl[j] != 13) by {
        assert(ascii_seq("HTTP/1.1"@).len() == 8);
        assert(forall|k: int|
            0 <= k < 8 ==> #[trigger] ascii_seq("HTTP/1.1"@)[k] != 10 && ascii_seq("HTTP/1.1"@)[k]
                != 13);
    }
    lemma_lines_crlf(rl, tail);
    let lines = spec_lines(s);
    assert(lines == seq![rl] + spec_lines(tail));
    assert(s.len() > 0);
    assert(lines[0] == rl);
    // the request line's first space ends the method token
    assert(rl[mn.len() as int] == 32);
    assert(forall|j: int| 0 <= j < mn.len() ==> #[trigger] rl[j] != 32);
    lemma_find_unique(rl, 32, mn.len() as int);
    assert(rl.take(mn.len() as int) =~= mn);
    let rest = rl.skip(mn.len() as int + 1);
    assert(rest =~= target + seq![32u8] + ascii_seq("HTTP/1.1"@));
    lemma_method_name_parses(m);
    // the second space ends the target token
    assert(rest[target.len() as int] == 32);
    assert(forall|j: int| 0 <= j < target.len() ==> #[trigger] rest[j] != 32);
    lemma_find_unique(rest, 32, target.len() as int);
    assert(rest.take(target.len() as int) =~= target);
    let rest2 = rest.skip(target.len() as int + 1);
    assert(rest2 =~= ascii_seq("HTTP/1.1"@));
    assert(forall|j: int| 0 <= j < rest2.len() ==> #[trigger] rest2[j] != 32) by {
        assert(ascii_seq("HTTP/1.1"@).len() == 8);
        assert(forall|k: int| 0 <= k < 8 ==> #[trigger] ascii_seq("HTTP/1.1"@)[k] != 32);
    }
    lemma_find_none(rest2, 32);
    assert(spec_parse_request_line(rl) == Ok::<_, Error>((m, target)));
    // the header block reads back as the pairs in order
    lemma_header_block_roundtrip(hs, Seq::empty());
    assert(forall|i: int, j: int|
        0 <= i < Seq::<(Seq<u8>, Seq<u8>)>::empty().len() && 0 <= j < hs.len() ==> (
        #[trigger] Seq::<(Seq<u8>, Seq<u8>)>::empty()[i]).0 != (#[trigger] hs[j]).0);
    lemma_fold_headers_distinct(Seq::empty(), hs);
    assert(spec_fold_headers(Seq::empty(), hs) =~= hs);
    assert(lines.drop_first() =~= spec_lines(tail));
}

/// The whole-resource plan (no `Range` header) answers 200, announces the
/// full length, and streams everything exactly when the method is GET.
pub proof fn lemma_whole_plan(method: Method, total: u64)
    ensures
        ({
            let p = spec_build_plan(method, None, RouteClass::Resource, Some(total));
            &&& p.response.status == 200
            &&& spec_get(p.response.headers, ascii_seq("content-length"@)) == Some(
                spec_u64_digits(total as int),
            )
            &&& p.transfer == (if method == Method::Get {
                Some((0u64, total))
            } else {
                None::<(u64, u64)>
            })
        }),
{
    let h = crate::router::spec_resource_headers_whole(total);
    reveal_strlit("content-length");
    reveal_strlit("server");
    reveal_strlit("content-type");
    reveal_strlit("connection");
    reveal_strlit("access-control-allow-origin");
    reveal_strlit("access-control-allow-methods");
    reveal_strlit("access-control-expose-headers");
    reveal_strlit("access-control-max-age");
    assert(ascii_seq("server"@).len() == 6);
    assert(ascii_seq("content-type"@).len() == 12);
    assert(ascii_seq("connection"@).len() == 10);
    assert(ascii_seq("access-control-allow-origin"@).len() == 27);
    assert(ascii_seq("access-control-allow-methods"@).len() == 28);
    assert(ascii_seq("access-control-expose-headers"@).len() == 29);
    assert(ascii_seq("access-control-max-age"@).len() == 22);
    assert(ascii_seq("content-length"@).len() == 14);
    assert(h[7].0 == ascii_seq("content-length"@));
    assert(forall|j: int| 0 <= j < 7 ==> (#[trigger] h[j]).0 != ascii_seq("content-length"@));
    crate::headers::lemma_get_found(h, ascii_seq("content-length"@), 7);
}

/// A byte block ending in CRLF, made of nonempty CR/LF-free line texts,
/// each CRLF-terminated: it starts with text and holds no blank line.
pub open spec fn line_block_ok(t: Seq<u8>) -> bool {
    &&& t.len() >= 2
    &&& t[t.len() - 2] == 13
    &&& t[t.len() - 1] == 10
    &&& t[0] != 13
    &&& forall|q: int| !crate::response::is_blank_at(t, q)
}

/// One nonempty CR/LF-free text with its CRLF is such a block.
pub proof fn lemma_single_line_block(text: Seq<u8>)
    requires
        text.len() > 0,
        forall|j: int| 0 <= j < text.len() ==> #[trigger] text[j] != 13 && text[j] != 10,
    ensures
        line_block_ok(text + crlf()),
{
    let t = text + crlf();
    assert forall|q: int| !crate::response::is_blank_at(t, q) by {
        if crate::response::is_blank_at(t, q) {
            assert(q + 4 <= text.len() + 2);
            assert(t[q] == text[q]);
            assert(false);
        }
    }
}

/// Two such blocks in a row are one.
pub proof fn lemma_append_line_block(x: Seq<u8>, t: Seq<u8>)
    requires
        line_block_ok(x),
        line_block_ok(t),
    ensures
        line_block_ok(x + t),
{
    let s = x + t;
    let xl = x.len() as int;
    assert forall|q: int| !crate::response::is_blank_at(s, q) by {
        if crate::response::is_blank_at(s, q) {
            if q + 4 <= xl {
                assert(s[q] == x[q] && s[q + 1] == x[q + 1] && s[q + 2] == x[q + 2] && s[q + 3]
                    == x[q + 3]);
                assert(crate::response::is_blank_at(x, q));
                assert(false);
            } else if q == xl - 3 {
                assert(s[q + 1] == x[xl - 2]);
                assert(false);
            } else if q == xl - 2 {
                assert(s[q + 2] == t[0]);
                assert(false);
            } else if q == xl - 1 {
                assert(s[q] == x[xl - 1]);
                assert(false);
            } else {
                assert(q >= xl);
                assert(s[q] == t[q - xl] && s[q + 1] == t[q - xl + 1] && s[q + 2] == t[q - xl + 2]
                    && s[q + 3] == t[q - xl + 3]);
                assert(crate::response::is_blank_at(t, q - xl));
                assert(false);
            }
        }
    }
}

/// The text of one emitted header line is nonempty and CR/LF-free.
pub proof fn lemma_header_text_clean(e: (Seq<u8>, Seq<u8>))
    requires
        crate::headers::wf_name(e.0),
        wf_value(e.1),
    ensures
        (e.0 + ascii_seq(": "@) + e.1).len() > 0,
        forall|j: int|
            0 <= j < (e.0 + ascii_seq(": "@) + e.1).len() ==> #[trigger] (e.0 + ascii_seq(": "@)
                + e.1)[j] != 13 && (e.0 + ascii_seq(": "@) + e.1)[j] != 10,
{
    reveal_strlit(": ");
    let text = e.0 + ascii_seq(": "@) + e.1;
    assert(ascii_seq(": "@) =~= seq![58u8, 32u8]);
    assert forall|j: int| 0 <= j < text.len() implies #[trigger] text[j] != 13 && text[j]
        != 10 by {
        if j < e.0.len() {
            assert(text[j] == e.0[j]);
            assert(is_tchar(e.0[j]));
        } else if j < e.0.len() + 2 {
            assert(text[j] == ascii_seq(": "@)[j - e.0.len()]);
        } else {
            assert(text[j] == e.1[j - e.0.len() - 2]);
        }
    }
}

/// A block followed by emitted well-formed headers stays a block.
pub proof fn lemma_block_with_headers(x: Seq<u8>, h: Seq<(Seq<u8>, Seq<u8>)>)
    requires
        line_block_ok(x),
        crate::headers::wf_entries(h),
    ensures
        line_block_ok(x + crate::response::spec_headers_bytes(h)),
    decreases h.len(),
{
    if h.len() == 0 {
        assert(x + crate::response::spec_headers_bytes(h) =~= x);
    } else {
        let text = h[0].0 + ascii_seq(": "@) + h[0].1;
        lemma_header_text_clean(h[0]);
        lemma_single_line_block(text);
        assert(crate::response::spec_header_line_bytes(h[0]) =~= text + crlf());
        lemma_append_line_block(x, text + crlf());
        lemma_block_with_headers(x + (text + crlf()), h.drop_first());
        assert((x + (text + crlf())) + crate::response::spec_headers_bytes(h.drop_first()) =~= x
            + crate::response::spec_headers_bytes(h));
    }
}

/// The status line is such a block too.
pub proof fn lemma_status_line_block(status: u16)
    requires
        100 <= status <= 999,
    ensures
        line_block_ok(crate::response::spec_status_line(status)),
{
    reveal_strlit("HTTP/1.1 ");
    let text = ascii_seq("HTTP/1.1 "@) + spec_u64_digits(status as int);
    lemma_u64_digits_roundtrip(status as int);
    assert forall|j: int| 0 <= j < text.len() implies #[trigger] text[j] != 13 && text[j]
        != 10 by {
        if j < 9 {
            assert(text[j] == ascii_seq("HTTP/1.1 "@)[j]);
        } else {
            assert(text[j] == spec_u64_digits(status as int)[j - 9]);
            assert(is_digit(spec_u64_digits(status as int)[j - 9]));
        }
    }
    lemma_single_line_block(text);
    assert(crate::response::spec_status_line(status) =~= text + crlf());
}

/// The line texts of an emitted header block, in order.
pub open spec fn spec_header_texts(h: Seq<(Seq<u8>, Seq<u8>)>) -> Seq<Seq<u8>> {
    Seq::new(h.len(), |i: int| h[i].0 + ascii_seq(": "@) + h[i].1)
}

/// Splitting an emitted header block into lines gives one text per
/// header.
pub proof fn lemma_lines_headers(h: Seq<(Seq<u8>, Seq<u8>)>)
    requires
        crate::headers::wf_entries(h),
    ensures
        spec_lines(crate::response::spec_headers_bytes(h)) =~= spec_header_texts(h),
    decreases h.len(),
{
    if h.len() == 0 {
        assert(spec_lines(crate::response::spec_headers_bytes(h)) =~= Seq::<Seq<u8>>::empty());
    } else {
        let text = h[0].0 + ascii_seq(": "@) + h[0].1;
        lemma_header_text_clean(h[0]);
        assert(crate::response::spec_headers_bytes(h) =~= text + crlf()
            + crate::response::spec_headers_bytes(h.drop_first()));
        lemma_lines_crlf(text, crate::response::spec_headers_bytes(h.drop_first()));
        lemma_lines_headers(h.drop_first());
        assert(spec_header_texts(h.drop_first()) =~= spec_header_texts(h).drop_first());
        assert(spec_lines(crate::response::spec_headers_bytes(h)) =~= seq![text]
            + spec_header_texts(h).drop_first());
        assert(spec_header_texts(h)[0] == text);
        assert(seq![text] + spec_header_texts(h).drop_first() =~= spec_header_texts(h));
    }
}

/// Decoding the emitted header texts folds the same pairs back in.
pub proof fn lemma_decode_headers_roundtrip(
    h: Seq<(Seq<u8>, Seq<u8>)>,
    acc: Seq<(Seq<u8>, Seq<u8>)>,
)
    requires
        crate::headers::wf_entries(h),
        forall|i: int| 0 <= i < h.len() ==> spec_trim((#[trigger] h[i]).1) == h[i].1,
    ensures
        crate::response::spec_decode_headers(spec_header_texts(h), acc) == Some(
            spec_fold_headers(acc, h),
        ),
    decreases h.len(),
{
    if h.len() == 0 {
        assert(spec_header_texts(h) =~= Seq::<Seq<u8>>::empty());
    } else {
        reveal_strlit(": ");
        let e = h[0];
        let text = e.0 + ascii_seq(": "@) + e.1;
        assert(ascii_seq(": "@) =~= seq![58u8, 32u8]);
        assert(text[e.0.len() as int] == 58);
        assert forall|j: int| 0 <= j < e.0.len() implies #[trigger] text[j] != 58 by {
            assert(text[j] == e.0[j]);
            assert(is_tchar(e.0[j]));
        }
        lemma_find_unique(text, 58, e.0.len() as int);
        assert(text.take(e.0.len() as int) =~= e.0);
        assert(text.skip(e.0.len() as int + 1) =~= seq![32u8] + e.1);
        crate::text::lemma_trim_space_front(e.1);
        crate::text::lemma_lower_id(e.0);
        assert(spec_parse_header_line(text) == Ok::<_, Error>((e.0, e.1)));
        lemma_decode_headers_roundtrip(h.drop_first(), spec_insert(acc, e.0, e.1));
        assert(spec_header_texts(h)[0] == text);
        assert(spec_header_texts(h).drop_first() =~= spec_header_texts(h.drop_first()));
    }
}

/// Round trip: encoding a response with a byte body and decoding the
/// bytes as a raw message gives back the same status, the same headers up
/// to the derived `content-length`, and the same body, exactly.
pub proof fn lemma_codec_roundtrip(v: crate::response::RespView)
    requires
        crate::headers::wf_entries(v.headers),
        100 <= v.status <= 999,
        v.body is Some,
        forall|i: int|
            0 <= i < v.headers.len() ==> spec_trim((#[trigger] v.headers[i]).1) == v.headers[i].1,
    ensures
        crate::response::spec_decode_response(
            crate::response::spec_encode_response(v),
        ) == Some((v.status, crate::response::spec_headers_out(v), v.body->Some_0)),
{
    reveal_strlit("content-length");
    reveal_strlit("HTTP/1.1 ");
    let body = v.body->Some_0;
    let cl = ascii_seq("content-length"@);
    let dl = spec_u64_digits(body.len() as int);
    let ho = crate::response::spec_headers_out(v);
    crate::response::lemma_digits_wf(body.len() as int);
    assert(crate::headers::wf_name(cl));
    crate::headers::lemma_insert_wf(v.headers, cl, dl);
    assert(crate::headers::wf_entries(ho));
    assert forall|i: int| 0 <= i < ho.len() implies spec_trim((#[trigger] ho[i]).1) == ho[i]
        .1 by {
        if ho[i] == (cl, dl) {
            assert(forall|k: int| 0 <= k < dl.len() ==> is_digit(#[trigger] dl[k]));
            assert(forall|k: int| 0 <= k < dl.len() ==> !crate::text::is_ws(#[trigger] dl[k]));
            crate::text::lemma_trim_id(dl);
        } else {
            let j = choose|j: int| 0 <= j < v.headers.len() && v.headers[j] == ho[i];
            assert(spec_trim(v.headers[j].1) == v.headers[j].1);
        }
    }
    let sl = crate::response::spec_status_line(v.status);
    let hb = crate::response::spec_headers_bytes(ho);
    let t = sl + hb;
    lemma_status_line_block(v.status);
    lemma_block_with_headers(sl, ho);
    assert(line_block_ok(t));
    let s = crate::response::spec_encode_response(v);
    assert(s =~= t + crlf() + body);
    let tl = t.len() as int;
    let p = tl - 2;
    assert(crate::response::is_blank_at(s, p)) by {
        assert(s[p] == t[tl - 2]);
        assert(s[p + 1] == t[tl - 1]);
        assert(s[p + 2] == 13);
        assert(s[p + 3] == 10);
    }
    assert forall|q: int| 0 <= q < p implies !crate::response::is_blank_at(s, q) by {
        if crate::response::is_blank_at(s, q) {
            if q + 4 <= tl {
                assert(s[q] == t[q] && s[q + 1] == t[q + 1] && s[q + 2] == t[q + 2] && s[q + 3]
                    == t[q + 3]);
                assert(crate::response::is_blank_at(t, q));
                assert(false);
            } else {
                assert(q == tl - 3);
                assert(s[q + 1] == t[tl - 2]);
                assert(false);
            }
        }
    }
    crate::response::lemma_find_blank_unique(s, p);
    assert(s.take(p + 2) =~= t);
    assert(s.skip(p + 4) =~= body);
    // the head splits into the status line's text and one text per header
    let sltext = ascii_seq("HTTP/1.1 "@) + spec_u64_digits(v.status as int);
    assert(t =~= sltext + crlf() + hb);
    lemma_u64_digits_roundtrip(v.status as int);
    assert forall|j: int| 0 <= j < sltext.len() implies #[trigger] sltext[j] != 13 && sltext[j]
        != 10 by {
        if j < 9 {
            assert(sltext[j] == ascii_seq("HTTP/1.1 "@)[j]);
        } else {
            assert(sltext[j] == spec_u64_digits(v.status as int)[j - 9]);
            assert(is_digit(spec_u64_digits(v.status as int)[j - 9]));
        }
    }
    lemma_lines_crlf(sltext, hb);
    lemma_lines_headers(ho);
    let lines = spec_lines(t);
    assert(lines == seq![sltext] + spec_lines(hb));
    assert(lines.len() > 0);
    assert(lines[0] == sltext);
    assert(sltext.len() >= 10);
    assert(sltext.take(9) =~= ascii_seq("HTTP/1.1 "@));
    assert(sltext.skip(9) =~= spec_u64_digits(v.status as int));
    lemma_parse_u64_of_digits(v.status as u64);
    assert(lines.drop_first() =~= spec_header_texts(ho));
    lemma_decode_headers_roundtrip(ho, Seq::empty());
    assert(forall|i: int, j: int| 0 <= i < j < ho.len() ==> (#[trigger] ho[i]).0 != (
    #[trigger] ho[j]).0);
    assert(forall|i: int, j: int|
        0 <= i < Seq::<(Seq<u8>, Seq<u8>)>::empty().len() && 0 <= j < ho.len() ==> (
        #[trigger] Seq::<(Seq<u8>, Seq<u8>)>::empty()[i]).0 != (#[trigger] ho[j]).0);
    lemma_fold_headers_distinct(Seq::empty(), ho);
    assert(spec_fold_headers(Seq::empty(), ho) =~= ho);
}

/// A request line with fewer than two spaces, hence fewer than three
/// tokens, never parses: it yields an error, whatever else it holds.
pub proof fn lemma_short_request_line_errors(line: Seq<u8>)
    requires
        forall|i: int, j: int|
            0 <= i < j < line.len() ==> !(#[trigger] line[i] == 32 && #[trigger] line[j] == 32),
    ensures
        spec_parse_request_line(line) is Err,
{
    match spec_find(line, 32) {
        None => {},
        Some(i) => {
            crate::text::lemma_find_first(line, 32);
            let rest = line.skip(i + 1);
            match spec_find(rest, 32) {
                None => {},
                Some(j) => {
                    crate::text::lemma_find_first(rest, 32);
                    assert(line[i] == 32);
                    assert(rest[j] == line[j + i + 1]);
                    assert(line[j + i + 1] == 32);
                    assert(false);
                },
            }
        },
    }
}

} // verus!
