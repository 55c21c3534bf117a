//! Routing a parsed request: classify its path, then build the response
//! head and the transfer plan. The media resource path answers range
//! requests with CORS headers and a streamed span; `/favicon.ico` and
//! every other path answer with small fixed responses.

use vstd::prelude::*;
use crate::headers::spec_insert;
use crate::method::Method;
use crate::range::RangeDirective;
use crate::range::resolve_range;
use crate::range::spec_resolve_range;
use crate::range::spec_u64_digits;
use crate::response::Response;
use crate::response::RespView;
use crate::response::u64_digits;
use crate::response::push_bytes;
use crate::text::ascii_seq;
use crate::text::lit_bytes;

verus! {

broadcast use vstd::string::group_string_axioms;

#[derive(Clone, Copy, Debug, PartialEq, Eq, Structural)]
/// Which handling policy a request path falls under.
pub enum RouteClass {
    /// The media resource endpoint: any path under `/resource/mikufans`.
    Resource,
    /// Exactly `/favicon.ico`.
    Favicon,
    /// Every other path: a fixed identification reply.
    Fallback,
}

/// The class a path falls under.
pub open spec fn spec_classify(path: Seq<u8>) -> RouteClass {
    if path.len() >= 18 && path.take(18) == ascii_seq("/resource/mikufans"@) {
        RouteClass::Resource
    } else if path == ascii_seq("/favicon.ico"@) {
        RouteClass::Favicon
    } else {
        RouteClass::Fallback
    }
}

/// Classifies a request path.
pub fn classify_path(path: &[u8]) -> (c: RouteClass)
    ensures
        c == spec_classify(path@),
{
    proof {
        reveal_strlit("/resource/mikufans");
        reveal_strlit("/favicon.ico");
    }
    if path.len() >= 18 {
        let prefix = crate::text::copy_range(path, 0, 18);
        proof {
            assert(prefix@ =~= path@.take(18));
        }
        if crate::method::bytes_eq(prefix.as_slice(), lit_bytes("/resource/mikufans").as_slice()) {
            return RouteClass::Resource;
        }
    }
    if crate::method::bytes_eq(path, lit_bytes("/favicon.ico").as_slice()) {
        RouteClass::Favicon
    } else {
        RouteClass::Fallback
    }
}

/// The mathematical shape of a route plan.
pub ghost struct PlanView {
    pub response: RespView,
    pub transfer: Option<(u64, u64)>,
}

/// What the router decides for one request: the response head (and, for
/// the fallback path, its body), and the resource byte span to stream
/// after the head, if any.
pub struct RoutePlan {
    pub response: Response,
    pub transfer: Option<(u64, u64)>,
}

impl View for RoutePlan {
    type V = PlanView;

    open spec fn view(&self) -> PlanView {
        PlanView { response: self.response@, transfer: self.transfer }
    }
}

impl RoutePlan {
    /// A plan the codec can emit.
    pub open spec fn wf(&self) -> bool {
        self.response.wf()
    }
}

/// The CORS headers every resource-path response carries, in the order
/// they are added after the defaults.
pub open spec fn spec_cors_headers() -> Seq<(Seq<u8>, Seq<u8>)> {
    seq![
        (ascii_seq("access-control-allow-origin"@), ascii_seq("https://www.bilibili.com"@)),
        (ascii_seq("access-control-allow-methods"@), ascii_seq("GET, POST, PUT, DELETE, HEAD"@)),
        (ascii_seq("access-control-expose-headers"@), ascii_seq("Content-Length,Content-Range"@)),
        (ascii_seq("access-control-max-age"@), ascii_seq("0"@)),
    ]
}

/// The headers every resource-path response starts from: the defaults,
/// then CORS.
pub open spec fn spec_resource_base() -> Seq<(Seq<u8>, Seq<u8>)> {
    Response::spec_default_headers() + spec_cors_headers()
}

/// No default or CORS header name is 13 or 14 bytes long, so
/// `accept-ranges`, `content-length` and `content-range` are always fresh
/// in that base.
proof fn lemma_base_fresh_name(name: Seq<u8>)
    requires
        name.len() == 13 || name.len() == 14,
    ensures
        forall|j: int|
            0 <= j < spec_resource_base().len() ==> (#[trigger] spec_resource_base()[j]).0 != name,
{
    reveal_strlit("server");
    reveal_strlit("content-type");
    reveal_strlit("connection");
    reveal_strlit("access-control-allow-origin");
    reveal_strlit("access-control-allow-methods");
    reveal_strlit("access-control-expose-headers");
    reveal_strlit("access-control-max-age");
    assert(ascii_seq("server"@).len() == 6);
    assert(ascii_seq("content-type"@).len() == 12);
    assert(ascii_seq("connection"@).len() == 10);
    assert(ascii_seq("access-control-allow-origin"@).len() == 27);
    assert(ascii_seq("access-control-allow-methods"@).len() == 28);
    assert(ascii_seq("access-control-expose-headers"@).len() == 29);
    assert(ascii_seq("access-control-max-age"@).len() == 22);
    assert(forall|j: int|
        0 <= j < spec_resource_base().len() ==> (#[trigger] spec_resource_base()[j]).0.len() != 13
            && spec_resource_base()[j].0.len() != 14);
}

/// The `Content-Range` value `bytes START-END/TOTAL`.
pub open spec fn spec_content_range_value(start: u64, end: u64, total: u64) -> Seq<u8> {
    ascii_seq("bytes "@) + spec_u64_digits(start as int) + seq![45u8] + spec_u64_digits(
        end as int,
    ) + seq![47u8] + spec_u64_digits(total as int)
}

/// The headers of a whole-resource answer: defaults, CORS, and the full
/// length.
pub open spec fn spec_resource_headers_whole(total: u64) -> Seq<(Seq<u8>, Seq<u8>)> {
    Response::spec_default_headers() + spec_cors_headers() + seq![
        (ascii_seq("content-length"@), spec_u64_digits(total as int)),
    ]
}

/// The headers of a partial-content answer: defaults, CORS, then
/// `accept-ranges`, the span's length, and the span itself.
pub open spec fn spec_resource_headers_partial(start: u64, end: u64, total: u64) -> Seq<
    (Seq<u8>, Seq<u8>),
> {
    Response::spec_default_headers() + spec_cors_headers() + seq![
        (ascii_seq("accept-ranges"@), ascii_seq("bytes"@)),
        (ascii_seq("content-length"@), spec_u64_digits((end - start) as int)),
        (ascii_seq("content-range"@), spec_content_range_value(start, end, total)),
    ]
}

/// What the resource endpoint answers. A missing resource is a bare 404;
/// otherwise the range directive picks 200-whole or 206-partial, and only
/// a GET streams the span.
pub open spec fn spec_plan_resource(
    method: Method,
    range: Option<Seq<u8>>,
    resource: Option<u64>,
) -> PlanView {
    match resource {
        None => PlanView {
            response: RespView {
                status: 404,
                headers: Response::spec_default_headers() + spec_cors_headers() + seq![
                    (ascii_seq("content-length"@), ascii_seq("0"@)),
                ],
                body: None,
            },
            transfer: None,
        },
        Some(total) => match spec_resolve_range(range, total) {
            RangeDirective::Whole => PlanView {
                response: RespView {
                    status: 200,
                    headers: spec_resource_headers_whole(total),
                    body: None,
                },
                transfer: if method == Method::Get {
                    Some((0u64, total))
                } else {
                    None
                },
            },
            RangeDirective::Partial { start, end } => PlanView {
                response: RespView {
                    status: 206,
                    headers: spec_resource_headers_partial(start, end, total),
                    body: None,
                },
                transfer: if method == Method::Get {
                    Some((start, end))
                } else {
                    None
                },
            },
        },
    }
}

/// What `/favicon.ico` answers: 200, an icon content type, no body.
pub open spec fn spec_plan_favicon() -> PlanView {
    PlanView {
        response: RespView {
            status: 200,
            headers: spec_insert(
                spec_insert(
                    Response::spec_default_headers(),
                    ascii_seq("content-type"@),
                    ascii_seq("image/icon"@),
                ),
                ascii_seq("content-length"@),
                ascii_seq("0"@),
            ),
            body: None,
        },
        transfer: None,
    }
}

/// What every other path answers: 200, plain text, the server's fixed
/// identification string as body.
pub open spec fn spec_plan_fallback() -> PlanView {
    PlanView {
        response: RespView {
            status: 200,
            headers: spec_insert(
                Response::spec_default_headers(),
                ascii_seq("content-type"@),
                ascii_seq("text/plain"@),
            ),
            body: Some(ascii_seq("mikufans_bvc_server"@)),
        },
        transfer: None,
    }
}

/// The router's whole decision.
pub open spec fn spec_build_plan(
    method: Method,
    range: Option<Seq<u8>>,
    class: RouteClass,
    resource: Option<u64>,
) -> PlanView {
    match class {
        RouteClass::Resource => spec_plan_resource(method, range, resource),
        RouteClass::Favicon => spec_plan_favicon(),
        RouteClass::Fallback => spec_plan_fallback(),
    }
}

/// Adds the four CORS headers to a response still carrying exactly the
/// default headers.
fn add_cors_headers(r: &mut Response)
    requires
        old(r).wf(),
        old(r)@.headers == Response::spec_default_headers(),
    ensures
        final(r)@ == (RespView {
            headers: Response::spec_default_headers() + spec_cors_headers(),
            ..old(r)@
        }),
        final(r).wf(),
{
    proof {
        reveal_strlit("access-control-allow-origin");
        reveal_strlit("https://www.bilibili.com");
        reveal_strlit("access-control-allow-methods");
        reveal_strlit("GET, POST, PUT, DELETE, HEAD");
        reveal_strlit("access-control-expose-headers");
        reveal_strlit("Content-Length,Content-Range");
        reveal_strlit("access-control-max-age");
        reveal_strlit("0");
        reveal_strlit("server");
        reveal_strlit("content-type");
        reveal_strlit("connection");
        assert(ascii_seq("access-control-allow-origin"@).len() == 27);
        assert(ascii_seq("access-control-allow-methods"@).len() == 28);
        assert(ascii_seq("access-control-expose-headers"@).len() == 29);
        assert(ascii_seq("access-control-max-age"@).len() == 22);
        assert(ascii_seq("server"@).len() == 6);
        assert(ascii_seq("content-type"@).len() == 12);
        assert(ascii_seq("connection"@).len() == 10);
    }
    let ghost h0 = r@.headers;
    proof {
        assert(forall|j: int|
            0 <= j < h0.len() ==> (#[trigger] h0[j]).0.len() == 6 || h0[j].0.len() == 12
                || h0[j].0.len() == 10);
        crate::headers::lemma_insert_fresh(
            h0,
            ascii_seq("access-control-allow-origin"@),
            ascii_seq("https://www.bilibili.com"@),
        );
    }
    r.set_header(
        lit_bytes("access-control-allow-origin"),
        lit_bytes("https://www.bilibili.com"),
    );
    let ghost h1 = r@.headers;
    proof {
        assert(forall|j: int|
            0 <= j < h1.len() ==> (#[trigger] h1[j]).0.len() == 6 || h1[j].0.len() == 12
                || h1[j].0.len() == 10 || h1[j].0.len() == 27);
        crate::headers::lemma_insert_fresh(
            h1,
            ascii_seq("access-control-allow-methods"@),
            ascii_seq("GET, POST, PUT, DELETE, HEAD"@),
        );
    }
    r.set_header(
        lit_bytes("access-control-allow-methods"),
        lit_bytes("GET, POST, PUT, DELETE, HEAD"),
    );
    let ghost h2 = r@.headers;
    proof {
        assert(forall|j: int|
            0 <= j < h2.len() ==> (#[trigger] h2[j]).0.len() == 6 || h2[j].0.len() == 12
                || h2[j].0.len() == 10 || h2[j].0.len() == 27 || h2[j].0.len() == 28);
        crate::headers::lemma_insert_fresh(
            h2,
            ascii_seq("access-control-expose-headers"@),
            ascii_seq("Content-Length,Content-Range"@),
        );
    }
    r.set_header(
        lit_bytes("access-control-expose-headers"),
        lit_bytes("Content-Length,Content-Range"),
    );
    let ghost h3 = r@.headers;
    proof {
        assert(forall|j: int|
            0 <= j < h3.len() ==> (#[trigger] h3[j]).0.len() == 6 || h3[j].0.len() == 12
                || h3[j].0.len() == 10 || h3[j].0.len() == 27 || h3[j].0.len() == 28 || h3[j].0.len()
                == 29);
        crate::headers::lemma_insert_fresh(h3, ascii_seq("access-control-max-age"@), ascii_seq("0"@));
    }
    r.set_header(lit_bytes("access-control-max-age"), lit_bytes("0"));
    proof {
        assert(r@.headers =~= Response::spec_default_headers() + spec_cors_headers());
    }
}

/// Builds the route plan for one request: its method, its raw `Range`
/// header if it sent one, its path's class, and, for the resource class,
/// what the resolver knew of the path (`None`: no such resource).
pub fn build_plan(
    method: Method,
    range_header: Option<&Vec<u8>>,
    class: RouteClass,
    resource: Option<u64>,
) -> (p: RoutePlan)
    ensures
        p@ == spec_build_plan(
            method,
            match range_header {
                Some(v) => Some(v@),
                None => None::<Seq<u8>>,
            },
            class,
            resource,
        ),
        p.wf(),
{
    match class {
        RouteClass::Resource => {
            let mut response = Response::default();
            add_cors_headers(&mut response);
            let ghost base = response@.headers;
            proof {
                reveal_strlit("content-length");
                reveal_strlit("accept-ranges");
                reveal_strlit("content-range");
                reveal_strlit("bytes");
                reveal_strlit("bytes ");
                reveal_strlit("0");
                assert(ascii_seq("content-length"@).len() == 14);
                assert(ascii_seq("accept-ranges"@).len() == 13);
                assert(ascii_seq("content-range"@).len() == 13);
                assert(ascii_seq("accept-ranges"@)[0] == 97u8);
                assert(ascii_seq("content-range"@)[0] == 99u8);
                assert(base =~= spec_resource_base());
            }
            match resource {
                None => {
                    response.set_status(404);
                    proof {
                        lemma_base_fresh_name(ascii_seq("content-length"@));
                        crate::headers::lemma_insert_fresh(
                            base,
                            ascii_seq("content-length"@),
                            ascii_seq("0"@),
                        );
                    }
                    response.set_header(lit_bytes("content-length"), lit_bytes("0"));
                    RoutePlan { response, transfer: None }
                },
                Some(total) => {
                    match resolve_range(range_header, total) {
                        RangeDirective::Whole => {
                            let digits = u64_digits(total);
                            proof {
                                crate::response::lemma_digits_wf(total as int);
                                lemma_base_fresh_name(ascii_seq("content-length"@));
                                crate::headers::lemma_insert_fresh(
                                    base,
                                    ascii_seq("content-length"@),
                                    spec_u64_digits(total as int),
                                );
                            }
                            response.set_header(lit_bytes("content-length"), digits);
                            proof {
                                assert(response@.headers =~= spec_resource_headers_whole(total));
                            }
                            let transfer: Option<(u64, u64)> = if method == Method::Get {
                                Some((0u64, total))
                            } else {
                                None
                            };
                            RoutePlan { response, transfer }
                        },
                        RangeDirective::Partial { start, end } => {
                            response.set_status(206);
                            proof {
                                lemma_base_fresh_name(ascii_seq("accept-ranges"@));
                                crate::headers::lemma_insert_fresh(
                                    base,
                                    ascii_seq("accept-ranges"@),
                                    ascii_seq("bytes"@),
                                );
                            }
                            response.set_header(lit_bytes("accept-ranges"), lit_bytes("bytes"));
                            let ghost hb = response@.headers;
                            let len_digits = u64_digits(end - start);
                            proof {
                                crate::response::lemma_digits_wf((end - start) as int);
                                assert(hb =~= base + seq![
                                    (ascii_seq("accept-ranges"@), ascii_seq("bytes"@)),
                                ]);
                                lemma_base_fresh_name(ascii_seq("content-length"@));
                                assert(ascii_seq("accept-ranges"@).len() == 13);
                                assert(forall|j: int|
                                    0 <= j < hb.len() ==> (#[trigger] hb[j]).0
                                        != ascii_seq("content-length"@));
                                crate::headers::lemma_insert_fresh(
                                    hb,
                                    ascii_seq("content-length"@),
                                    spec_u64_digits((end - start) as int),
                                );
                            }
                            response.set_header(lit_bytes("content-length"), len_digits);
                            let mut cr: Vec<u8> = lit_bytes("bytes ");
                            push_bytes(&mut cr, u64_digits(start).as_slice());
                            cr.push(45);
                            push_bytes(&mut cr, u64_digits(end).as_slice());
                            cr.push(47);
                            push_bytes(&mut cr, u64_digits(total).as_slice());
                            let ghost hc = response@.headers;
                            proof {
                                assert(cr@ =~= spec_content_range_value(start, end, total));
                                crate::response::lemma_digits_wf(start as int);
                                crate::response::lemma_digits_wf(end as int);
                                crate::response::lemma_digits_wf(total as int);
                                assert(crate::headers::wf_value(cr@));
                                assert(hc =~= base + seq![
                                    (ascii_seq("accept-ranges"@), ascii_seq("bytes"@)),
                                    (
                                        ascii_seq("content-length"@),
                                        spec_u64_digits((end - start) as int),
                                    ),
                                ]);
                                assert(ascii_seq("content-range"@)
                                    != ascii_seq("accept-ranges"@));
                                lemma_base_fresh_name(ascii_seq("content-range"@));
                                assert(ascii_seq("content-length"@)
                                    != ascii_seq("content-range"@));
                                assert(forall|j: int|
                                    0 <= j < hc.len() ==> (#[trigger] hc[j]).0
                                        != ascii_seq("content-range"@));
                                crate::headers::lemma_insert_fresh(
                                    hc,
                                    ascii_seq("content-range"@),
                                    spec_content_range_value(start, end, total),
                                );
                            }
                            response.set_header(lit_bytes("content-range"), cr);
                            proof {
                                assert(response@.headers =~= spec_resource_headers_partial(
                                    start,
                                    end,
                                    total,
                                ));
                            }
                            let transfer: Option<(u64, u64)> = if method == Method::Get {
                                Some((start, end))
                            } else {
                                None
                            };
                            RoutePlan { response, transfer }
                        },
                    }
                },
            }
        },
        RouteClass::Favicon => {
            let mut response = Response::default();
            proof {
                reveal_strlit("content-type");
                reveal_strlit("image/icon");
                reveal_strlit("content-length");
                reveal_strlit("0");
            }
            response.set_header(lit_bytes("content-type"), lit_bytes("image/icon"));
            response.set_header(lit_bytes("content-length"), lit_bytes("0"));
            RoutePlan { response, transfer: None }
        },
        RouteClass::Fallback => {
            let mut response = Response::default();
            proof {
                reveal_strlit("content-type");
                reveal_strlit("text/plain");
                reveal_strlit("mikufans_bvc_server");
            }
            response.set_header(lit_bytes("content-type"), lit_bytes("text/plain"));
            let response = response.with_body(lit_bytes("mikufans_bvc_server"));
            RoutePlan { response, transfer: None }
        },
    }
}

} // verus!
