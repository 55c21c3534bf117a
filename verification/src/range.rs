//! The `Range` request header: reading its `bytes=START-END` / `bytes=-N`
//! grammar, and resolving one parsed range against a resource's total byte
//! length into the span to serve. A header that is absent, malformed, holds
//! more than one range, or points outside the resource never errors: the
//! whole resource is served instead.

use vstd::prelude::*;
use crate::text::ascii_seq;
use crate::text::lit_bytes;
use crate::text::spec_find;
use crate::text::lemma_find_first;
use crate::text::lemma_find_unique;
use crate::text::lemma_find_none;
use crate::text::find_byte;
use crate::text::copy_range;
use crate::method::bytes_eq;

verus! {

broadcast use vstd::string::group_string_axioms;

#[derive(Clone, Copy, Debug, PartialEq, Eq, Structural)]
/// Where a requested range starts: at an absolute byte index, or at the
/// start of the final `N` bytes (`bytes=-N`).
pub enum StartPos {
    Index(u64),
    FromLast(u64),
}

#[derive(Clone, Copy, Debug, PartialEq, Eq, Structural)]
/// Where a requested range ends: at an absolute byte index, or at the end
/// of the resource.
pub enum EndPos {
    Index(u64),
    Last,
}

#[derive(Clone, Copy, Debug, PartialEq, Eq, Structural)]
/// One syntactically correct range out of a `Range` header.
pub struct RangeSpec {
    pub start: StartPos,
    pub end: EndPos,
}

#[derive(Clone, Copy, Debug, PartialEq, Eq, Structural)]
/// What the resolver decides: serve everything with status 200, or serve
/// the bytes of `[start, end)` with status 206.
pub enum RangeDirective {
    Whole,
    Partial { start: u64, end: u64 },
}

/// Whether `b` is an ASCII decimal digit.
pub open spec fn is_digit(b: u8) -> bool {
    48 <= b <= 57
}

/// The number the digit string `s` writes, most significant digit first.
pub open spec fn spec_digits_val(s: Seq<u8>) -> int
    decreases s.len(),
{
    if s.len() == 0 {
        0
    } else {
        spec_digits_val(s.drop_last()) * 10 + (s.last() - 48)
    }
}

/// The decimal digits of `n`, without sign or leading zeros.
pub open spec fn spec_u64_digits(n: int) -> Seq<u8>
    decreases n,
{
    if n < 10 {
        seq![(48 + if n >= 0 { n } else { 0 }) as u8]
    } else {
        spec_u64_digits(n / 10).push((48 + n % 10) as u8)
    }
}

/// The value of a nonempty all-digit string, when it fits in a `u64`.
pub open spec fn spec_parse_u64(s: Seq<u8>) -> Option<u64> {
    if s.len() > 0 && (forall|i: int| 0 <= i < s.len() ==> is_digit(#[trigger] s[i]))
        && spec_digits_val(s) <= u64::MAX {
        Some(spec_digits_val(s) as u64)
    } else {
        None
    }
}

/// A digit string's value is never negative.
pub proof fn lemma_digits_val_nonneg(s: Seq<u8>)
    requires
        forall|i: int| 0 <= i < s.len() ==> is_digit(#[trigger] s[i]),
    ensures
        spec_digits_val(s) >= 0,
    decreases s.len(),
{
    if s.len() > 0 {
        lemma_digits_val_nonneg(s.drop_last());
    }
}

/// Rendering a number gives digits only, and reading them back gives the
/// number: `spec_u64_digits` and `spec_digits_val` are inverses.
pub proof fn lemma_u64_digits_roundtrip(n: int)
    requires
        n >= 0,
    ensures
        spec_u64_digits(n).len() > 0,
        forall|i: int|
            0 <= i < spec_u64_digits(n).len() ==> is_digit(#[trigger] spec_u64_digits(n)[i]),
        spec_digits_val(spec_u64_digits(n)) == n,
    decreases n,
{
    if n < 10 {
        let d = spec_u64_digits(n);
        assert(d == seq![(48 + n) as u8]);
        assert(d.drop_last() =~= Seq::<u8>::empty());
        assert(spec_digits_val(d) == spec_digits_val(d.drop_last()) * 10 + (d.last() - 48));
    } else {
        lemma_u64_digits_roundtrip(n / 10);
        let d = spec_u64_digits(n);
        assert(d == spec_u64_digits(n / 10).push((48 + n % 10) as u8));
        assert(d.drop_last() =~= spec_u64_digits(n / 10));
        assert(spec_digits_val(d) == spec_digits_val(spec_u64_digits(n / 10)) * 10 + n % 10);
    }
}

/// A rendered number reads back as itself.
pub proof fn lemma_parse_u64_of_digits(n: u64)
    ensures
        spec_parse_u64(spec_u64_digits(n as int)) == Some(n),
{
    lemma_u64_digits_roundtrip(n as int);
}

/// Reads a nonempty all-digit byte string as a `u64`.
pub fn parse_u64(s: &[u8]) -> (r: Option<u64>)
    ensures
        r == spec_parse_u64(s@),
{
    if s.len() == 0 {
        return None;
    }
    let mut acc: u64 = 0;
    let mut i: usize = 0;
    while i < s.len()
        invariant
            i <= s@.len(),
            s@.len() > 0,
            forall|j: int| 0 <= j < i ==> is_digit(#[trigger] s@[j]),
            acc == spec_digits_val(s@.take(i as int)),
        decreases s@.len() - i,
    {
        let b = s[i];
        if b < 48 || b > 57 {
            proof {
                assert(!is_digit(s@[i as int]));
            }
            return None;
        }
        let d = b - 48;
        proof {
            assert(s@.take(i as int + 1).drop_last() =~= s@.take(i as int));
            assert(s@.take(i as int + 1).last() == s@[i as int]);
            assert(spec_digits_val(s@.take(i as int + 1)) == acc * 10 + d);
            vstd::arithmetic::div_mod::lemma_fundamental_div_mod((u64::MAX - d) as int, 10);
        }
        if acc > (u64::MAX - d as u64) / 10 {
            proof {
                lemma_digits_val_nonneg(s@.take(i as int));
                assert(spec_digits_val(s@.take(i as int + 1)) > u64::MAX);
                if forall|j: int| 0 <= j < s@.len() ==> is_digit(#[trigger] s@[j]) {
                    lemma_val_grows(s@, i as int + 1);
                    assert(spec_digits_val(s@) > u64::MAX);
                }
                assert(spec_parse_u64(s@) is None);
            }
            return None;
        }
        acc = acc * 10 + d as u64;
        i = i + 1;
    }
    proof {
        assert(s@.take(s@.len() as int) =~= s@);
        lemma_digits_val_nonneg(s@);
    }
    Some(acc)
}

/// Once a digit prefix writes a value, the digits after it only grow it:
/// the whole string's value is at least the prefix's.
pub proof fn lemma_val_grows(s: Seq<u8>, i: int)
    requires
        0 <= i <= s.len(),
        forall|j: int| 0 <= j < s.len() ==> is_digit(#[trigger] s[j]),
    ensures
        spec_digits_val(s) >= spec_digits_val(s.take(i)),
    decreases s.len() - i,
{
    if i < s.len() {
        lemma_val_grows(s, i + 1);
        assert(s.take(i + 1).drop_last() =~= s.take(i));
        lemma_digits_val_nonneg(s.take(i));
        assert(spec_digits_val(s.take(i + 1)) == spec_digits_val(s.take(i)) * 10 + (s[i] - 48));
        assert(spec_digits_val(s.take(i + 1)) >= spec_digits_val(s.take(i)));
    } else {
        assert(s.take(i) =~= s);
    }
}

/// One `START-END` item of a range header, read at its `-` separator:
/// `A-B` and `A-` start at index `A`; `-N` asks for the final `N` bytes.
pub open spec fn spec_parse_range_item(s: Seq<u8>) -> Option<RangeSpec> {
    match spec_find(s, 45) {
        Some(i) => {
            let a = s.take(i);
            let b = s.skip(i + 1);
            if a.len() == 0 {
                match spec_parse_u64(b) {
                    Some(n) => Some(RangeSpec { start: StartPos::FromLast(n), end: EndPos::Last }),
                    None => None,
                }
            } else {
                match spec_parse_u64(a) {
                    Some(st) => if b.len() == 0 {
                        Some(RangeSpec { start: StartPos::Index(st), end: EndPos::Last })
                    } else {
                        match spec_parse_u64(b) {
                            Some(en) => Some(
                                RangeSpec { start: StartPos::Index(st), end: EndPos::Index(en) },
                            ),
                            None => None,
                        }
                    },
                    None => None,
                }
            }
        },
        None => None,
    }
}

/// The comma-separated items of a range header's value, all of which must
/// be well-formed for the header to parse.
pub open spec fn spec_parse_range_items(s: Seq<u8>) -> Option<Seq<RangeSpec>>
    decreases s.len(),
    via spec_parse_range_items_decreases
{
    match spec_find(s, 44) {
        Some(i) => {
            match (spec_parse_range_item(s.take(i)), spec_parse_range_items(s.skip(i + 1))) {
                (Some(r), Some(rest)) => Some(seq![r] + rest),
                _ => None,
            }
        },
        None => match spec_parse_range_item(s) {
            Some(r) => Some(seq![r]),
            None => None,
        },
    }
}

#[via_fn]
proof fn spec_parse_range_items_decreases(s: Seq<u8>) {
    lemma_find_first(s, 44);
}

/// The ranges a `Range` header value asks for: the literal prefix
/// `bytes=`, then comma-separated items.
pub open spec fn spec_parse_range_header(s: Seq<u8>) -> Option<Seq<RangeSpec>> {
    if s.len() >= 6 && s.take(6) == ascii_seq("bytes="@) {
        spec_parse_range_items(s.skip(6))
    } else {
        None
    }
}

/// The byte span one parsed range covers in a resource of `total` bytes:
/// a start not past `total`, an end not past `total`, start not past end.
/// Anything else makes the range unsatisfiable.
pub open spec fn spec_resolve_item(r: RangeSpec, total: u64) -> Option<(u64, u64)> {
    let start = match r.start {
        StartPos::Index(i) => if i <= total {
            Some(i)
        } else {
            None
        },
        StartPos::FromLast(n) => if n <= total {
            Some((total - n) as u64)
        } else {
            None
        },
    };
    let end = match r.end {
        EndPos::Index(i) => if i <= total {
            Some(i)
        } else {
            None
        },
        EndPos::Last => Some(total),
    };
    match (start, end) {
        (Some(s), Some(e)) => if s <= e {
            Some((s, e))
        } else {
            None
        },
        _ => None,
    }
}

/// What to serve, given the raw `Range` header value (or its absence) and
/// the resource's total length. Serving the whole resource is the answer
/// whenever there is no single satisfiable range to honour.
pub open spec fn spec_resolve_range(header: Option<Seq<u8>>, total: u64) -> RangeDirective {
    match header {
        None => RangeDirective::Whole,
        Some(v) => match spec_parse_range_header(v) {
            None => RangeDirective::Whole,
            Some(ranges) => if ranges.len() == 1 {
                match spec_resolve_item(ranges[0], total) {
                    Some((s, e)) => RangeDirective::Partial { start: s, end: e },
                    None => RangeDirective::Whole,
                }
            } else {
                RangeDirective::Whole
            },
        },
    }
}

/// Reads one `START-END` item.
pub fn parse_range_item(s: &[u8]) -> (r: Option<RangeSpec>)
    ensures
        r == spec_parse_range_item(s@),
{
    let n = s.len();
    match find_byte(s, 0, 45) {
        Some(i) => {
            proof {
                lemma_find_unique(s@, 45, i as int);
                assert(i < n);
            }
            let a = copy_range(s, 0, i);
            let b = copy_range(s, i + 1, n);
            proof {
                assert(a@ =~= s@.take(i as int));
                assert(b@ =~= s@.skip(i as int + 1));
            }
            if a.len() == 0 {
                match parse_u64(b.as_slice()) {
                    Some(n) => Some(RangeSpec { start: StartPos::FromLast(n), end: EndPos::Last }),
                    None => None,
                }
            } else {
                match parse_u64(a.as_slice()) {
                    Some(st) => {
                        if b.len() == 0 {
                            Some(RangeSpec { start: StartPos::Index(st), end: EndPos::Last })
                        } else {
                            match parse_u64(b.as_slice()) {
                                Some(en) => Some(
                                    RangeSpec {
                                        start: StartPos::Index(st),
                                        end: EndPos::Index(en),
                                    },
                                ),
                                None => None,
                            }
                        }
                    },
                    None => None,
                }
            }
        },
        None => {
            proof {
                lemma_find_none(s@, 45);
            }
            None
        },
    }
}

/// Reads the comma-separated items after `bytes=`.
pub fn parse_range_items(s: &[u8]) -> (r: Option<Vec<RangeSpec>>)
    ensures
        match r {
            Some(v) => spec_parse_range_items(s@) == Some(v@),
            None => spec_parse_range_items(s@) is None,
        },
{
    let mut items: Vec<RangeSpec> = Vec::new();
    let mut pos: usize = 0;
    let n = s.len();
    proof {
        assert(s@.skip(0) =~= s@);
        if spec_parse_range_items(s@) is Some {
            assert(items@ + spec_parse_range_items(s@)->Some_0 =~= spec_parse_range_items(
                s@,
            )->Some_0);
        }
    }
    loop
        invariant
            pos <= s@.len(),
            n == s@.len(),
            spec_parse_range_items(s@) == match spec_parse_range_items(s@.skip(pos as int)) {
                Some(rest) => Some(items@ + rest),
                None => None::<Seq<RangeSpec>>,
            },
        decreases s@.len() - pos,
    {
        let ghost rest = s@.skip(pos as int);
        let ghost old_pos = pos as int;
        match find_byte(s, pos, 44) {
            Some(i) => {
                proof {
                    assert(i < n);
                    assert(rest[i - old_pos] == s@[i as int]);
                    assert(forall|j: int| 0 <= j < i - old_pos ==> rest[j] == s@[j + old_pos]);
                    lemma_find_unique(rest, 44, i - old_pos);
                }
                let item = copy_range(s, pos, i);
                proof {
                    assert(item@ =~= rest.take(i - old_pos));
                }
                match parse_range_item(item.as_slice()) {
                    Some(r0) => {
                        let ghost old_items = items@;
                        items.push(r0);
                        pos = i + 1;
                        proof {
                            assert(rest.skip(i - old_pos + 1) =~= s@.skip(pos as int));
                            assert(items@ =~= old_items + seq![r0]);
                            if spec_parse_range_items(s@.skip(pos as int)) is Some {
                                let rr = spec_parse_range_items(s@.skip(pos as int))->Some_0;
                                assert(spec_parse_range_items(rest) == Some(seq![r0] + rr));
                                assert(old_items + (seq![r0] + rr) =~= items@ + rr);
                            } else {
                                assert(spec_parse_range_items(rest) is None);
                            }
                        }
                    },
                    None => {
                        proof {
                            assert(spec_parse_range_items(rest) is None);
                        }
                        return None;
                    },
                }
            },
            None => {
                proof {
                    assert(forall|j: int| 0 <= j < rest.len() ==> rest[j] == s@[j + old_pos]);
                    lemma_find_none(rest, 44);
                }
                let item = copy_range(s, pos, n);
                proof {
                    assert(item@ =~= rest);
                }
                match parse_range_item(item.as_slice()) {
                    Some(r0) => {
                        let ghost old_items = items@;
                        items.push(r0);
                        proof {
                            assert(spec_parse_range_items(rest) == Some(seq![r0]));
                            assert(items@ =~= old_items + seq![r0]);
                        }
                        return Some(items);
                    },
                    None => {
                        proof {
                            assert(spec_parse_range_items(rest) is None);
                        }
                        return None;
                    },
                }
            },
        }
    }
}

/// Reads a whole `Range` header value.
pub fn parse_range_header(s: &[u8]) -> (r: Option<Vec<RangeSpec>>)
    ensures
        match r {
            Some(v) => spec_parse_range_header(s@) == Some(v@),
            None => spec_parse_range_header(s@) is None,
        },
{
    proof {
        reveal_strlit("bytes=");
    }
    if s.len() < 6 {
        return None;
    }
    let prefix = copy_range(s, 0, 6);
    if !bytes_eq(prefix.as_slice(), lit_bytes("bytes=").as_slice()) {
        proof {
            assert(prefix@ =~= s@.take(6));
        }
        return None;
    }
    proof {
        assert(s@.take(6) =~= ascii_seq("bytes="@));
    }
    let rest = copy_range(s, 6, s.len());
    proof {
        assert(rest@ =~= s@.skip(6));
    }
    parse_range_items(rest.as_slice())
}

/// Resolves the `Range` header (or its absence) against the resource's
/// total length. A `Partial` answer always satisfies
/// `start <= end <= total`.
pub fn resolve_range(header: Option<&Vec<u8>>, total: u64) -> (d: RangeDirective)
    ensures
        d == spec_resolve_range(
            match header {
                Some(v) => Some(v@),
                None => None::<Seq<u8>>,
            },
            total,
        ),
        d matches RangeDirective::Partial { start, end } ==> start <= end <= total,
{
    match header {
        None => RangeDirective::Whole,
        Some(v) => {
            match parse_range_header(v.as_slice()) {
                None => RangeDirective::Whole,
                Some(ranges) => {
                    if ranges.len() != 1 {
                        return RangeDirective::Whole;
                    }
                    let r0 = ranges[0];
                    let start_opt: Option<u64> = match r0.start {
                        StartPos::Index(i) => if i <= total {
                            Some(i)
                        } else {
                            None
                        },
                        StartPos::FromLast(n) => if n <= total {
                            Some(total - n)
                        } else {
                            None
                        },
                    };
                    let end_opt: Option<u64> = match r0.end {
                        EndPos::Index(i) => if i <= total {
                            Some(i)
                        } else {
                            None
                        },
                        EndPos::Last => Some(total),
                    };
                    match (start_opt, end_opt) {
                        (Some(s), Some(e)) => if s <= e {
                            RangeDirective::Partial { start: s, end: e }
                        } else {
                            RangeDirective::Whole
                        },
                        _ => RangeDirective::Whole,
                    }
                },
            }
        },
    }
}

} // verus!
