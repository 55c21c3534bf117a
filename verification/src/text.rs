//! Byte-level text primitives shared by the codec: ASCII literals as byte
//! sequences, first-occurrence search, and splitting a byte stream into
//! lines the way a buffered line reader does (split at LF, strip a trailing
//! CR from each LF-terminated line).

use vstd::prelude::*;
use vstd::slice::slice_subrange;
use vstd::slice::slice_to_vec;
use vstd::string::StringSliceAdditionalSpecFns;
use vstd::string::StrSliceExecFns;

verus! {

broadcast use vstd::string::group_string_axioms;

/// The bytes of an ASCII character sequence, one byte per character.
pub open spec fn ascii_seq(s: Seq<char>) -> Seq<u8> {
    Seq::new(s.len(), |i: int| s[i] as u8)
}

/// The bytes of an ASCII string slice.
pub fn lit_bytes(s: &str) -> (r: Vec<u8>)
    requires
        s.is_ascii(),
    ensures
        r@ == ascii_seq(s@),
{
    let r = s.as_bytes_vec();
    proof {
        assert(r@ =~= ascii_seq(s@));
    }
    r
}

/// The position of the first occurrence of `b` in `s`, if any.
pub open spec fn spec_find(s: Seq<u8>, b: u8) -> Option<int>
    decreases s.len(),
{
    if s.len() == 0 {
        None
    } else if s[0] == b {
        Some(0int)
    } else {
        match spec_find(s.drop_first(), b) {
            Some(i) => Some(i + 1),
            None => None,
        }
    }
}

/// `spec_find` returns the first occurrence: the byte is there, and no
/// earlier position holds it; `None` means the byte does not occur at all.
pub proof fn lemma_find_first(s: Seq<u8>, b: u8)
    ensures
        match spec_find(s, b) {
            Some(i) => 0 <= i < s.len() && s[i] == b && (forall|j: int| 0 <= j < i ==> s[j] != b),
            None => forall|j: int| 0 <= j < s.len() ==> s[j] != b,
        },
    decreases s.len(),
{
    if s.len() > 0 && s[0] != b {
        lemma_find_first(s.drop_first(), b);
        let t = s.drop_first();
        assert(forall|j: int| 0 <= j < t.len() ==> t[j] == s[j + 1]);
        if spec_find(t, b) is Some {
            let i = spec_find(t, b)->Some_0;
            assert(s[i + 1] == t[i]);
            assert forall|j: int| 0 <= j < i + 1 implies s[j] != b by {
                if j > 0 {
                    assert(s[j] == t[j - 1]);
                }
            }
        } else {
            assert forall|j: int| 0 <= j < s.len() implies s[j] != b by {
                if j > 0 {
                    assert(s[j] == t[j - 1]);
                }
            }
        }
    }
}

/// A position that holds `b`, with no occurrence before it, is what
/// `spec_find` returns.
pub proof fn lemma_find_unique(s: Seq<u8>, b: u8, i: int)
    requires
        0 <= i < s.len(),
        s[i] == b,
        forall|j: int| 0 <= j < i ==> s[j] != b,
    ensures
        spec_find(s, b) == Some(i),
    decreases s.len(),
{
    if i > 0 {
        lemma_find_unique(s.drop_first(), b, i - 1);
    }
}

/// When `b` occurs nowhere in `s`, `spec_find` reports so.
pub proof fn lemma_find_none(s: Seq<u8>, b: u8)
    requires
        forall|j: int| 0 <= j < s.len() ==> s[j] != b,
    ensures
        spec_find(s, b) is None,
{
    lemma_find_first(s, b);
}

/// Finds the first occurrence of `b` in `s` at or after position `from`.
pub fn find_byte(s: &[u8], from: usize, b: u8) -> (r: Option<usize>)
    requires
        from <= s@.len(),
    ensures
        match r {
            Some(i) => from <= i < s@.len() && s@[i as int] == b && (forall|j: int|
                from <= j < i ==> s@[j] != b),
            None => forall|j: int| from <= j < s@.len() ==> s@[j] != b,
        },
{
    let mut i: usize = from;
    while i < s.len()
        invariant
            from <= i <= s@.len(),
            forall|j: int| from <= j < i ==> s@[j] != b,
        decreases s@.len() - i,
    {
        if s[i] == b {
            return Some(i);
        }
        i = i + 1;
    }
    None
}

/// A line with its terminating CR removed, if it ends in one.
pub open spec fn strip_cr(line: Seq<u8>) -> Seq<u8> {
    if line.len() > 0 && line[line.len() - 1] == 13 {
        line.drop_last()
    } else {
        line
    }
}

/// The lines of `s`: split at each LF, strip a trailing CR from each
/// LF-terminated line, and keep any unterminated rest as a final raw line.
pub open spec fn spec_lines(s: Seq<u8>) -> Seq<Seq<u8>>
    decreases s.len(),
    via spec_lines_decreases
{
    if s.len() == 0 {
        Seq::empty()
    } else {
        match spec_find(s, 10) {
            Some(i) => seq![strip_cr(s.take(i))] + spec_lines(s.skip(i + 1)),
            None => seq![s],
        }
    }
}

#[via_fn]
proof fn spec_lines_decreases(s: Seq<u8>) {
    if s.len() > 0 {
        lemma_find_first(s, 10);
    }
}

/// Copies the bytes of `s` between positions `from` and `to`.
pub fn copy_range(s: &[u8], from: usize, to: usize) -> (r: Vec<u8>)
    requires
        from <= to <= s@.len(),
    ensures
        r@ == s@.subrange(from as int, to as int),
{
    slice_to_vec(slice_subrange(s, from, to))
}

/// Whether `b` is linear whitespace: a space or a horizontal tab.
pub open spec fn is_ws(b: u8) -> bool {
    b == 32 || b == 9
}

/// `s` without its leading whitespace.
pub open spec fn spec_trim_front(s: Seq<u8>) -> Seq<u8>
    decreases s.len(),
{
    if s.len() > 0 && is_ws(s[0]) {
        spec_trim_front(s.drop_first())
    } else {
        s
    }
}

/// `s` without its trailing whitespace.
pub open spec fn spec_trim_back(s: Seq<u8>) -> Seq<u8>
    decreases s.len(),
{
    if s.len() > 0 && is_ws(s[s.len() - 1]) {
        spec_trim_back(s.drop_last())
    } else {
        s
    }
}

/// `s` without leading and trailing whitespace.
pub open spec fn spec_trim(s: Seq<u8>) -> Seq<u8> {
    spec_trim_back(spec_trim_front(s))
}

/// Trimming the front keeps a whitespace-free suffix: when everything
/// before `i` is whitespace and `i` is not (or is the end), the front-trim
/// is exactly the suffix from `i`.
pub proof fn lemma_trim_front_at(s: Seq<u8>, i: int)
    requires
        0 <= i <= s.len(),
        forall|j: int| 0 <= j < i ==> is_ws(#[trigger] s[j]),
        i < s.len() ==> !is_ws(s[i]),
    ensures
        spec_trim_front(s) =~= s.skip(i),
    decreases s.len(),
{
    if s.len() > 0 && is_ws(s[0]) {
        assert(i > 0);
        let t = s.drop_first();
        assert(forall|j: int| 0 <= j < i - 1 ==> t[j] == s[j + 1]);
        lemma_trim_front_at(t, i - 1);
        assert(t.skip(i - 1) =~= s.skip(i));
    } else {
        assert(i == 0);
        assert(s.skip(0) =~= s);
    }
}

/// The twin of `lemma_trim_front_at` for the back.
pub proof fn lemma_trim_back_at(s: Seq<u8>, i: int)
    requires
        0 <= i <= s.len(),
        forall|j: int| i <= j < s.len() ==> is_ws(#[trigger] s[j]),
        i > 0 ==> !is_ws(s[i - 1]),
    ensures
        spec_trim_back(s) =~= s.take(i),
    decreases s.len(),
{
    if s.len() > 0 && is_ws(s[s.len() - 1]) {
        assert(i < s.len());
        let t = s.drop_last();
        assert(forall|j: int| 0 <= j < t.len() ==> t[j] == s[j]);
        lemma_trim_back_at(t, i);
        assert(t.take(i) =~= s.take(i));
    } else {
        assert(i == s.len());
        assert(s.take(i) =~= s);
    }
}

/// Copies `s` without its leading and trailing whitespace.
pub fn trim_bytes(s: &[u8]) -> (r: Vec<u8>)
    ensures
        r@ == spec_trim(s@),
{
    let n = s.len();
    let mut a: usize = 0;
    while a < n && (s[a] == 32 || s[a] == 9)
        invariant
            a <= n,
            n == s@.len(),
            forall|j: int| 0 <= j < a ==> is_ws(#[trigger] s@[j]),
        decreases n - a,
    {
        a = a + 1;
    }
    proof {
        lemma_trim_front_at(s@, a as int);
    }
    let mut b: usize = n;
    while b > a && (s[b - 1] == 32 || s[b - 1] == 9)
        invariant
            a <= b <= n,
            n == s@.len(),
            forall|j: int| b <= j < n ==> is_ws(#[trigger] s@[j]),
        decreases b,
    {
        b = b - 1;
    }
    let r = copy_range(s, a, b);
    proof {
        let front = s@.skip(a as int);
        assert(forall|j: int| 0 <= j < front.len() ==> front[j] == s@[j + a]);
        lemma_trim_back_at(front, b - a);
        assert(front.take(b - a) =~= s@.subrange(a as int, b as int));
    }
    r
}

/// A string with no whitespace at all is already trimmed.
pub proof fn lemma_trim_id(s: Seq<u8>)
    requires
        forall|i: int| 0 <= i < s.len() ==> !is_ws(#[trigger] s[i]),
    ensures
        spec_trim(s) == s,
{
    assert(spec_trim_front(s) == s);
    assert(spec_trim_back(s) == s);
}

/// One space in front of a trimmed value trims away again.
pub proof fn lemma_trim_space_front(v: Seq<u8>)
    requires
        spec_trim(v) == v,
    ensures
        spec_trim(seq![32u8] + v) == v,
{
    let s = seq![32u8] + v;
    assert(s.len() > 0 && is_ws(s[0]));
    assert(s.drop_first() =~= v);
    assert(spec_trim_front(s) == spec_trim_front(v));
}

/// An uppercase ASCII letter mapped to its lowercase form; any other byte
/// unchanged.
pub open spec fn spec_lower_byte(b: u8) -> u8 {
    if 65 <= b <= 90 {
        (b + 32) as u8
    } else {
        b
    }
}

/// `s` with every ASCII uppercase letter lowercased.
pub open spec fn spec_lower(s: Seq<u8>) -> Seq<u8> {
    Seq::new(s.len(), |i: int| spec_lower_byte(s[i]))
}

/// A string with no uppercase letters is already lowercase.
pub proof fn lemma_lower_id(s: Seq<u8>)
    requires
        forall|i: int| 0 <= i < s.len() ==> !(65 <= #[trigger] s[i] <= 90),
    ensures
        spec_lower(s) == s,
{
    assert(spec_lower(s) =~= s);
}

/// Copies `s` with every ASCII uppercase letter lowercased.
pub fn lower_bytes(s: &[u8]) -> (r: Vec<u8>)
    ensures
        r@ == spec_lower(s@),
{
    let mut r: Vec<u8> = Vec::new();
    let mut i: usize = 0;
    while i < s.len()
        invariant
            i <= s@.len(),
            r@.len() == i,
            forall|j: int| 0 <= j < i ==> r@[j] == spec_lower_byte(s@[j]),
        decreases s@.len() - i,
    {
        let b = s[i];
        if 65 <= b && b <= 90 {
            r.push(b + 32);
        } else {
            r.push(b);
        }
        i = i + 1;
    }
    proof {
        assert(r@ =~= spec_lower(s@));
    }
    r
}

/// Pushing onto a vector of byte vectors pushes the element's view onto
/// the deep view.
pub proof fn lemma_push_deep_view(v1: Vec<Vec<u8>>, v2: Vec<Vec<u8>>, x: Vec<u8>)
    requires
        v2@ == v1@.push(x),
    ensures
        v2.deep_view() =~= v1.deep_view().push(x@),
{
    assert forall|k: int| 0 <= k < v2.deep_view().len() implies v2.deep_view()[k]
        == v1.deep_view().push(x@)[k] by {
        if k < v1@.len() {
            assert(v2@[k] == v1@[k]);
        } else {
            assert(v2@[k] == x);
            assert(x.deep_view() =~= x@);
        }
    }
}

/// Splits a byte buffer into its lines, as `spec_lines` describes.
pub fn split_lines(s: &[u8]) -> (r: Vec<Vec<u8>>)
    ensures
        r.deep_view() == spec_lines(s@),
{
    let mut r: Vec<Vec<u8>> = Vec::new();
    let mut pos: usize = 0;
    proof {
        assert(s@.skip(0) =~= s@);
        assert(r.deep_view() =~= Seq::<Seq<u8>>::empty());
        assert(Seq::<Seq<u8>>::empty() + spec_lines(s@) =~= spec_lines(s@));
    }
    while pos < s.len()
        invariant
            pos <= s@.len(),
            spec_lines(s@) == r.deep_view() + spec_lines(s@.skip(pos as int)),
        decreases s@.len() - pos,
    {
        let ghost rest = s@.skip(pos as int);
        let ghost old_pos = pos as int;
        let ghost old_r = r;
        match find_byte(s, pos, 10) {
            Some(i) => {
                proof {
                    assert(rest[i - pos] == s@[i as int]);
                    assert(forall|j: int| 0 <= j < i - pos ==> rest[j] == s@[j + pos]);
                    lemma_find_unique(rest, 10, i - pos);
                }
                let mut line = copy_range(s, pos, i);
                proof {
                    assert(line@ =~= rest.take(i - old_pos));
                }
                if line.len() > 0 && line[line.len() - 1] == 13 {
                    line.pop();
                    proof {
                        assert(line@ =~= strip_cr(rest.take(i - old_pos)));
                    }
                }
                proof {
                    assert(line@ =~= strip_cr(rest.take(i - old_pos)));
                }
                r.push(line);
                pos = i + 1;
                proof {
                    lemma_push_deep_view(old_r, r, line);
                    assert(rest.skip(i - old_pos + 1) =~= s@.skip(pos as int));
                    assert(spec_lines(rest) == seq![line@] + spec_lines(s@.skip(pos as int)));
                    assert(r.deep_view() =~= old_r.deep_view() + seq![line@]);
                    assert((old_r.deep_view() + seq![line@]) + spec_lines(s@.skip(pos as int))
                        =~= old_r.deep_view() + (seq![line@] + spec_lines(s@.skip(pos as int))));
                    assert(spec_lines(s@) == r.deep_view() + spec_lines(s@.skip(pos as int)));
                }
            },
            None => {
                proof {
                    assert(forall|j: int| 0 <= j < rest.len() ==> rest[j] == s@[j + pos]);
                    lemma_find_none(rest, 10);
                }
                let line = copy_range(s, pos, s.len());
                proof {
                    assert(line@ =~= rest);
                }
                r.push(line);
                pos = s.len();
                proof {
                    lemma_push_deep_view(old_r, r, line);
                    assert(spec_lines(rest) == seq![rest]);
                    assert(s@.skip(pos as int) =~= Seq::<u8>::empty());
                    assert(spec_lines(s@.skip(pos as int)) =~= Seq::<Seq<u8>>::empty());
                    assert(r.deep_view() =~= old_r.deep_view() + seq![rest]);
                    assert((old_r.deep_view() + seq![rest]) + spec_lines(s@.skip(pos as int))
                        =~= old_r.deep_view() + (seq![rest] + spec_lines(s@.skip(pos as int))));
                    assert(spec_lines(s@) == r.deep_view() + spec_lines(s@.skip(pos as int)));
                }
            },
        }
    }
    proof {
        assert(s@.skip(pos as int) =~= Seq::<u8>::empty());
        assert(spec_lines(s@) =~= r.deep_view());
    }
    r
}

} // verus!
