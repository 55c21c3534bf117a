//! The header map shared by requests and responses: an ordered mapping from
//! a case-insensitive header name (kept in its lowercase form) to a single
//! value, where inserting an existing name overwrites its value in place.

use vstd::prelude::*;
use vstd::pervasive::VecAdditionalExecFns;

verus! {

/// A header name byte must be an HTTP token character: a letter, a digit,
/// or one of `! # $ % & ' * + - . ^ _ ` | ~`.
pub open spec fn is_tchar(b: u8) -> bool {
    ||| 97 <= b <= 122  // a-z
    ||| 65 <= b <= 90  // A-Z
    ||| 48 <= b <= 57  // 0-9
    ||| b == 33  // !
    ||| 35 <= b <= 39  // # $ % & '
    ||| b == 42 || b == 43 || b == 45 || b == 46  // * + - .
    ||| b == 94 || b == 95 || b == 96  // ^ _ `
    ||| b == 124 || b == 126  // | ~
}

/// A stored header name: a nonempty token with no uppercase letters.
pub open spec fn wf_name(name: Seq<u8>) -> bool {
    &&& name.len() > 0
    &&& forall|i: int| 0 <= i < name.len() ==> is_tchar(#[trigger] name[i]) && !(65 <= name[i] <= 90)
}

/// A stored header value: free of CR and LF, so emitting it cannot break
/// the line structure of a message head.
pub open spec fn wf_value(value: Seq<u8>) -> bool {
    forall|i: int| 0 <= i < value.len() ==> #[trigger] value[i] != 13 && value[i] != 10
}

/// `h` updated with `(name, value)`: the pair replaces the first entry of
/// that name in place, or comes last when the name is new.
pub open spec fn spec_insert(
    h: Seq<(Seq<u8>, Seq<u8>)>,
    name: Seq<u8>,
    value: Seq<u8>,
) -> Seq<(Seq<u8>, Seq<u8>)>
    decreases h.len(),
{
    if h.len() == 0 {
        seq![(name, value)]
    } else if h[0].0 == name {
        seq![(name, value)] + h.drop_first()
    } else {
        seq![h[0]] + spec_insert(h.drop_first(), name, value)
    }
}

/// The value stored under `name`, if any.
pub open spec fn spec_get(h: Seq<(Seq<u8>, Seq<u8>)>, name: Seq<u8>) -> Option<Seq<u8>>
    decreases h.len(),
{
    if h.len() == 0 {
        None
    } else if h[0].0 == name {
        Some(h[0].1)
    } else {
        spec_get(h.drop_first(), name)
    }
}

/// Every entry of a well-formed map has a well-formed name and value, and
/// no two entries share a name.
pub open spec fn wf_entries(h: Seq<(Seq<u8>, Seq<u8>)>) -> bool {
    &&& forall|i: int| 0 <= i < h.len() ==> wf_name(#[trigger] h[i].0) && wf_value(h[i].1)
    &&& forall|i: int, j: int| 0 <= i < j < h.len() ==> h[i].0 != h[j].0
}

/// An ordered header map. Names are kept lowercase; an insert under an
/// existing name overwrites that entry where it stands.
#[derive(Debug)]
pub struct Headers {
    entries: Vec<(Vec<u8>, Vec<u8>)>,
}

impl View for Headers {
    type V = Seq<(Seq<u8>, Seq<u8>)>;

    closed spec fn view(&self) -> Seq<(Seq<u8>, Seq<u8>)> {
        self.entries.deep_view()
    }
}

/// What one stored entry looks like through the map's view.
proof fn lemma_entry_deep_view(v: Vec<(Vec<u8>, Vec<u8>)>, i: int)
    requires
        0 <= i < v@.len(),
    ensures
        v.deep_view()[i] == (v@[i].0@, v@[i].1@),
{
    assert(v.deep_view()[i] == v@[i].deep_view());
    assert(v@[i].0.deep_view() =~= v@[i].0@);
    assert(v@[i].1.deep_view() =~= v@[i].1@);
}

/// Updating one entry updates the deep view pointwise.
proof fn lemma_set_deep_view(
    v1: Vec<(Vec<u8>, Vec<u8>)>,
    v2: Vec<(Vec<u8>, Vec<u8>)>,
    i: int,
    x: (Vec<u8>, Vec<u8>),
)
    requires
        0 <= i < v1@.len(),
        v2@ == v1@.update(i, x),
    ensures
        v2.deep_view() =~= v1.deep_view().update(i, (x.0@, x.1@)),
{
    assert forall|k: int| 0 <= k < v2.deep_view().len() implies v2.deep_view()[k]
        == v1.deep_view().update(i, (x.0@, x.1@))[k] by {
        if k == i {
            lemma_entry_deep_view(v2, k);
        } else {
            assert(v2@[k] == v1@[k]);
        }
    }
}

/// Appending an entry appends its views to the deep view.
proof fn lemma_push_entry_deep_view(
    v1: Vec<(Vec<u8>, Vec<u8>)>,
    v2: Vec<(Vec<u8>, Vec<u8>)>,
    x: (Vec<u8>, Vec<u8>),
)
    requires
        v2@ == v1@.push(x),
    ensures
        v2.deep_view() =~= v1.deep_view().push((x.0@, x.1@)),
{
    assert forall|k: int| 0 <= k < v2.deep_view().len() implies v2.deep_view()[k]
        == v1.deep_view().push((x.0@, x.1@))[k] by {
        if k < v1@.len() {
            assert(v2@[k] == v1@[k]);
        } else {
            assert(v2@[k] == x);
            lemma_entry_deep_view(v2, k);
        }
    }
}

impl Headers {
    /// The map's internal invariant.
    pub open spec fn wf(&self) -> bool {
        wf_entries(self@)
    }

    /// Makes an empty map.
    pub fn new() -> (r: Headers)
        ensures
            r@ =~= Seq::<(Seq<u8>, Seq<u8>)>::empty(),
            r.wf(),
    {
        Headers { entries: Vec::new() }
    }

    /// How many headers are stored.
    pub fn len(&self) -> (r: usize)
        ensures
            r == self@.len(),
    {
        self.entries.len()
    }

    /// The name and value of the header at `i`, in iteration order.
    pub fn entry_at(&self, i: usize) -> (r: (&Vec<u8>, &Vec<u8>))
        requires
            i < self@.len(),
        ensures
            r.0@ == self@[i as int].0,
            r.1@ == self@[i as int].1,
    {
        let e = &self.entries[i];
        (&e.0, &e.1)
    }

    /// Inserts `value` under `name`, overwriting in place when the name is
    /// already there.
    pub fn insert(&mut self, name: Vec<u8>, value: Vec<u8>)
        requires
            old(self).wf(),
            wf_name(name@),
            wf_value(value@),
        ensures
            final(self)@ == spec_insert(old(self)@, name@, value@),
            final(self).wf(),
    {
        let ghost orig = self@;
        let n = self.entries.len();
        let mut i: usize = 0;
        while i < n
            invariant
                n == self.entries.len(),
                i <= n,
                self@ == orig,
                orig == old(self)@,
                wf_entries(orig),
                wf_name(name@),
                wf_value(value@),
                forall|j: int| 0 <= j < i ==> orig[j].0 != name@,
            decreases n - i,
        {
            proof {
                lemma_entry_deep_view(self.entries, i as int);
            }
            if crate::method::bytes_eq(self.entries[i].0.as_slice(), name.as_slice()) {
                let ghost before = self.entries;
                let ghost nv = name@;
                let ghost vv = value@;
                self.entries.set(i, (name, value));
                proof {
                    lemma_insert_found(orig, nv, vv, i as int);
                    lemma_set_deep_view(before, self.entries, i as int, self.entries@[i as int]);
                    assert(self@ =~= orig.update(i as int, (nv, vv)));
                    lemma_wf_update(orig, nv, vv, i as int);
                }
                return ;
            }
            i = i + 1;
        }
        proof {
            lemma_insert_fresh(orig, name@, value@);
        }
        let ghost before = self.entries;
        let ghost nv = name@;
        let ghost vv = value@;
        self.entries.push((name, value));
        proof {
            lemma_push_entry_deep_view(before, self.entries, self.entries@[self.entries@.len() - 1]);
            assert(self@ =~= orig + seq![(nv, vv)]);
            assert(forall|k: int| 0 <= k < orig.len() ==> self@[k] == orig[k]);
        }
    }

    /// Looks `name` up and hands back its value, if any.
    pub fn get(&self, name: &[u8]) -> (r: Option<&Vec<u8>>)
        ensures
            match r {
                Some(v) => spec_get(self@, name@) == Some(v@),
                None => spec_get(self@, name@) is None,
            },
    {
        let n = self.entries.len();
        let mut i: usize = 0;
        while i < n
            invariant
                n == self.entries.len(),
                i <= n,
                forall|j: int| 0 <= j < i ==> self@[j].0 != name@,
            decreases n - i,
        {
            proof {
                lemma_entry_deep_view(self.entries, i as int);
            }
            if crate::method::bytes_eq(self.entries[i].0.as_slice(), name) {
                proof {
                    lemma_get_found(self@, name@, i as int);
                }
                return Some(&self.entries[i].1);
            }
            i = i + 1;
        }
        proof {
            lemma_get_missing(self@, name@);
        }
        None
    }
}

/// When `name` does not occur, `spec_insert` appends the pair.
pub proof fn lemma_insert_fresh(h: Seq<(Seq<u8>, Seq<u8>)>, name: Seq<u8>, value: Seq<u8>)
    requires
        forall|j: int| 0 <= j < h.len() ==> h[j].0 != name,
    ensures
        spec_insert(h, name, value) =~= h + seq![(name, value)],
    decreases h.len(),
{
    if h.len() > 0 {
        lemma_insert_fresh(h.drop_first(), name, value);
    }
}

/// When `name` first occurs at `i`, `spec_insert` overwrites entry `i`.
pub proof fn lemma_insert_found(h: Seq<(Seq<u8>, Seq<u8>)>, name: Seq<u8>, value: Seq<u8>, i: int)
    requires
        0 <= i < h.len(),
        h[i].0 == name,
        forall|j: int| 0 <= j < i ==> h[j].0 != name,
    ensures
        spec_insert(h, name, value) =~= h.update(i, (name, value)),
    decreases h.len(),
{
    if i > 0 {
        lemma_insert_found(h.drop_first(), name, value, i - 1);
        assert(spec_insert(h, name, value) =~= h.update(i, (name, value)));
    }
}

/// Overwriting one entry with a well-formed pair of the same name keeps
/// the map well-formed.
pub proof fn lemma_wf_update(h: Seq<(Seq<u8>, Seq<u8>)>, name: Seq<u8>, value: Seq<u8>, i: int)
    requires
        wf_entries(h),
        wf_name(name),
        wf_value(value),
        0 <= i < h.len(),
        h[i].0 == name,
    ensures
        wf_entries(h.update(i, (name, value))),
{
}

/// Inserting a well-formed pair keeps the map well-formed, and every
/// entry of the result is the new pair or one the map already had.
pub proof fn lemma_insert_wf(h: Seq<(Seq<u8>, Seq<u8>)>, name: Seq<u8>, value: Seq<u8>)
    requires
        wf_entries(h),
        wf_name(name),
        wf_value(value),
    ensures
        wf_entries(spec_insert(h, name, value)),
        forall|k: int|
            0 <= k < spec_insert(h, name, value).len() ==> #[trigger] spec_insert(h, name, value)[k]
                == (name, value) || (exists|j: int|
                0 <= j < h.len() && h[j] == spec_insert(h, name, value)[k]),
{
    if exists|j: int| 0 <= j < h.len() && (#[trigger] h[j]).0 == name {
        let j = choose|j: int| 0 <= j < h.len() && (#[trigger] h[j]).0 == name;
        assert(forall|k: int| 0 <= k < h.len() && k != j ==> (#[trigger] h[k]).0 != name);
        lemma_insert_found(h, name, value, j);
        lemma_wf_update(h, name, value, j);
        assert(forall|k: int|
            0 <= k < h.update(j, (name, value)).len() && k != j ==> h.update(j, (name, value))[k]
                == h[k]);
    } else {
        assert(forall|k: int| 0 <= k < h.len() ==> (#[trigger] h[k]).0 != name);
        lemma_insert_fresh(h, name, value);
        let r = h + seq![(name, value)];
        assert(forall|k: int| 0 <= k < h.len() ==> #[trigger] r[k] == h[k]);
        assert(r[h.len() as int] == (name, value));
    }
}

/// When the first match for `name` stands at `i`, `spec_get` returns its value.
pub proof fn lemma_get_found(h: Seq<(Seq<u8>, Seq<u8>)>, name: Seq<u8>, i: int)
    requires
        0 <= i < h.len(),
        h[i].0 == name,
        forall|j: int| 0 <= j < i ==> h[j].0 != name,
    ensures
        spec_get(h, name) == Some(h[i].1),
    decreases h.len(),
{
    if i > 0 {
        lemma_get_found(h.drop_first(), name, i - 1);
    }
}

/// When no entry carries `name`, `spec_get` returns nothing.
pub proof fn lemma_get_missing(h: Seq<(Seq<u8>, Seq<u8>)>, name: Seq<u8>)
    requires
        forall|j: int| 0 <= j < h.len() ==> h[j].0 != name,
    ensures
        spec_get(h, name) is None,
    decreases h.len(),
{
    if h.len() > 0 {
        lemma_get_missing(h.drop_first(), name);
    }
}

} // verus!
