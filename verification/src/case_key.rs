//! Case-insensitive header keys and the map view of a header block, in which
//! the values of a repeated key are joined with `","`.
use crate::bytes::{eq_ignore_ascii_case, eq_ignore_case};
use crate::header::{decoded, HeaderMap, HeaderMapModel};
use vstd::prelude::*;
use vstd::std_specs::cmp::PartialEqSpecImpl;
use vstd::string::{StrSliceExecFns, StringExecFns};
use vstd::utf8::encode_utf8;

verus! {

/// Case-insensitive string key for headers.
#[derive(Debug)]
pub struct CaseInsensitiveKey(String);

/// Two texts are the same key when their UTF-8 bytes are equal ignoring ASCII
/// case (what `str::eq_ignore_ascii_case` compares).
pub open spec fn same_key(a: Seq<char>, b: Seq<char>) -> bool {
    eq_ignore_case(encode_utf8(a), encode_utf8(b))
}

impl View for CaseInsensitiveKey {
    type V = Seq<char>;

    closed spec fn view(&self) -> Seq<char> {
        self.0@
    }
}

impl CaseInsensitiveKey {
    /// A key with the given text.
    pub fn new(s: String) -> (r: Self)
        ensures
            r@ == s@,
    {
        CaseInsensitiveKey(s)
    }

    /// The text of the key, as it was given.
    pub fn as_str(&self) -> (r: &str)
        ensures
            r@ == self@,
    {
        self.0.as_str()
    }

    /// Give back the text of the key.
    pub fn into_string(self) -> (r: String)
        ensures
            r@ == self@,
    {
        self.0
    }
}

impl PartialEq for CaseInsensitiveKey {
    fn eq(&self, other: &Self) -> (r: bool) {
        eq_ignore_ascii_case(self.0.as_str().as_bytes(), other.0.as_str().as_bytes())
    }
}

impl PartialEqSpecImpl for CaseInsensitiveKey {
    open spec fn obeys_eq_spec() -> bool {
        true
    }

    open spec fn eq_spec(&self, other: &Self) -> bool {
        same_key(self@, other@)
    }
}

impl From<String> for CaseInsensitiveKey {
    fn from(key: String) -> (r: Self) {
        CaseInsensitiveKey(key)
    }
}

impl vstd::std_specs::convert::FromSpecImpl<String> for CaseInsensitiveKey {
    open spec fn obeys_from_spec() -> bool {
        true
    }

    closed spec fn from_spec(key: String) -> Self {
        CaseInsensitiveKey(key)
    }
}

/// Index of the first entry at or after `i` whose key is `k` (ignoring ASCII
/// case), or `m.len()` if there is none.
pub open spec fn key_index_from(m: Seq<(Seq<char>, Seq<char>)>, k: Seq<char>, i: int) -> int
    decreases m.len() - i,
{
    if i < 0 || i >= m.len() {
        m.len() as int
    } else if same_key(m[i].0, k) {
        i
    } else {
        key_index_from(m, k, i + 1)
    }
}

/// `m` with `v` added under `k`: joined with `","` to the value of the entry
/// with the same key, or as a new entry at the end.
pub open spec fn merge_entry(m: Seq<(Seq<char>, Seq<char>)>, k: Seq<char>, v: Seq<char>) -> Seq<(Seq<char>, Seq<char>)> {
    let i = key_index_from(m, k, 0);
    if i < m.len() {
        m.update(i, (m[i].0, m[i].1 + seq![','] + v))
    } else {
        m.push((k, v))
    }
}

/// The map view of a list of header items: one entry per key (ignoring
/// ASCII case), in the order of first appearance, keyed by the first
/// spelling, with all values of the key joined by `","`.
pub open spec fn merged(items: Seq<(Seq<char>, Seq<char>)>) -> Seq<(Seq<char>, Seq<char>)>
    decreases items.len(),
{
    if items.len() == 0 {
        Seq::empty()
    } else {
        merge_entry(merged(items.drop_last()), items.last().0, items.last().1)
    }
}

/// The header items of `h` as text.
pub open spec fn text_items(h: HeaderMapModel) -> Seq<(Seq<char>, Seq<char>)> {
    Seq::new(h.fields.len(), |j: int| (decoded(h.encoding, h.fields[j].0), decoded(h.encoding, h.fields[j].1)))
}

pub open spec fn entries_view(v: Seq<(CaseInsensitiveKey, String)>) -> Seq<(Seq<char>, Seq<char>)> {
    Seq::new(v.len(), |j: int| (v[j].0@, v[j].1@))
}

/// No two entries have the same key.
pub open spec fn keys_distinct(m: Seq<(Seq<char>, Seq<char>)>) -> bool {
    forall|i: int, j: int| 0 <= i < j < m.len() ==> !same_key(#[trigger] m[i].0, #[trigger] m[j].0)
}

proof fn lemma_key_index_bounds(m: Seq<(Seq<char>, Seq<char>)>, k: Seq<char>, i: int)
    requires
        0 <= i <= m.len(),
    ensures
        i <= key_index_from(m, k, i) <= m.len(),
        key_index_from(m, k, i) < m.len() ==> same_key(m[key_index_from(m, k, i)].0, k),
        forall|j: int| i <= j < key_index_from(m, k, i) ==> !same_key(#[trigger] m[j].0, k),
    decreases m.len() - i,
{
    if i < m.len() && !same_key(m[i].0, k) {
        lemma_key_index_bounds(m, k, i + 1);
    }
}

/// Keys never repeat in the map view of a header block.
pub proof fn law_merged_keys_distinct(items: Seq<(Seq<char>, Seq<char>)>)
    ensures
        keys_distinct(merged(items)),
    decreases items.len(),
{
    if items.len() > 0 {
        let m = merged(items.drop_last());
        law_merged_keys_distinct(items.drop_last());
        let k = items.last().0;
        lemma_key_index_bounds(m, k, 0);
        let r = merged(items);
        if key_index_from(m, k, 0) >= m.len() {
            assert forall|i: int, j: int| 0 <= i < j < r.len() implies !same_key(
                #[trigger] r[i].0,
                #[trigger] r[j].0,
            ) by {
                if j == m.len() {
                    assert(!same_key(m[i].0, k));
                }
            }
        }
    }
}

/// Every key of the items is a key of the map view, and every key of the map
/// view is the key of some item.
pub proof fn law_merged_keys(items: Seq<(Seq<char>, Seq<char>)>)
    ensures
        forall|i: int|
            0 <= i < items.len() ==> key_index_from(merged(items), #[trigger] items[i].0, 0) < merged(
                items,
            ).len(),
        forall|j: int|
            0 <= j < merged(items).len() ==> exists|i: int|
                0 <= i < items.len() && #[trigger] items[i].0 == #[trigger] merged(items)[j].0,
    decreases items.len(),
{
    if items.len() > 0 {
        let p = items.drop_last();
        let m = merged(p);
        law_merged_keys(p);
        let k = items.last().0;
        lemma_key_index_bounds(m, k, 0);
        let r = merged(items);
        assert forall|i: int| 0 <= i < items.len() implies key_index_from(r, #[trigger] items[i].0, 0) < r.len() by {
            lemma_key_index_bounds(r, items[i].0, 0);
            if i < p.len() {
                assert(items[i] == p[i]);
                lemma_key_index_bounds(m, p[i].0, 0);
                let x = key_index_from(m, p[i].0, 0);
                assert(r[x].0 == m[x].0);
                if key_index_from(r, items[i].0, 0) >= r.len() {
                    assert(!same_key(r[x].0, items[i].0));
                }
            } else {
                if key_index_from(m, k, 0) < m.len() {
                    let x = key_index_from(m, k, 0);
                    assert(r[x].0 == m[x].0);
                    if key_index_from(r, k, 0) >= r.len() {
                        assert(!same_key(r[x].0, k));
                    }
                } else {
                    assert(r[m.len() as int].0 == k);
                    assert(same_key(k, k));
                    if key_index_from(r, k, 0) >= r.len() {
                        assert(!same_key(r[m.len() as int].0, k));
                    }
                }
            }
        }
        assert forall|j: int| 0 <= j < r.len() implies exists|i: int|
            0 <= i < items.len() && #[trigger] items[i].0 == #[trigger] r[j].0 by {
            if j < m.len() {
                assert(r[j].0 == m[j].0);
                let i = choose|i: int| 0 <= i < p.len() && #[trigger] p[i].0 == #[trigger] m[j].0;
                assert(items[i] == p[i]);
            } else {
                assert(items[items.len() - 1].0 == r[j].0);
            }
        }
    }
}

impl HeaderMap {
    /// Return the headers as a map of Unicode strings: one entry per key
    /// (compared ignoring ASCII case, spelled as it first appears), in order
    /// of first appearance.
    ///
    /// If multiple headers have the same key, their values will be
    /// concatenated with `","`.
    pub fn to_map(&self) -> (r: Vec<(CaseInsensitiveKey, String)>)
        ensures
            entries_view(r@) == merged(text_items(self@)),
            keys_distinct(entries_view(r@)),
    {
        let items = self.items();
        let ghost all = text_items(self@);
        let mut out: Vec<(CaseInsensitiveKey, String)> = Vec::new();
        let n = items.len();
        let mut i: usize = 0;
        assert(all.take(0) =~= Seq::<(Seq<char>, Seq<char>)>::empty());
        while i < n
            invariant
                n == items@.len(),
                n == all.len(),
                i <= n,
                forall|j: int|
                    0 <= j < n ==> (#[trigger] items@[j]).0@ == all[j].0 && items@[j].1@ == all[j].1,
                entries_view(out@) == merged(all.take(i as int)),
            decreases n - i,
        {
            let key = items[i].0.as_str();
            let value = items[i].1.as_str();
            let ghost m = entries_view(out@);
            proof {
                lemma_key_index_bounds(m, key@, 0);
            }
            let mut j: usize = 0;
            while j < out.len()
                invariant
                    m == entries_view(out@),
                    j <= out@.len(),
                    key_index_from(m, key@, 0) == key_index_from(m, key@, j as int),
                ensures
                    key_index_from(m, key@, 0) == j,
                decreases out@.len() - j,
            {
                if eq_ignore_ascii_case(out[j].0.0.as_str().as_bytes(), key.as_bytes()) {
                    break;
                }
                j = j + 1;
            }
            assert(all.take(i + 1).drop_last() =~= all.take(i as int));
            if j < out.len() {
                let ghost before = out@;
                let (k0, mut v0) = out.remove(j);
                proof {
                    reveal_strlit(",");
                }
                v0.append(",");
                v0.append(value);
                assert(v0@ =~= m[j as int].1 + seq![','] + value@);
                assert(k0@ == m[j as int].0);
                out.insert(j, (k0, v0));
                assert(out@ =~= before.update(j as int, (k0, v0)));
                assert(entries_view(out@) =~= merge_entry(m, key@, value@));
            } else {
                let k = CaseInsensitiveKey::new(String::from_str(key));
                out.push((k, String::from_str(value)));
                assert(entries_view(out@) =~= merge_entry(m, key@, value@));
            }
            i = i + 1;
        }
        assert(all.take(n as int) =~= all);
        proof {
            law_merged_keys_distinct(all);
        }
        out
    }
}

} // verus!
