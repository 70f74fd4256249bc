//! The token list of an element's `class` attribute: the distinct
//! whitespace-separated tokens of the attribute text, and the edits that
//! rewrite the text from a changed token list.
use crate::bytes::bytes_eq;
use vstd::prelude::*;
use vstd::string::{StrSliceExecFns, StringExecFns};
use vstd::utf8::encode_utf8;

verus! {

/// ASCII white space as `split_ascii_whitespace` sees it.
pub open spec fn is_ws(c: char) -> bool {
    c == ' ' || c == '\t' || c == '\n' || c == '\x0C' || c == '\r'
}

/// The words of `s`: its maximal runs of characters that are not ASCII
/// white space, in order.
pub open spec fn words(s: Seq<char>) -> Seq<Seq<char>>
    decreases s.len(),
{
    if s.len() == 0 {
        Seq::empty()
    } else {
        let w = words(s.drop_last());
        let c = s.last();
        if is_ws(c) {
            w
        } else if s.len() >= 2 && !is_ws(s[s.len() - 2]) {
            w.update(w.len() - 1, w.last().push(c))
        } else {
            w.push(seq![c])
        }
    }
}

/// `ts` without repetitions, keeping first occurrences.
pub open spec fn dedup(ts: Seq<Seq<char>>) -> Seq<Seq<char>>
    decreases ts.len(),
{
    if ts.len() == 0 {
        Seq::empty()
    } else {
        let d = dedup(ts.drop_last());
        if d.contains(ts.last()) {
            d
        } else {
            d.push(ts.last())
        }
    }
}

/// The token list of a class attribute text.
pub open spec fn token_list(s: Seq<char>) -> Seq<Seq<char>> {
    dedup(words(s))
}

/// `ts` joined with single spaces.
pub open spec fn join(ts: Seq<Seq<char>>) -> Seq<char>
    decreases ts.len(),
{
    if ts.len() == 0 {
        Seq::empty()
    } else if ts.len() == 1 {
        ts[0]
    } else {
        join(ts.drop_last()) + seq![' '] + ts.last()
    }
}

/// `vs` with each of `ts` appended that is not in it yet.
pub open spec fn add_all(vs: Seq<Seq<char>>, ts: Seq<Seq<char>>) -> Seq<Seq<char>>
    decreases ts.len(),
{
    if ts.len() == 0 {
        vs
    } else {
        let a = add_all(vs, ts.drop_last());
        if a.contains(ts.last()) {
            a
        } else {
            a.push(ts.last())
        }
    }
}

/// `vs` without the members of `ts`.
pub open spec fn remove_all(vs: Seq<Seq<char>>, ts: Seq<Seq<char>>) -> Seq<Seq<char>>
    decreases vs.len(),
{
    if vs.len() == 0 {
        vs
    } else {
        let r = remove_all(vs.drop_last(), ts);
        if ts.contains(vs.last()) {
            r
        } else {
            r.push(vs.last())
        }
    }
}

proof fn lemma_contains_push<A>(s: Seq<A>, x: A, y: A)
    ensures
        s.push(x).contains(y) == (s.contains(y) || x == y),
{
    if s.push(x).contains(y) && x != y {
        let i = choose|i: int| 0 <= i < s.push(x).len() && s.push(x)[i] == y;
        assert(s[i] == y);
    }
    if s.contains(y) {
        let i = choose|i: int| 0 <= i < s.len() && s[i] == y;
        assert(s.push(x)[i] == y);
    }
    if x == y {
        assert(s.push(x)[s.len() as int] == y);
    }
}

/// `vs` with `old` replaced by `new` wherever it occurs.
pub open spec fn replaced(vs: Seq<Seq<char>>, old: Seq<char>, new: Seq<char>) -> Seq<Seq<char>> {
    vs.map_values(|v: Seq<char>| if v == old { new } else { v })
}

/// A token that stays one token in a class text: not empty, no white space.
pub open spec fn is_token(t: Seq<char>) -> bool {
    t.len() > 0 && forall|i: int| 0 <= i < t.len() ==> !is_ws(#[trigger] t[i])
}

pub open spec fn strings_view(v: Seq<String>) -> Seq<Seq<char>> {
    v.map_values(|s: String| s@)
}

pub open spec fn strs_view(v: Seq<&str>) -> Seq<Seq<char>> {
    v.map_values(|s: &str| s@)
}

/// Whether two texts are equal.
fn text_eq(a: &str, b: &str) -> (r: bool)
    ensures
        r == (a@ == b@),
{
    proof {
        vstd::utf8::encode_utf8_decode_utf8(a@);
        vstd::utf8::encode_utf8_decode_utf8(b@);
    }
    bytes_eq(a.as_bytes(), b.as_bytes())
}

/// Whether `c` is ASCII white space.
fn is_ws_char(c: char) -> (r: bool)
    ensures
        r == is_ws(c),
{
    c == ' ' || c == '\t' || c == '\n' || c == '\x0C' || c == '\r'
}

/// Whether `v` holds a string equal to `t`.
fn contains_text(v: &Vec<String>, t: &str) -> (r: bool)
    ensures
        r == strings_view(v@).contains(t@),
{
    let mut i: usize = 0;
    while i < v.len()
        invariant
            i <= v@.len(),
            forall|j: int| 0 <= j < i ==> v@[j]@ != t@,
        decreases v@.len() - i,
    {
        if text_eq(v[i].as_str(), t) {
            assert(strings_view(v@)[i as int] == t@);
            return true;
        }
        i = i + 1;
    }
    assert forall|j: int| 0 <= j < strings_view(v@).len() implies strings_view(v@)[j] != t@ by {
        assert(v@[j]@ != t@);
    }
    false
}

proof fn lemma_word_run(s: Seq<char>, start: int, k: int)
    requires
        0 <= start < k <= s.len(),
        start == 0 || is_ws(s[start - 1]),
        forall|j: int| start <= j < k ==> !is_ws(#[trigger] s[j]),
    ensures
        words(s.take(k)) == words(s.take(start)).push(s.subrange(start, k)),
    decreases k - start,
{
    assert(s.take(k).drop_last() =~= s.take(k - 1));
    assert(s.take(k).last() == s[k - 1]);
    if k - 1 == start {
        assert(seq![s[start]] =~= s.subrange(start, k));
    } else {
        lemma_word_run(s, start, k - 1);
        assert(s.take(k)[k - 2] == s[k - 2]);
        assert(s.subrange(start, k - 1).push(s[k - 1]) =~= s.subrange(start, k));
    }
}

/// The distinct tokens of `s`, in order of first appearance.
fn token_values(s: &str) -> (r: Vec<String>)
    ensures
        strings_view(r@) == token_list(s@),
{
    let n = s.unicode_len();
    let mut out: Vec<String> = Vec::new();
    let mut i: usize = 0;
    assert(s@.take(0) =~= Seq::<char>::empty());
    assert(strings_view(out@) =~= Seq::<Seq<char>>::empty());
    while i < n
        invariant
            n == s@.len(),
            i <= n,
            i < n && !is_ws(s@[i as int]) ==> (i == 0 || is_ws(s@[i - 1])),
            strings_view(out@) == dedup(words(s@.take(i as int))),
        decreases n - i,
    {
        if is_ws_char(s.get_char(i)) {
            assert(s@.take(i + 1).drop_last() =~= s@.take(i as int));
            i = i + 1;
        } else {
            let start = i;
            while i < n && !is_ws_char(s.get_char(i))
                invariant
                    n == s@.len(),
                    start < n,
                    start <= i <= n,
                    !is_ws(s@[start as int]),
                    forall|j: int| start <= j < i ==> !is_ws(#[trigger] s@[j]),
                decreases n - i,
            {
                i = i + 1;
            }
            proof {
                lemma_word_run(s@, start as int, i as int);
            }
            let word = s.substring_char(start, i);
            let ghost prev = out@;
            if !contains_text(&out, word) {
                out.push(word.to_string());
                assert(strings_view(out@) =~= strings_view(prev).push(word@));
            }
            assert(words(s@.take(i as int)).drop_last() =~= words(s@.take(start as int)));
        }
    }
    assert(s@.take(n as int) =~= s@);
    out
}

/// `values` joined with single spaces.
fn join_values(values: &Vec<String>) -> (r: String)
    ensures
        r@ == join(strings_view(values@)),
{
    let mut r = String::new();
    let mut i: usize = 0;
    proof {
        reveal_strlit(" ");
    }
    assert(strings_view(values@).take(0) =~= Seq::<Seq<char>>::empty());
    while i < values.len()
        invariant
            i <= values@.len(),
            r@ == join(strings_view(values@).take(i as int)),
            " "@ == seq![' '],
        decreases values@.len() - i,
    {
        let ghost vs = strings_view(values@);
        if i > 0 {
            r.append(" ");
        }
        r.append(values[i].as_str());
        assert(vs.take(i + 1).drop_last() =~= vs.take(i as int));
        assert(vs.take(i + 1).last() == values@[i as int]@);
        if i == 0 {
            assert(r@ =~= vs.take(1)[0]);
        } else {
            assert(r@ =~= join(vs.take(i as int)) + seq![' '] + vs.take(i + 1).last());
        }
        i = i + 1;
    }
    assert(strings_view(values@).take(values@.len() as int) =~= strings_view(values@));
    r
}

/// Read access to a token list held as attribute text.
pub trait DOMTokenListInterface {
    /// The attribute text the tokens are read from.
    spec fn text(&self) -> Seq<char>;

    /// The attribute text.
    fn value(&self) -> (r: String)
        ensures
            r@ == self.text(),
    ;

    /// The distinct tokens, in order of first appearance.
    fn values(&self) -> (r: Vec<String>)
        ensures
            strings_view(r@) == token_list(self.text()),
    {
        let v = self.value();
        token_values(v.as_str())
    }

    /// The token at `index`, if there is one.
    fn item(&self, index: usize) -> (r: Option<String>)
        ensures
            match r {
                Some(t) => index < token_list(self.text()).len() && t@ == token_list(self.text())[index as int],
                None => index >= token_list(self.text()).len(),
            },
    {
        let values = self.values();
        if index < values.len() {
            let t = String::from_str(values[index].as_str());
            assert(strings_view(values@)[index as int] == values@[index as int]@);
            Some(t)
        } else {
            None
        }
    }

    /// Whether `token` is one of the tokens.
    fn contains(&self, token: &str) -> (r: bool)
        ensures
            r == token_list(self.text()).contains(token@),
    {
        let values = self.values();
        contains_text(&values, token)
    }

    /// Number of distinct tokens.
    fn len(&self) -> (r: usize)
        ensures
            r == token_list(self.text()).len(),
    {
        self.values().len()
    }
}

/// An element's class token list, holding the `class` attribute text.
#[derive(Debug)]
pub struct DOMTokenListMut {
    class_name: String,
}

impl View for DOMTokenListMut {
    type V = Seq<char>;

    /// The `class` attribute text.
    closed spec fn view(&self) -> Seq<char> {
        self.class_name@
    }
}

impl DOMTokenListInterface for DOMTokenListMut {
    closed spec fn text(&self) -> Seq<char> {
        self.class_name@
    }

    fn value(&self) -> (r: String) {
        String::from_str(self.class_name.as_str())
    }
}

impl DOMTokenListMut {
    /// The token list of a `class` attribute text.
    pub fn new(class_name: String) -> (r: Self)
        ensures
            r@ == class_name@,
    {
        DOMTokenListMut { class_name }
    }

    /// The `class` attribute text, handing back ownership.
    pub fn into_value(self) -> (r: String)
        ensures
            r@ == self@,
    {
        self.class_name
    }

    /// Set the attribute text to `values` joined with single spaces.
    fn update_node(&mut self, values: &Vec<String>)
        ensures
            final(self)@ == join(strings_view(values@)),
    {
        self.class_name = join_values(values);
    }

    /// Add tokens that are not present yet, at the end, in order.
    pub fn add(&mut self, tokens: &[&str])
        ensures
            final(self)@ == join(add_all(token_list(old(self)@), strs_view(tokens@))),
    {
        let mut values = self.values();
        let ghost base = token_list(self@);
        let mut i: usize = 0;
        assert(strs_view(tokens@).take(0) =~= Seq::<Seq<char>>::empty());
        while i < tokens.len()
            invariant
                i <= tokens@.len(),
                strings_view(values@) == add_all(base, strs_view(tokens@).take(i as int)),
            decreases tokens@.len() - i,
        {
            let t = tokens[i];
            let ghost ts = strs_view(tokens@);
            assert(ts.take(i + 1).drop_last() =~= ts.take(i as int));
            assert(ts.take(i + 1).last() == t@);
            if !contains_text(&values, t) {
                let ghost prev = values@;
                values.push(t.to_string());
                assert(strings_view(values@) =~= strings_view(prev).push(t@));
            }
            i = i + 1;
        }
        assert(strs_view(tokens@).take(tokens@.len() as int) =~= strs_view(tokens@));
        self.update_node(&values);
    }

    /// Remove the given tokens.
    pub fn remove(&mut self, tokens: &[&str])
        ensures
            final(self)@ == join(remove_all(token_list(old(self)@), strs_view(tokens@))),
    {
        let values = self.values();
        let ghost vs = strings_view(values@);
        let ghost ts = strs_view(tokens@);
        let mut kept: Vec<String> = Vec::new();
        let mut i: usize = 0;
        assert(remove_all(vs.take(0), ts) =~= Seq::<Seq<char>>::empty());
        while i < values.len()
            invariant
                vs == strings_view(values@),
                ts == strs_view(tokens@),
                i <= values@.len(),
                strings_view(kept@) == remove_all(vs.take(i as int), ts),
            decreases values@.len() - i,
        {
            let v = values[i].as_str();
            let mut listed = false;
            let mut j: usize = 0;
            while j < tokens.len()
                invariant
                    ts == strs_view(tokens@),
                    j <= tokens@.len(),
                    listed == ts.take(j as int).contains(v@),
                decreases tokens@.len() - j,
            {
                if text_eq(tokens[j], v) {
                    listed = true;
                }
                assert(ts.take(j + 1) =~= ts.take(j as int).push(tokens@[j as int]@));
                proof {
                    lemma_contains_push(ts.take(j as int), tokens@[j as int]@, v@);
                }
                j = j + 1;
            }
            assert(ts.take(tokens@.len() as int) =~= ts);
            assert(vs.take(i + 1).drop_last() =~= vs.take(i as int));
            assert(vs.take(i + 1).last() == v@);
            let ghost prev = kept@;
            if !listed {
                kept.push(String::from_str(v));
                assert(strings_view(kept@) =~= strings_view(prev).push(v@));
            }
            assert(remove_all(vs.take(i + 1), ts) == if ts.contains(v@) {
                remove_all(vs.take(i as int), ts)
            } else {
                remove_all(vs.take(i as int), ts).push(v@)
            });
            i = i + 1;
        }
        assert(vs.take(values@.len() as int) =~= vs);
        self.update_node(&kept);
    }

    /// Replace `old_token` by `new_token` wherever it is a token; whether
    /// it was one.
    pub fn replace(&mut self, old_token: &str, new_token: &str) -> (r: bool)
        ensures
            r == token_list(old(self)@).contains(old_token@),
            final(self)@ == join(replaced(token_list(old(self)@), old_token@, new_token@)),
    {
        let values = self.values();
        let ghost vs = strings_view(values@);
        let mut out: Vec<String> = Vec::new();
        let mut repl = false;
        let mut i: usize = 0;
        assert(replaced(vs.take(0), old_token@, new_token@) =~= Seq::<Seq<char>>::empty());
        while i < values.len()
            invariant
                vs == strings_view(values@),
                i <= values@.len(),
                strings_view(out@) == replaced(vs.take(i as int), old_token@, new_token@),
                repl == vs.take(i as int).contains(old_token@),
            decreases values@.len() - i,
        {
            let v = values[i].as_str();
            let ghost prev = out@;
            if text_eq(v, old_token) {
                repl = true;
                out.push(String::from_str(new_token));
            } else {
                out.push(String::from_str(v));
            }
            assert(vs.take(i + 1) =~= vs.take(i as int).push(v@));
            proof {
                lemma_contains_push(vs.take(i as int), v@, old_token@);
            }
            let ghost nv = if v@ == old_token@ {
                new_token@
            } else {
                v@
            };
            assert(strings_view(out@) =~= strings_view(prev).push(nv));
            assert(replaced(vs.take(i + 1), old_token@, new_token@) =~= replaced(
                vs.take(i as int),
                old_token@,
                new_token@,
            ).push(nv));
            i = i + 1;
        }
        assert(vs.take(values@.len() as int) =~= vs);
        self.update_node(&out);
        repl
    }

    /// Toggle `token`: with `force` add it (`Some(true)`) or remove it
    /// (`Some(false)`), else remove it if present and add it if not.
    /// Returns whether it is present afterwards.
    pub fn toggle(&mut self, token: &str, force: Option<bool>) -> (r: bool)
        ensures
            (r, final(self)@) == toggled(old(self)@, token@, force),
    {
        let one = [token];
        assert(strs_view(one@) =~= seq![token@]);
        match force {
            Some(f) => {
                if f {
                    self.add(one.as_slice());
                } else {
                    self.remove(one.as_slice());
                }
                f
            },
            None => {
                if self.contains(token) {
                    self.remove(one.as_slice());
                    false
                } else {
                    self.add(one.as_slice());
                    true
                }
            },
        }
    }
}

/// Outcome of toggling `t` in the class text `s`: whether `t` is a token
/// afterwards, and the new class text.
pub open spec fn toggled(s: Seq<char>, t: Seq<char>, force: Option<bool>) -> (bool, Seq<char>) {
    let tl = token_list(s);
    let add = join(add_all(tl, seq![t]));
    let remove = join(remove_all(tl, seq![t]));
    match force {
        Some(true) => (true, add),
        Some(false) => (false, remove),
        None => if tl.contains(t) {
            (false, remove)
        } else {
            (true, add)
        },
    }
}

/// No token occurs twice.
pub open spec fn distinct(ts: Seq<Seq<char>>) -> bool {
    forall|i: int, j: int| 0 <= i < j < ts.len() ==> ts[i] != ts[j]
}

/// Every member is a token.
pub open spec fn all_tokens(ts: Seq<Seq<char>>) -> bool {
    forall|i: int| 0 <= i < ts.len() ==> is_token(#[trigger] ts[i])
}

proof fn lemma_words_nonempty(y: Seq<char>)
    requires
        y.len() > 0,
        !is_ws(y.last()),
    ensures
        words(y).len() > 0,
    decreases y.len(),
{
    if y.len() >= 2 && !is_ws(y[y.len() - 2]) {
        assert(y.drop_last().last() == y[y.len() - 2]);
        lemma_words_nonempty(y.drop_last());
    }
}

proof fn lemma_words_concat(x: Seq<char>, y: Seq<char>)
    ensures
        words(x + seq![' '] + y) == words(x) + words(y),
    decreases y.len(),
{
    let z = x + seq![' '] + y;
    if y.len() == 0 {
        assert(z.drop_last() =~= x);
        assert(words(x) + words(y) =~= words(x));
    } else {
        let y1 = y.drop_last();
        assert(z.drop_last() =~= x + seq![' '] + y1);
        lemma_words_concat(x, y1);
        let c = y.last();
        assert(z.last() == c);
        let w = words(x) + words(y1);
        if is_ws(c) {
        } else if y.len() >= 2 && !is_ws(y[y.len() - 2]) {
            assert(z[z.len() - 2] == y[y.len() - 2]);
            assert(y1.last() == y[y.len() - 2]);
            lemma_words_nonempty(y1);
            let wy = words(y1);
            assert(w.update(w.len() - 1, w.last().push(c)) =~= words(x) + wy.update(
                wy.len() - 1,
                wy.last().push(c),
            ));
        } else {
            if y.len() >= 2 {
                assert(z[z.len() - 2] == y[y.len() - 2]);
            } else {
                assert(z[z.len() - 2] == ' ');
            }
            assert(w.push(seq![c]) =~= words(x) + words(y1).push(seq![c]));
        }
    }
}

proof fn lemma_words_token(t: Seq<char>)
    requires
        is_token(t),
    ensures
        words(t) == seq![t],
    decreases t.len(),
{
    if t.len() == 1 {
        assert(t.drop_last() =~= Seq::<char>::empty());
        assert(words(t.drop_last()) == Seq::<Seq<char>>::empty());
        assert(seq![t.last()] =~= t);
        assert(words(t) =~= seq![t]);
    } else {
        let t1 = t.drop_last();
        assert(is_token(t1)) by {
            assert forall|i: int| 0 <= i < t1.len() implies !is_ws(#[trigger] t1[i]) by {
                assert(t1[i] == t[i]);
            }
        }
        lemma_words_token(t1);
        assert(!is_ws(t[t.len() - 2]));
        assert(!is_ws(t.last()));
        assert(t1.push(t.last()) =~= t);
        assert(seq![t1].update(0, t1.push(t.last())) =~= seq![t]);
        assert(words(t) =~= seq![t]);
    }
}

proof fn lemma_words_join(ts: Seq<Seq<char>>)
    requires
        all_tokens(ts),
    ensures
        words(join(ts)) == ts,
    decreases ts.len(),
{
    if ts.len() == 0 {
    } else if ts.len() == 1 {
        lemma_words_token(ts[0]);
        assert(seq![ts[0]] =~= ts);
    } else {
        let p = ts.drop_last();
        assert(all_tokens(p)) by {
            assert forall|i: int| 0 <= i < p.len() implies is_token(#[trigger] p[i]) by {
                assert(p[i] == ts[i]);
            }
        }
        lemma_words_join(p);
        lemma_words_concat(join(p), ts.last());
        assert(is_token(ts[ts.len() - 1]));
        lemma_words_token(ts.last());
        assert(p + seq![ts.last()] =~= ts);
    }
}

proof fn lemma_words_tokens(s: Seq<char>)
    ensures
        all_tokens(words(s)),
    decreases s.len(),
{
    if s.len() > 0 {
        lemma_words_tokens(s.drop_last());
        let w = words(s.drop_last());
        let c = s.last();
        if is_ws(c) {
        } else if s.len() >= 2 && !is_ws(s[s.len() - 2]) {
            assert(s.drop_last().last() == s[s.len() - 2]);
            lemma_words_nonempty(s.drop_last());
            let nw = w.update(w.len() - 1, w.last().push(c));
            assert forall|i: int| 0 <= i < nw.len() implies is_token(#[trigger] nw[i]) by {
                if i == w.len() - 1 {
                    assert(is_token(w[i]));
                    assert forall|j: int| 0 <= j < nw[i].len() implies !is_ws(#[trigger] nw[i][j]) by {
                        if j < w[i].len() {
                            assert(nw[i][j] == w[i][j]);
                        }
                    }
                } else {
                    assert(nw[i] == w[i]);
                }
            }
        } else {
            let nw = w.push(seq![c]);
            assert forall|i: int| 0 <= i < nw.len() implies is_token(#[trigger] nw[i]) by {
                if i < w.len() {
                    assert(nw[i] == w[i]);
                }
            }
        }
    }
}

proof fn lemma_dedup(ts: Seq<Seq<char>>)
    ensures
        distinct(dedup(ts)),
        forall|u: Seq<char>| dedup(ts).contains(u) == ts.contains(u),
        distinct(ts) ==> dedup(ts) == ts,
        all_tokens(ts) ==> all_tokens(dedup(ts)),
    decreases ts.len(),
{
    if ts.len() > 0 {
        let p = ts.drop_last();
        lemma_dedup(p);
        let d = dedup(p);
        let x = ts.last();
        assert(ts =~= p.push(x));
        assert forall|u: Seq<char>| dedup(ts).contains(u) == ts.contains(u) by {
            lemma_contains_push(p, x, u);
            lemma_contains_push(d, x, u);
        }
        if distinct(ts) {
            assert(distinct(p)) by {
                assert forall|i: int, j: int| 0 <= i < j < p.len() implies p[i] != p[j] by {
                    assert(p[i] == ts[i] && p[j] == ts[j]);
                }
            }
            if p.contains(x) {
                let i = choose|i: int| 0 <= i < p.len() && p[i] == x;
                assert(ts[i] == ts[ts.len() - 1]);
            }
        }
        if !d.contains(x) {
            let n = d.push(x);
            assert forall|i: int, j: int| 0 <= i < j < n.len() implies n[i] != n[j] by {
                if j == d.len() {
                    assert(n[i] == d[i]);
                    if d[i] == x {
                        assert(d.contains(x));
                    }
                } else {
                    assert(n[i] == d[i] && n[j] == d[j]);
                }
            }
        }
        if all_tokens(ts) {
            assert(all_tokens(p)) by {
                assert forall|i: int| 0 <= i < p.len() implies is_token(#[trigger] p[i]) by {
                    assert(p[i] == ts[i]);
                }
            }
            assert(is_token(ts[ts.len() - 1]));
            if !d.contains(x) {
                let n = d.push(x);
                assert forall|i: int| 0 <= i < n.len() implies is_token(#[trigger] n[i]) by {
                    if i < d.len() {
                        assert(n[i] == d[i]);
                    }
                }
            }
        }
    }
}

/// The token list of a text is made of distinct tokens.
pub proof fn law_token_list_wf(s: Seq<char>)
    ensures
        distinct(token_list(s)),
        all_tokens(token_list(s)),
{
    lemma_words_tokens(s);
    lemma_dedup(words(s));
}

/// Reading the token list back from a text written from distinct tokens
/// gives the same list.
pub proof fn law_tokens_roundtrip(ts: Seq<Seq<char>>)
    requires
        distinct(ts),
        all_tokens(ts),
    ensures
        token_list(join(ts)) == ts,
{
    lemma_words_join(ts);
    lemma_dedup(ts);
}

proof fn lemma_add_all(vs: Seq<Seq<char>>, ts: Seq<Seq<char>>)
    requires
        distinct(vs),
        all_tokens(vs),
        all_tokens(ts),
    ensures
        distinct(add_all(vs, ts)),
        all_tokens(add_all(vs, ts)),
        forall|u: Seq<char>| add_all(vs, ts).contains(u) == (vs.contains(u) || ts.contains(u)),
    decreases ts.len(),
{
    if ts.len() > 0 {
        let p = ts.drop_last();
        assert(all_tokens(p)) by {
            assert forall|i: int| 0 <= i < p.len() implies is_token(#[trigger] p[i]) by {
                assert(p[i] == ts[i]);
            }
        }
        lemma_add_all(vs, p);
        let a = add_all(vs, p);
        let x = ts.last();
        assert(ts =~= p.push(x));
        assert(is_token(ts[ts.len() - 1]));
        assert forall|u: Seq<char>| add_all(vs, ts).contains(u) == (vs.contains(u) || ts.contains(u)) by {
            lemma_contains_push(p, x, u);
            lemma_contains_push(a, x, u);
        }
        if !a.contains(x) {
            let n = a.push(x);
            assert forall|i: int, j: int| 0 <= i < j < n.len() implies n[i] != n[j] by {
                if j == a.len() {
                    assert(n[i] == a[i]);
                    if a[i] == x {
                        assert(a.contains(x));
                    }
                } else {
                    assert(n[i] == a[i] && n[j] == a[j]);
                }
            }
            assert forall|i: int| 0 <= i < n.len() implies is_token(#[trigger] n[i]) by {
                if i < a.len() {
                    assert(n[i] == a[i]);
                }
            }
        }
    }
}

proof fn lemma_remove_all(vs: Seq<Seq<char>>, ts: Seq<Seq<char>>)
    requires
        distinct(vs),
        all_tokens(vs),
    ensures
        distinct(remove_all(vs, ts)),
        all_tokens(remove_all(vs, ts)),
        forall|u: Seq<char>| remove_all(vs, ts).contains(u) == (vs.contains(u) && !ts.contains(u)),
    decreases vs.len(),
{
    if vs.len() > 0 {
        let p = vs.drop_last();
        assert(distinct(p)) by {
            assert forall|i: int, j: int| 0 <= i < j < p.len() implies p[i] != p[j] by {
                assert(p[i] == vs[i] && p[j] == vs[j]);
            }
        }
        assert(all_tokens(p)) by {
            assert forall|i: int| 0 <= i < p.len() implies is_token(#[trigger] p[i]) by {
                assert(p[i] == vs[i]);
            }
        }
        lemma_remove_all(p, ts);
        let r = remove_all(p, ts);
        let x = vs.last();
        assert(vs =~= p.push(x));
        assert(is_token(vs[vs.len() - 1]));
        assert forall|u: Seq<char>| remove_all(vs, ts).contains(u) == (vs.contains(u) && !ts.contains(u)) by {
            lemma_contains_push(p, x, u);
            lemma_contains_push(r, x, u);
            if u == x && p.contains(u) {
                let i = choose|i: int| 0 <= i < p.len() && p[i] == u;
                assert(vs[i] == vs[vs.len() - 1]);
            }
        }
        if !ts.contains(x) {
            let n = r.push(x);
            assert forall|i: int, j: int| 0 <= i < j < n.len() implies n[i] != n[j] by {
                if j == r.len() {
                    assert(n[i] == r[i]);
                    if r[i] == x {
                        assert(r.contains(x));
                        let k = choose|k: int| 0 <= k < p.len() && p[k] == x;
                        assert(vs[k] == vs[vs.len() - 1]);
                    }
                } else {
                    assert(n[i] == r[i] && n[j] == r[j]);
                }
            }
            assert forall|i: int| 0 <= i < n.len() implies is_token(#[trigger] n[i]) by {
                if i < r.len() {
                    assert(n[i] == r[i]);
                }
            }
        }
    }
}

/// Adding tokens makes each of them present and keeps every other token.
pub proof fn law_add_tokens(s: Seq<char>, ts: Seq<Seq<char>>)
    requires
        all_tokens(ts),
    ensures
        forall|u: Seq<char>|
            #![trigger token_list(join(add_all(token_list(s), ts))).contains(u)]
            token_list(join(add_all(token_list(s), ts))).contains(u) == (token_list(s).contains(u)
                || ts.contains(u)),
{
    law_token_list_wf(s);
    lemma_add_all(token_list(s), ts);
    law_tokens_roundtrip(add_all(token_list(s), ts));
}

/// Removing tokens makes each of them absent and keeps every other token.
pub proof fn law_remove_tokens(s: Seq<char>, ts: Seq<Seq<char>>)
    ensures
        forall|u: Seq<char>|
            #![trigger token_list(join(remove_all(token_list(s), ts))).contains(u)]
            token_list(join(remove_all(token_list(s), ts))).contains(u) == (token_list(s).contains(u)
                && !ts.contains(u)),
{
    law_token_list_wf(s);
    lemma_remove_all(token_list(s), ts);
    law_tokens_roundtrip(remove_all(token_list(s), ts));
}

/// Toggling a token reports whether it is present afterwards, flips its
/// presence unless forced, and leaves every other token as it was.
pub proof fn law_toggle(s: Seq<char>, t: Seq<char>, force: Option<bool>)
    requires
        is_token(t),
    ensures
        token_list(toggled(s, t, force).1).contains(t) == toggled(s, t, force).0,
        force is None ==> toggled(s, t, force).0 == !token_list(s).contains(t),
        force matches Some(f) ==> toggled(s, t, force).0 == f,
        forall|u: Seq<char>|
            u != t ==> #[trigger] token_list(toggled(s, t, force).1).contains(u) == token_list(s).contains(u),
{
    let one = seq![t];
    assert(all_tokens(one));
    law_add_tokens(s, one);
    law_remove_tokens(s, one);
    assert forall|u: Seq<char>| one.contains(u) == (u == t) by {
        if one.contains(u) {
            let i = choose|i: int| 0 <= i < one.len() && one[i] == u;
        }
        if u == t {
            assert(one[0] == u);
        }
    }
}

} // verus!
