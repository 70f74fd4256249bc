//! Character data of DOM nodes (text, comments, CDATA sections, processing
//! instructions): reading and editing the node value by character offsets.
use vstd::prelude::*;
use vstd::string::{StrSliceExecFns, StringExecFns};
use vstd::utf8::encode_utf8;

verus! {

/// The characters `substring_data(offset, count)` reads: up to `count`
/// characters from character `offset` on, none past the end.
pub open spec fn substring_of(d: Seq<char>, offset: int, count: int) -> Seq<char> {
    let start = if offset < d.len() { offset } else { d.len() as int };
    let end = if count < d.len() - start { start + count } else { d.len() as int };
    d.subrange(start, end)
}

/// `d` with `s` inserted before character `offset`; an offset at or past the
/// end leaves `d` as it is.
pub open spec fn inserted(d: Seq<char>, offset: int, s: Seq<char>) -> Seq<char> {
    if offset < d.len() {
        d.take(offset) + s + d.skip(offset)
    } else {
        d
    }
}

/// Index of the first character kept after a run of `count` characters
/// from `offset`.
pub open spec fn run_end(d: Seq<char>, offset: int, count: int) -> int {
    if count < d.len() - offset { offset + count } else { d.len() as int }
}

/// `d` without the characters at offsets `offset .. offset + count`.
pub open spec fn deleted(d: Seq<char>, offset: int, count: int) -> Seq<char> {
    if offset < d.len() {
        d.take(offset) + d.skip(run_end(d, offset, count))
    } else {
        d
    }
}

/// `d` with the characters at offsets `offset .. offset + count` replaced by
/// `s`; an offset at or past the end leaves `d` as it is.
pub open spec fn replaced_run(d: Seq<char>, offset: int, count: int, s: Seq<char>) -> Seq<char> {
    if offset < d.len() {
        d.take(offset) + s + d.skip(run_end(d, offset, count))
    } else {
        d
    }
}

/// Byte length of a node value in UTF-8.
pub open spec fn utf8_len(d: Seq<char>) -> nat {
    encode_utf8(d).len()
}

/// `d[..start] + ins + d[resume..]`, by characters.
fn splice(d: &str, start: usize, ins: &str, resume: usize) -> (r: String)
    requires
        start <= resume <= d@.len(),
    ensures
        r@ == d@.take(start as int) + ins@ + d@.skip(resume as int),
{
    let n = d.unicode_len();
    let head = String::from_str(d.substring_char(0, start));
    let mid = head.concat(ins);
    let r = mid.concat(d.substring_char(resume, n));
    assert(d@.subrange(0, start as int) =~= d@.take(start as int));
    assert(d@.subrange(resume as int, n as int) =~= d@.skip(resume as int));
    r
}

/// First index after the run of `count` characters from `offset`.
fn run_end_index(n: usize, offset: usize, count: usize) -> (r: usize)
    requires
        offset < n,
    ensures
        r as int == (if count < n - offset { offset + count } else { n as int }),
{
    if count < n - offset {
        offset + count
    } else {
        n
    }
}

/// A node that holds character data.
pub trait CharacterData {
    /// The node value, if the node has one.
    spec fn data_view(&self) -> Option<Seq<char>>;

    /// The node value.
    fn data(&self) -> (r: Option<String>)
        ensures
            match r {
                Some(s) => self.data_view() == Some(s@),
                None => self.data_view() is None,
            },
    ;

    /// Replace the node value.
    fn set_data(&mut self, data: &str)
        ensures
            final(self).data_view() == Some(data@),
    ;

    /// Byte length of the node value in UTF-8 (0 without a value).
    fn len(&self) -> (r: usize)
        ensures
            r == match self.data_view() {
                Some(d) => utf8_len(d) as usize,
                None => 0usize,
            },
    {
        match self.data() {
            Some(s) => s.as_str().len(),
            None => 0,
        }
    }

    /// Up to `count` characters of the value from character `offset` on.
    fn substring_data(&self, offset: usize, count: usize) -> (r: Option<String>)
        ensures
            match self.data_view() {
                Some(d) => r matches Some(s) && s@ == substring_of(d, offset as int, count as int),
                None => r is None,
            },
    {
        match self.data() {
            Some(s) => {
                let d = s.as_str();
                let n = d.unicode_len();
                let start = if offset < n {
                    offset
                } else {
                    n
                };
                let end = if count < n - start {
                    start + count
                } else {
                    n
                };
                Some(String::from_str(d.substring_char(start, end)))
            },
            None => None,
        }
    }

    /// Append `data` to the value; a node without a value gets `data` as
    /// its value. Appending nothing changes nothing.
    fn append_data(&mut self, data: &str)
        ensures
            final(self).data_view() == if data@.len() == 0 {
                old(self).data_view()
            } else {
                match old(self).data_view() {
                    Some(d) => Some(d + data@),
                    None => Some(data@),
                }
            },
    {
        if data.is_empty() {
            proof {
                vstd::utf8::encode_utf8_decode_utf8(data@);
            }
            return;
        }
        proof {
            if data@.len() == 0 {
                assert(encode_utf8(data@) =~= Seq::<u8>::empty());
            }
        }
        let cur = match self.data() {
            Some(s) => s,
            None => String::new(),
        };
        let joined = cur.concat(data);
        self.set_data(joined.as_str());
    }

    /// Insert `data` before character `offset`; an offset at or past the end
    /// of the value, an empty `data` or a node without a value change
    /// nothing.
    fn insert_data(&mut self, offset: usize, data: &str)
        ensures
            final(self).data_view() == match old(self).data_view() {
                Some(d) => if data@.len() == 0 {
                    Some(d)
                } else {
                    Some(inserted(d, offset as int, data@))
                },
                None => None::<Seq<char>>,
            },
    {
        if data.is_empty() {
            proof {
                vstd::utf8::encode_utf8_decode_utf8(data@);
            }
            return;
        }
        match self.data() {
            Some(s) => {
                let d = s.as_str();
                let n = d.unicode_len();
                let edited = if offset < n {
                    splice(d, offset, data, offset)
                } else {
                    String::from_str(d)
                };
                self.set_data(edited.as_str());
            },
            None => {},
        }
    }

    /// Remove `count` characters from character `offset` on.
    fn delete_data(&mut self, offset: usize, count: usize)
        requires
            old(self).data_view() matches Some(d) ==> count <= utf8_len(d),
        ensures
            final(self).data_view() == match old(self).data_view() {
                Some(d) => Some(deleted(d, offset as int, count as int)),
                None => None::<Seq<char>>,
            },
    {
        match self.data() {
            Some(s) => {
                let d = s.as_str();
                let n = d.unicode_len();
                let edited = if offset < n {
                    let resume = run_end_index(n, offset, count);
                    splice(d, offset, "", resume)
                } else {
                    String::from_str(d)
                };
                proof {
                    reveal_strlit("");
                }
                self.set_data(edited.as_str());
            },
            None => {},
        }
    }

    /// Replace `count` characters from character `offset` on by `data`.
    fn replace_data(&mut self, offset: usize, count: usize, data: &str)
        requires
            old(self).data_view() matches Some(d) ==> count <= utf8_len(d),
        ensures
            final(self).data_view() == match old(self).data_view() {
                Some(d) => Some(replaced_run(d, offset as int, count as int, data@)),
                None => None::<Seq<char>>,
            },
    {
        match self.data() {
            Some(s) => {
                let d = s.as_str();
                let n = d.unicode_len();
                let edited = if offset < n {
                    let resume = run_end_index(n, offset, count);
                    splice(d, offset, data, resume)
                } else {
                    String::from_str(d)
                };
                self.set_data(edited.as_str());
            },
            None => {},
        }
    }
}

/// A text, comment, CDATA-section or processing-instruction node, held by
/// its value.
#[derive(Debug, Clone)]
pub struct CharacterDataNode {
    value: Option<String>,
}

impl CharacterDataNode {
    /// A node with the given value.
    pub fn new(value: Option<String>) -> (r: Self)
        ensures
            r.data_view() == match value {
                Some(s) => Some(s@),
                None => None::<Seq<char>>,
            },
    {
        CharacterDataNode { value }
    }
}

impl CharacterData for CharacterDataNode {
    closed spec fn data_view(&self) -> Option<Seq<char>> {
        match self.value {
            Some(s) => Some(s@),
            None => None,
        }
    }

    fn data(&self) -> (r: Option<String>) {
        match &self.value {
            Some(s) => Some(s.clone()),
            None => None,
        }
    }

    fn set_data(&mut self, data: &str) {
        self.value = Some(String::from_str(data));
    }
}

} // verus!
