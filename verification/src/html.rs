//! Plain-value pieces of the HTML tree API: its error values, the
//! traversal verdict of selector callbacks, index wrapping of node lists and
//! white-space collapsing of extracted text.
use vstd::prelude::*;
use vstd::string::{StrSliceExecFns, StringExecFns};

verus! {

/// HTML parser error.
#[derive(Debug)]
pub struct HTMLParserError {
    msg: String,
}

impl HTMLParserError {
    /// An error with the given detail.
    pub fn new(msg: &str) -> (r: Self)
        ensures
            r.detail() == msg@,
    {
        HTMLParserError { msg: String::from_str(msg) }
    }

    /// The detail of the error.
    pub closed spec fn detail(&self) -> Seq<char> {
        self.msg@
    }

    /// `HTML parser error: <detail>.`
    pub fn message(&self) -> (r: String)
        ensures
            r@ == "HTML parser error: "@ + self.detail() + "."@,
    {
        let mut m = String::from_str("HTML parser error: ");
        m.append(self.msg.as_str());
        m.append(".");
        m
    }
}

/// CSS parsing error.
#[derive(Debug)]
pub struct CSSParserError {
    msg: String,
}

impl CSSParserError {
    /// An error with the given detail.
    pub fn new(msg: &str) -> (r: Self)
        ensures
            r.detail() == msg@,
    {
        CSSParserError { msg: String::from_str(msg) }
    }

    /// The detail of the error.
    pub closed spec fn detail(&self) -> Seq<char> {
        self.msg@
    }

    /// `CSS parser error: <detail>`
    pub fn message(&self) -> (r: String)
        ensures
            r@ == "CSS parser error: "@ + self.detail(),
    {
        let mut m = String::from_str("CSS parser error: ");
        m.append(self.msg.as_str());
        m
    }
}

/// DOM error.
#[derive(Debug)]
pub struct DOMError {
    msg: String,
}

impl DOMError {
    /// An error with the given detail.
    pub fn new(msg: &str) -> (r: Self)
        ensures
            r.detail() == msg@,
    {
        DOMError { msg: String::from_str(msg) }
    }

    /// The detail of the error.
    pub closed spec fn detail(&self) -> Seq<char> {
        self.msg@
    }

    /// `DOM error: <detail>`
    pub fn message(&self) -> (r: String)
        ensures
            r@ == "DOM error: "@ + self.detail(),
    {
        let mut m = String::from_str("DOM error: ");
        m.append(self.msg.as_str());
        m
    }
}

/// What a selector-match callback tells the traversal: go on, stop, or stop
/// with an error.
#[derive(Debug, Clone, Copy, PartialEq, Eq, Structural)]
pub enum TraverseAction {
    Continue,
    Stop,
    Error,
}

/// The list index that `index` names in a list of `max_idx` items: a
/// non-negative index as it is; a negative one as the truncated remainder of
/// `index` by `max_idx` cast to `usize` (0, or a value past any list).
pub open spec fn wrapped_index(max_idx: usize, index: isize) -> int {
    if index >= 0 {
        index as int
    } else {
        let q = (-(index as int)) % (max_idx as int);
        if q == 0 {
            0
        } else {
            usize::MAX + 1 - q
        }
    }
}

/// The list index that `index` names in a list of `max_idx` items.
pub fn wrap_index(max_idx: usize, index: isize) -> (r: usize)
    requires
        index >= 0 || (0 < max_idx && max_idx <= isize::MAX),
    ensures
        r == wrapped_index(max_idx, index),
{
    if index >= 0 {
        index as usize
    } else {
        let a: usize = (-(index + 1)) as usize + 1;
        let q = a % max_idx;
        if q == 0 {
            0
        } else {
            (usize::MAX - q) + 1
        }
    }
}

/// ASCII white space.
pub open spec fn is_ascii_ws_char(c: char) -> bool {
    c == ' ' || c == '\t' || c == '\n' || c == '\x0C' || c == '\r'
}

/// `s` with each ASCII white space character turned into a space and runs
/// of spaces shortened to one.
pub open spec fn collapsed(s: Seq<char>) -> Seq<char>
    decreases s.len(),
{
    if s.len() == 0 {
        Seq::empty()
    } else {
        let prev = collapsed(s.drop_last());
        let c = if is_ascii_ws_char(s.last()) {
            ' '
        } else {
            s.last()
        };
        if c == ' ' && prev.len() > 0 && prev.last() == ' ' {
            prev
        } else {
            prev.push(c)
        }
    }
}

/// Turn ASCII white space into spaces and collapse runs of spaces.
pub fn collapse_whitespace(s: &str) -> (r: String)
    ensures
        r@ == collapsed(s@),
{
    proof {
        reveal_strlit(" ");
    }
    let n = s.unicode_len();
    let mut out = String::new();
    let mut last_space = false;
    let mut i: usize = 0;
    assert(s@.take(0) =~= Seq::<char>::empty());
    while i < n
        invariant
            n == s@.len(),
            i <= n,
            out@ == collapsed(s@.take(i as int)),
            last_space == (out@.len() > 0 && out@.last() == ' '),
            " "@ == seq![' '],
        decreases n - i,
    {
        let c = s.get_char(i);
        assert(s@.take(i + 1).drop_last() =~= s@.take(i as int));
        assert(s@.take(i + 1).last() == c);
        if c == ' ' || c == '\t' || c == '\n' || c == '\x0C' || c == '\r' {
            if !last_space {
                out.append(" ");
                last_space = true;
            }
        } else {
            let one = s.substring_char(i, i + 1);
            assert(one@ =~= seq![c]);
            out.append(one);
            last_space = false;
        }
        i = i + 1;
    }
    assert(s@.take(n as int) =~= s@);
    out
}

} // verus!
