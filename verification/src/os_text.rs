//! Command-line arguments and environment values.
//!
//! The operating system hands out arguments that need not be Unicode. Those
//! that are can be read as text; the others are carried along as they are.

use vstd::prelude::*;
use vstd::string::StringExecFns;
use vstd::utf8::encode_utf8;
use crate::text::same;

verus! {

/// An argument, or the value of an environment variable.
pub enum OsText {
    /// One that is Unicode.
    Text(String),
    /// One that is not: its encoded bytes, and how it is shown.
    Raw { bytes: Vec<u8>, lossy: String },
}

/// An argument as a mathematical value.
pub enum Word {
    Text(Seq<char>),
    Raw { bytes: Seq<u8>, lossy: Seq<char> },
}

impl Word {
    /// The argument as text, if it is Unicode.
    pub open spec fn text(self) -> Option<Seq<char>> {
        match self {
            Word::Text(s) => Some(s),
            Word::Raw { .. } => None,
        }
    }

    /// The text the argument is shown as.
    pub open spec fn lossy(self) -> Seq<char> {
        match self {
            Word::Text(s) => s,
            Word::Raw { lossy, .. } => lossy,
        }
    }

    /// The argument with a text put before it.
    pub open spec fn after(self, prefix: Seq<char>) -> Word {
        match self {
            Word::Text(s) => Word::Text(prefix + s),
            Word::Raw { bytes, lossy } => Word::Raw {
                bytes: encode_utf8(prefix) + bytes,
                lossy: prefix + lossy,
            },
        }
    }
}

impl View for OsText {
    type V = Word;

    open spec fn view(&self) -> Word {
        match self {
            OsText::Text(s) => Word::Text(s@),
            OsText::Raw { bytes, lossy } => Word::Raw { bytes: bytes@, lossy: lossy@ },
        }
    }
}

/// The views of arguments.
pub open spec fn words(s: Seq<OsText>) -> Seq<Word> {
    s.map_values(|t: OsText| t@)
}

/// The view of an optional argument.
pub open spec fn word_of(t: Option<OsText>) -> Option<Word> {
    match t {
        Some(w) => Some(w@),
        None => None,
    }
}

/// The view of an optional reference to an argument.
pub open spec fn word_ref(t: Option<&OsText>) -> Option<Word> {
    match t {
        Some(w) => Some(w@),
        None => None,
    }
}

/// A copy of bytes, with others put before them.
fn bytes_after(bytes: &Vec<u8>, prefix: &[u8]) -> (r: Vec<u8>)
    ensures
        r@ == prefix@ + bytes@,
{
    let mut out: Vec<u8> = Vec::new();
    for i in 0..prefix.len()
        invariant
            out@ == prefix@.take(i as int),
    {
        out.push(prefix[i]);
        assert(out@ =~= prefix@.take(i + 1));
    }
    for i in 0..bytes.len()
        invariant
            out@ == prefix@ + bytes@.take(i as int),
    {
        out.push(bytes[i]);
        assert(out@ =~= prefix@ + bytes@.take(i + 1));
    }
    assert(bytes@.take(bytes@.len() as int) == bytes@);
    out
}

/// Whether two byte sequences are equal.
fn same_bytes(a: &Vec<u8>, b: &Vec<u8>) -> (r: bool)
    ensures
        r == (a@ == b@),
{
    if a.len() != b.len() {
        return false;
    }
    for i in 0..a.len()
        invariant
            a@.len() == b@.len(),
            forall|j: int| 0 <= j < i ==> a@[j] == b@[j],
    {
        if a[i] != b[i] {
            return false;
        }
    }
    assert(a@ =~= b@);
    true
}

impl OsText {
    /// The argument that a text is.
    pub fn new(s: &str) -> (r: Self)
        ensures
            r@ == Word::Text(s@),
    {
        OsText::Text(s.to_owned())
    }

    /// The argument as text, if it is Unicode.
    pub fn text(&self) -> (r: Option<&str>)
        ensures
            match self@.text() {
                Some(s) => r matches Some(t) && t@ == s,
                None => r is None,
            },
    {
        match self {
            OsText::Text(s) => Some(s.as_str()),
            OsText::Raw { .. } => None,
        }
    }

    /// Whether the argument is the text `s`.
    pub fn is(&self, s: &str) -> (r: bool)
        ensures
            r == (self@ == Word::Text(s@)),
    {
        match self {
            OsText::Text(t) => same(t, s),
            OsText::Raw { .. } => false,
        }
    }

    /// Whether two arguments are equal.
    pub fn same(&self, other: &OsText) -> (r: bool)
        ensures
            r == (self@ == other@),
    {
        match (self, other) {
            (OsText::Text(a), OsText::Text(b)) => same(a, b),
            (
                OsText::Raw { bytes: a, lossy: shown_a },
                OsText::Raw { bytes: b, lossy: shown_b },
            ) => same_bytes(a, b) && same(shown_a, shown_b),
            _ => false,
        }
    }

    /// The argument with a text put before it.
    pub fn after(&self, prefix: &str) -> (r: OsText)
        ensures
            r@ == self@.after(prefix@),
    {
        match self {
            OsText::Text(s) => OsText::Text(prefix.to_owned().concat(s)),
            OsText::Raw { bytes, lossy } => OsText::Raw {
                bytes: bytes_after(bytes, prefix.as_bytes()),
                lossy: prefix.to_owned().concat(lossy),
            },
        }
    }

    /// A copy of the argument.
    pub fn copy(&self) -> (r: OsText)
        ensures
            r@ == self@,
    {
        match self {
            OsText::Text(s) => OsText::Text(s.clone()),
            OsText::Raw { bytes, lossy } => {
                let bytes = bytes_after(bytes, &[]);
                assert(self@->Raw_bytes =~= bytes@);
                OsText::Raw { bytes, lossy: lossy.clone() }
            },
        }
    }

    /// The text the argument is shown as.
    pub fn lossy(&self) -> (r: String)
        ensures
            r@ == self@.lossy(),
    {
        match self {
            OsText::Text(s) => s.clone(),
            OsText::Raw { lossy, .. } => lossy.clone(),
        }
    }
}

/// Whether an argument is among others.
pub fn among(w: &OsText, list: &Vec<OsText>) -> (r: bool)
    ensures
        r == words(list@).contains(w@),
{
    for i in 0..list.len()
        invariant
            forall|j: int| 0 <= j < i ==> list@[j]@ != w@,
    {
        if list[i].same(w) {
            assert(words(list@)[i as int] == w@);
            return true;
        }
    }
    assert forall|j: int| 0 <= j < words(list@).len() implies words(list@)[j] != w@ by {
        assert(words(list@)[j] == list@[j]@);
    }
    false
}

} // verus!
