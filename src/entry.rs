//! The values kept at the leaves of a secret tree.
use vstd::prelude::*;
use vstd::string::StrSliceExecFns;
use vstd::utf8::{decode_utf8, valid_utf8};

use crate::codec::string_from_utf8;
use crate::source::{is_white, is_whitespace};

verus! {

/// The mathematical value of an [`Entry`].
pub enum EntryView {
    /// The characters of a text entry
    Text(Seq<char>),
    /// The bytes of a binary entry
    Bytes(Seq<u8>),
}

/// A value stored at a leaf of the secret tree.
#[derive(Debug)]
pub enum Entry {
    /// Plain text
    String(String),
    /// Binary data
    Binary(Vec<u8>),
}

/// The first character of `s` that is not whitespace.
pub open spec fn first_non_white(s: Seq<char>) -> Option<char>
    decreases s.len(),
{
    if s.len() == 0 {
        None
    } else if is_white(s[0]) {
        first_non_white(s.drop_first())
    } else {
        Some(s[0])
    }
}

/// Whether a secret given as text is JSON: its first character that is not
/// whitespace is `{`, `[` or `"`. `None` when the text is only whitespace,
/// which is no secret at all.
pub fn secret_is_json(text: &str) -> (r: Option<bool>)
    ensures
        r == match first_non_white(text@) {
            None => None::<bool>,
            Some(c) => Some(c == '{' || c == '[' || c == '"'),
        },
{
    let n = text.unicode_len();
    let mut i: usize = 0;
    assert(text@.subrange(0, n as int) =~= text@);
    while i < n
        invariant
            n == text@.len(),
            i <= n,
            first_non_white(text@) == first_non_white(text@.subrange(i as int, n as int)),
        decreases n - i,
    {
        let c = text.get_char(i);
        assert(text@.subrange(i as int, n as int).drop_first() =~= text@.subrange(i + 1, n as int));
        if !is_whitespace(c) {
            return Some(c == '{' || c == '[' || c == '"');
        }
        i = i + 1;
    }
    None
}

impl Entry {
    /// A text entry when `bytes` are UTF-8, a binary entry otherwise.
    pub fn from_bytes(bytes: Vec<u8>) -> (r: Entry)
        ensures
            r@ == if valid_utf8(bytes@) {
                EntryView::Text(decode_utf8(bytes@))
            } else {
                EntryView::Bytes(bytes@)
            },
    {
        let original = Entry::Binary(bytes);
        let copy = original.duplicate();
        match copy {
            Entry::Binary(c) => match string_from_utf8(c) {
                Some(s) => Entry::String(s),
                None => original,
            },
            Entry::String(_) => original,
        }
    }

    /// The value this entry holds.
    pub open spec fn view(&self) -> EntryView {
        match self {
            Entry::String(s) => EntryView::Text(s@),
            Entry::Binary(b) => EntryView::Bytes(b@),
        }
    }

    /// A copy of this entry.
    pub fn duplicate(&self) -> (r: Entry)
        ensures
            r@ == self@,
    {
        match self {
            Entry::String(s) => Entry::String(s.clone()),
            Entry::Binary(b) => {
                let mut out: Vec<u8> = Vec::new();
                let mut i: usize = 0;
                while i < b.len()
                    invariant
                        i <= b@.len(),
                        out@ == b@.subrange(0, i as int),
                    decreases b@.len() - i,
                {
                    out.push(b[i]);
                    i = i + 1;
                }
                assert(out@ =~= b@);
                Entry::Binary(out)
            },
        }
    }

    /// Whether two entries hold the same value.
    pub fn same_as(&self, other: &Entry) -> (r: bool)
        ensures
            r == (self@ == other@),
    {
        match (self, other) {
            (Entry::String(a), Entry::String(b)) => *a == *b,
            (Entry::Binary(a), Entry::Binary(b)) => {
                if a.len() != b.len() {
                    return false;
                }
                let mut i: usize = 0;
                while i < a.len()
                    invariant
                        i <= a@.len(),
                        a@.len() == b@.len(),
                        a@.subrange(0, i as int) == b@.subrange(0, i as int),
                        self@ == EntryView::Bytes(a@),
                        other@ == EntryView::Bytes(b@),
                    decreases a@.len() - i,
                {
                    if a[i] != b[i] {
                        assert(a@[i as int] != b@[i as int]);
                        assert(a@ != b@);
                        return false;
                    }
                    assert(a@.subrange(0, i + 1) =~= a@.subrange(0, i as int).push(a@[i as int]));
                    assert(b@.subrange(0, i + 1) =~= b@.subrange(0, i as int).push(b@[i as int]));
                    i = i + 1;
                }
                assert(a@ =~= a@.subrange(0, a@.len() as int));
                assert(b@ =~= b@.subrange(0, b@.len() as int));
                true
            },
            _ => false,
        }
    }

    /// The text shown for this entry, as a sequence of characters.
    pub open spec fn to_string_spec(&self) -> Seq<char> {
        match self {
            Entry::String(s) => s@,
            Entry::Binary(_) => "[Binary data]"@,
        }
    }

    /// The text shown for this entry: the string itself, or a marker for
    /// binary data.
    pub fn to_string(&self) -> (r: String)
        ensures
            r@ == self.to_string_spec(),
    {
        match self {
            Entry::String(s) => s.clone(),
            Entry::Binary(_) => String::from_str("[Binary data]"),
        }
    }
}

impl Clone for Entry {
    fn clone(&self) -> (r: Entry)
        ensures
            r@ == self@,
    {
        self.duplicate()
    }
}

impl PartialEq for Entry {
    fn eq(&self, other: &Entry) -> (r: bool) {
        self.same_as(other)
    }
}

impl vstd::std_specs::cmp::PartialEqSpecImpl for Entry {
    open spec fn obeys_eq_spec() -> bool {
        true
    }

    open spec fn eq_spec(&self, other: &Entry) -> bool {
        self@ == other@
    }
}

impl Eq for Entry {
}

} // verus!
