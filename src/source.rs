//! Where a store is read from or written to.
use vstd::prelude::*;
use vstd::string::StrSliceExecFns;

verus! {

/// Whether `c` has the Unicode White_Space property, the whitespace of
/// `char::is_whitespace` and `str::trim`.
pub open spec fn is_white(c: char) -> bool {
    let u = c as u32;
    (0x09 <= u <= 0x0d) || u == 0x20 || u == 0x85 || u == 0xa0 || u == 0x1680 || (0x2000 <= u
        <= 0x200a) || u == 0x2028 || u == 0x2029 || u == 0x202f || u == 0x205f || u == 0x3000
}

/// `s` without its leading whitespace.
pub open spec fn trim_start_of(s: Seq<char>) -> Seq<char>
    decreases s.len(),
{
    if s.len() > 0 && is_white(s[0]) {
        trim_start_of(s.drop_first())
    } else {
        s
    }
}

/// `s` without its trailing whitespace.
pub open spec fn trim_end_of(s: Seq<char>) -> Seq<char>
    decreases s.len(),
{
    if s.len() > 0 && is_white(s.last()) {
        trim_end_of(s.drop_last())
    } else {
        s
    }
}

/// `s` without leading and trailing whitespace.
pub open spec fn trimmed(s: Seq<char>) -> Seq<char> {
    trim_end_of(trim_start_of(s))
}

/// Whether `c` is whitespace.
pub fn is_whitespace(c: char) -> (r: bool)
    ensures
        r == is_white(c),
{
    let u = c as u32;
    (0x09 <= u && u <= 0x0d) || u == 0x20 || u == 0x85 || u == 0xa0 || u == 0x1680 || (0x2000
        <= u && u <= 0x200a) || u == 0x2028 || u == 0x2029 || u == 0x202f || u == 0x205f || u
        == 0x3000
}

/// The text without leading and trailing whitespace.
pub fn trim(s: &str) -> (r: &str)
    ensures
        r@ == trimmed(s@),
{
    let n = s.unicode_len();
    let mut a: usize = 0;
    assert(s@.subrange(0, n as int) =~= s@);
    while a < n && is_whitespace(s.get_char(a))
        invariant
            n == s@.len(),
            a <= n,
            trim_start_of(s@) == trim_start_of(s@.subrange(a as int, n as int)),
        decreases n - a,
    {
        assert(s@.subrange(a as int, n as int).drop_first() =~= s@.subrange(a + 1, n as int));
        a = a + 1;
    }
    assert(trim_start_of(s@.subrange(a as int, n as int)) == s@.subrange(a as int, n as int));
    let mut b: usize = n;
    while b > a && is_whitespace(s.get_char(b - 1))
        invariant
            n == s@.len(),
            a <= b <= n,
            trim_start_of(s@) == s@.subrange(a as int, n as int),
            trimmed(s@) == trim_end_of(s@.subrange(a as int, b as int)),
        decreases b - a,
    {
        assert(s@.subrange(a as int, b as int).drop_last() =~= s@.subrange(a as int, b - 1));
        b = b - 1;
    }
    assert(trim_end_of(s@.subrange(a as int, b as int)) == s@.subrange(a as int, b as int));
    s.substring_char(a, b)
}

/// The prefix that names an object store location.
pub open spec fn s3_prefix() -> Seq<char> {
    seq!['s', '3', ':', '/', '/']
}

/// Whether `s` starts with [`s3_prefix`].
pub open spec fn has_s3_prefix(s: Seq<char>) -> bool {
    s.len() >= 5 && s.subrange(0, 5) == s3_prefix()
}

/// Whether `s` ends with a path separator, `/` or `\`.
pub open spec fn ends_with_separator(s: Seq<char>) -> bool {
    s.len() > 0 && (s.last() == '/' || s.last() == '\\')
}

/// A place a store is loaded from or saved to.
#[derive(Debug, PartialEq, Eq)]
pub enum Source {
    /// A single encrypted file
    File(String),
    /// A directory tree, one file per leaf
    Directory(String),
    /// An object store location, without its `s3://` prefix
    S3(String),
}

/// Why a source could not be named.
#[derive(Debug, Clone, Copy, PartialEq, Eq, Structural)]
pub enum SourceError {
    /// `s3://` with nothing after it
    InvalidS3,
    /// An input that does not exist
    Missing,
}

/// The location after an `s3://` prefix of the trimmed text, if it has one.
fn s3_location(trimmed: &str) -> (r: Option<Result<String, SourceError>>)
    ensures
        match r {
            Some(Ok(p)) => has_s3_prefix(trimmed@) && p@ == trimmed@.subrange(5, trimmed@.len() as int)
                && p@.len() > 0,
            Some(Err(e)) => has_s3_prefix(trimmed@) && trimmed@.len() == 5 && e
                == SourceError::InvalidS3,
            None => !has_s3_prefix(trimmed@),
        },
{
    let n = trimmed.unicode_len();
    if n < 5 {
        return None;
    }
    let prefix = trimmed.substring_char(0, 5);
    let is_s3 = prefix.get_char(0) == 's' && prefix.get_char(1) == '3' && prefix.get_char(2) == ':'
        && prefix.get_char(3) == '/' && prefix.get_char(4) == '/';
    if !is_s3 {
        assert(prefix@ != s3_prefix()) by {
            if prefix@ == s3_prefix() {
                assert(prefix@[0] == 's' && prefix@[1] == '3' && prefix@[2] == ':' && prefix@[3] == '/'
                    && prefix@[4] == '/');
            }
        }
        return None;
    }
    assert(prefix@ =~= s3_prefix());
    if n == 5 {
        return Some(Err(SourceError::InvalidS3));
    }
    let rest = trimmed.substring_char(5, n);
    Some(Ok(rest.to_owned()))
}

/// Whether the text ends with `/` or `\`.
fn ends_with_sep(s: &str) -> (r: bool)
    ensures
        r == ends_with_separator(s@),
{
    let n = s.unicode_len();
    if n == 0 {
        return false;
    }
    let c = s.get_char(n - 1);
    c == '/' || c == '\\'
}

/// Names the source to save to: `s3://location` (after trimming) is an object
/// store location, text naming a directory (`is_dir`) or ending in `/` or `\`
/// is a directory, and anything else is a file.
pub fn parse_output(string: &str, is_dir: bool) -> (r: Result<Source, SourceError>)
    ensures
        match r {
            Ok(Source::S3(p)) => has_s3_prefix(trimmed(string@)) && p@ == trimmed(string@).subrange(
                5,
                trimmed(string@).len() as int,
            ) && p@.len() > 0,
            Ok(Source::Directory(p)) => !has_s3_prefix(trimmed(string@)) && p@ == string@ && (is_dir
                || ends_with_separator(string@)),
            Ok(Source::File(p)) => !has_s3_prefix(trimmed(string@)) && p@ == string@ && !(is_dir
                || ends_with_separator(string@)),
            Err(e) => has_s3_prefix(trimmed(string@)) && trimmed(string@).len() == 5 && e
                == SourceError::InvalidS3,
        },
{
    match s3_location(trim(string)) {
        Some(Ok(p)) => Ok(Source::S3(p)),
        Some(Err(e)) => Err(e),
        None => if is_dir || ends_with_sep(string) {
            Ok(Source::Directory(string.to_owned()))
        } else {
            Ok(Source::File(string.to_owned()))
        },
    }
}

/// Names the source to load from: `s3://location` (after trimming) is an
/// object store location; otherwise the text must name something that exists
/// (`exists`), a directory (`is_dir`) or a file.
pub fn parse_input(string: &str, exists: bool, is_dir: bool) -> (r: Result<Source, SourceError>)
    ensures
        match r {
            Ok(Source::S3(p)) => has_s3_prefix(trimmed(string@)) && p@ == trimmed(string@).subrange(
                5,
                trimmed(string@).len() as int,
            ) && p@.len() > 0,
            Ok(Source::Directory(p)) => !has_s3_prefix(trimmed(string@)) && p@ == string@ && exists
                && is_dir,
            Ok(Source::File(p)) => !has_s3_prefix(trimmed(string@)) && p@ == string@ && exists
                && !is_dir,
            Err(e) => if has_s3_prefix(trimmed(string@)) {
                trimmed(string@).len() == 5 && e == SourceError::InvalidS3
            } else {
                !exists && e == SourceError::Missing
            },
        },
{
    match s3_location(trim(string)) {
        Some(Ok(p)) => Ok(Source::S3(p)),
        Some(Err(e)) => Err(e),
        None => if !exists {
            Err(SourceError::Missing)
        } else if is_dir {
            Ok(Source::Directory(string.to_owned()))
        } else {
            Ok(Source::File(string.to_owned()))
        },
    }
}

} // verus!
