//! Dotted paths such as `db.prod.password`.
use vstd::prelude::*;
use vstd::string::StrSliceExecFns;

use crate::nested_map::segs;
use crate::source::{trim, trimmed};
use crate::store::StoreError;

verus! {

/// The pieces of `s` between dots, in order; there is one more piece than
/// there are dots.
pub open spec fn split_at_dots(s: Seq<char>) -> Seq<Seq<char>>
    decreases s.len(),
{
    if s.len() == 0 {
        seq![Seq::empty()]
    } else {
        let rest = split_at_dots(s.drop_last());
        if s.last() == '.' {
            rest.push(Seq::empty())
        } else {
            rest.update(rest.len() - 1, rest.last().push(s.last()))
        }
    }
}

/// The pieces that are not empty, in order.
pub open spec fn keep_nonempty(ps: Seq<Seq<char>>) -> Seq<Seq<char>>
    decreases ps.len(),
{
    if ps.len() == 0 {
        Seq::empty()
    } else {
        let rest = keep_nonempty(ps.drop_last());
        if ps.last().len() == 0 {
            rest
        } else {
            rest.push(ps.last())
        }
    }
}

/// The segments of dotted text: each piece between dots, trimmed, where the
/// pieces left empty are dropped.
pub open spec fn path_segments(s: Seq<char>) -> Seq<Seq<char>> {
    keep_nonempty(split_at_dots(s).map_values(|p: Seq<char>| trimmed(p)))
}

/// A non-empty sequence of key segments.
#[derive(Debug, PartialEq, Eq)]
pub struct Path(pub Vec<String>);

proof fn lemma_split_nonempty(s: Seq<char>)
    ensures
        split_at_dots(s).len() >= 1,
    decreases s.len(),
{
    if s.len() > 0 {
        lemma_split_nonempty(s.drop_last());
    }
}

impl Path {
    /// The segments, in order.
    pub fn iter(&self) -> (r: &[String])
        ensures
            r@ == self.0@,
    {
        self.0.as_slice()
    }

    /// Splits `string` at each `.`, trims each piece, and drops the pieces
    /// left empty; fails with `EmptyPath` when no segment remains.
    pub fn from_str(string: &str) -> (r: Result<Path, StoreError>)
        ensures
            match r {
                Ok(p) => segs(p.0@) == path_segments(string@) && p.0@.len() > 0,
                Err(e) => e == StoreError::EmptyPath && path_segments(string@).len() == 0,
            },
    {
        let n = string.unicode_len();
        let mut out: Vec<String> = Vec::new();
        let mut start: usize = 0;
        let mut i: usize = 0;
        let ghost mut raw: Seq<Seq<char>> = Seq::empty();
        assert(string@.subrange(0, 0) =~= Seq::<char>::empty());
        assert(split_at_dots(Seq::<char>::empty()) =~= Seq::<Seq<char>>::empty().push(
            Seq::<char>::empty(),
        ));
        assert(segs(out@) =~= Seq::<Seq<char>>::empty());
        while i < n
            invariant
                n == string@.len(),
                start <= i <= n,
                split_at_dots(string@.subrange(0, i as int)) == raw.push(
                    string@.subrange(start as int, i as int),
                ),
                segs(out@) == keep_nonempty(raw.map_values(|p: Seq<char>| trimmed(p))),
            decreases n - i,
        {
            let c = string.get_char(i);
            let ghost before = string@.subrange(0, i as int);
            let ghost after = string@.subrange(0, i + 1);
            let ghost cur = string@.subrange(start as int, i as int);
            assert(after.drop_last() =~= before);
            assert(after.last() == c);
            if c == '.' {
                let piece = trim(string.substring_char(start, i));
                let ghost m = raw.map_values(|p: Seq<char>| trimmed(p));
                let ghost m2 = raw.push(cur).map_values(|p: Seq<char>| trimmed(p));
                assert(m2 =~= m.push(trimmed(cur)));
                assert(m2.drop_last() =~= m);
                let ghost old_out = out@;
                if piece.unicode_len() > 0 {
                    out.push(piece.to_owned());
                    assert(out@.drop_last() =~= old_out);
                    assert(segs(out@) =~= segs(old_out).push(piece@));
                }
                proof {
                    raw = raw.push(cur);
                }
                start = i + 1;
                assert(string@.subrange(start as int, i + 1) =~= Seq::<char>::empty());
            } else {
                assert(string@.subrange(start as int, i + 1) =~= cur.push(c));
                assert(raw.push(cur).update(raw.len() as int, cur.push(c)) =~= raw.push(cur.push(c)));
            }
            i = i + 1;
        }
        let piece = trim(string.substring_char(start, n));
        let ghost cur = string@.subrange(start as int, n as int);
        assert(string@.subrange(0, n as int) =~= string@);
        let ghost m = raw.map_values(|p: Seq<char>| trimmed(p));
        let ghost m2 = raw.push(cur).map_values(|p: Seq<char>| trimmed(p));
        assert(m2 =~= m.push(trimmed(cur)));
        assert(m2.drop_last() =~= m);
        let ghost old_out = out@;
        if piece.unicode_len() > 0 {
            out.push(piece.to_owned());
            assert(out@.drop_last() =~= old_out);
            assert(segs(out@) =~= segs(old_out).push(piece@));
        }
        if out.len() == 0 {
            assert(segs(out@) =~= Seq::<Seq<char>>::empty());
            Err(StoreError::EmptyPath)
        } else {
            Ok(Path(out))
        }
    }
}

} // verus!
