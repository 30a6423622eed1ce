//! The byte layout of a secret tree.
//!
//! Every integer is little-endian. A map is its number of children (8 bytes)
//! followed by each child as a key and a node. A key is a byte string holding
//! UTF-8. A node is a tag (4 bytes: 0 for a leaf, 1 for a branch) followed by
//! an entry or a map. An entry is a tag (4 bytes: 0 for text, 1 for binary)
//! followed by a byte string. A byte string is its length (8 bytes) followed
//! by its bytes.
use vstd::prelude::*;
use vstd::utf8::{decode_utf8, encode_utf8, valid_utf8};

use crate::entry::{Entry, EntryView};
use crate::nested_map::Tree;

verus! {

/// `256` to the power `k`.
pub open spec fn pow256(k: nat) -> nat
    decreases k,
{
    if k == 0 {
        1
    } else {
        256 * pow256((k - 1) as nat)
    }
}

/// The `k` low bytes of `n`, least significant first.
pub open spec fn le_bytes(n: nat, k: nat) -> Seq<u8>
    decreases k,
{
    if k == 0 {
        Seq::empty()
    } else {
        seq![(n % 256) as u8] + le_bytes(n / 256, (k - 1) as nat)
    }
}

/// The number that little-endian bytes denote.
pub open spec fn le_value(s: Seq<u8>) -> nat
    decreases s.len(),
{
    if s.len() == 0 {
        0
    } else {
        s[0] as nat + 256 * le_value(s.drop_first())
    }
}

/// A byte string: its length, then its bytes.
pub open spec fn blob_encoding(b: Seq<u8>) -> Seq<u8> {
    le_bytes(b.len(), 8) + b
}

/// The bytes of an entry.
pub open spec fn entry_encoding(e: EntryView) -> Seq<u8> {
    match e {
        EntryView::Text(s) => le_bytes(0, 4) + blob_encoding(encode_utf8(s)),
        EntryView::Bytes(b) => le_bytes(1, 4) + blob_encoding(b),
    }
}

/// The `k`-byte number at `pos`, and the position after it.
pub open spec fn parse_uint(b: Seq<u8>, pos: int, k: nat) -> Option<(nat, int)> {
    if 0 <= pos && pos + k <= b.len() {
        Some((le_value(b.subrange(pos, pos + k)), pos + k))
    } else {
        None
    }
}

/// The byte string at `pos`, and the position after it.
pub open spec fn parse_blob(b: Seq<u8>, pos: int) -> Option<(Seq<u8>, int)> {
    match parse_uint(b, pos, 8) {
        Some((n, p)) => if p + n <= b.len() {
            Some((b.subrange(p, p + n), p + n))
        } else {
            None
        },
        None => None,
    }
}

/// The UTF-8 text at `pos`, and the position after it.
pub open spec fn parse_text(b: Seq<u8>, pos: int) -> Option<(Seq<char>, int)> {
    match parse_blob(b, pos) {
        Some((t, p)) => if valid_utf8(t) {
            Some((decode_utf8(t), p))
        } else {
            None
        },
        None => None,
    }
}

/// The entry at `pos`, and the position after it.
pub open spec fn parse_entry(b: Seq<u8>, pos: int) -> Option<(EntryView, int)> {
    match parse_uint(b, pos, 4) {
        Some((tag, p)) => if tag == 0 {
            match parse_text(b, p) {
                Some((s, q)) => Some((EntryView::Text(s), q)),
                None => None,
            }
        } else if tag == 1 {
            match parse_blob(b, p) {
                Some((t, q)) => Some((EntryView::Bytes(t), q)),
                None => None,
            }
        } else {
            None
        },
        None => None,
    }
}

/// The node at `pos`, and the position after it.
pub open spec fn parse_node(b: Seq<u8>, pos: int) -> Option<(Tree, int)>
    decreases b.len() - pos,
{
    match parse_uint(b, pos, 4) {
        Some((tag, p)) => if tag == 0 {
            match parse_entry(b, p) {
                Some((e, q)) => Some((Tree::Leaf(e), q)),
                None => None,
            }
        } else if tag == 1 {
            match parse_map(b, p) {
                Some((m, q)) => Some((Tree::Branch(m), q)),
                None => None,
            }
        } else {
            None
        },
        None => None,
    }
}

/// The map at `pos`, and the position after it.
pub open spec fn parse_map(b: Seq<u8>, pos: int) -> Option<(Map<Seq<char>, Tree>, int)>
    decreases b.len() - pos,
{
    match parse_uint(b, pos, 8) {
        Some((count, p)) => parse_children(b, p, count, Map::empty()),
        None => None,
    }
}

/// `count` children from `pos` on, each added to `acc` in turn (a later key
/// replaces an earlier one), and the position after them.
pub open spec fn parse_children(
    b: Seq<u8>,
    pos: int,
    count: nat,
    acc: Map<Seq<char>, Tree>,
) -> Option<(Map<Seq<char>, Tree>, int)>
    decreases b.len() - pos,
{
    if count == 0 {
        Some((acc, pos))
    } else {
        match parse_text(b, pos) {
            Some((k, p)) => match parse_node(b, p) {
                Some((t, q)) => if pos < q <= b.len() {
                    parse_children(b, q, (count - 1) as nat, acc.insert(k, t))
                } else {
                    None
                },
                None => None,
            },
            None => None,
        }
    }
}

/// The tree that `b` holds, when `b` holds exactly one map.
pub open spec fn parse_tree(b: Seq<u8>) -> Option<Map<Seq<char>, Tree>> {
    match parse_map(b, 0) {
        Some((m, p)) => if p == b.len() {
            Some(m)
        } else {
            None
        },
        None => None,
    }
}

/// Reading back the bytes of a number gives the number.
pub proof fn lemma_le_round_trip(n: nat, k: nat)
    requires
        n < pow256(k),
    ensures
        le_value(le_bytes(n, k)) == n,
        le_bytes(n, k).len() == k,
    decreases k,
{
    if k > 0 {
        lemma_le_round_trip(n / 256, (k - 1) as nat);
        let s = le_bytes(n, k);
        assert(s.drop_first() =~= le_bytes(n / 256, (k - 1) as nat));
        assert(n / 256 < pow256((k - 1) as nat)) by (nonlinear_arith)
            requires
                n < 256 * pow256((k - 1) as nat),
        ;
        assert(n % 256 + 256 * (n / 256) == n) by (nonlinear_arith);
    }
}

/// The number that `k` bytes denote is below `256^k`.
proof fn lemma_le_value_bound(s: Seq<u8>)
    ensures
        le_value(s) < pow256(s.len()),
    decreases s.len(),
{
    if s.len() > 0 {
        lemma_le_value_bound(s.drop_first());
        let v = le_value(s.drop_first());
        let p = pow256(s.drop_first().len());
        assert(s[0] as nat + 256 * v < 256 * p) by (nonlinear_arith)
            requires
                v < p,
                s[0] < 256,
        ;
    }
}

/// The byte count of `k` little-endian bytes is `k`.
pub proof fn lemma_le_bytes_len(n: nat, k: nat)
    ensures
        le_bytes(n, k).len() == k,
    decreases k,
{
    if k > 0 {
        lemma_le_bytes_len(n / 256, (k - 1) as nat);
    }
}

/// A window of `b` that holds `x + y` holds `x` and then `y`.
pub proof fn lemma_split(b: Seq<u8>, pos: int, x: Seq<u8>, y: Seq<u8>)
    requires
        0 <= pos,
        pos + x.len() + y.len() <= b.len(),
        b.subrange(pos, pos + x.len() + y.len()) == x + y,
    ensures
        b.subrange(pos, pos + x.len()) == x,
        b.subrange(pos + x.len(), pos + x.len() + y.len()) == y,
{
    assert forall|i: int| 0 <= i < x.len() implies b.subrange(pos, pos + x.len())[i] == x[i] by {
        assert(b.subrange(pos, pos + x.len() + y.len())[i] == (x + y)[i]);
    }
    assert forall|i: int| 0 <= i < y.len() implies b.subrange(
        pos + x.len(),
        pos + x.len() + y.len(),
    )[i] == y[i] by {
        assert(b.subrange(pos, pos + x.len() + y.len())[x.len() + i] == (x + y)[x.len() + i]);
        assert((x + y)[x.len() + i] == y[i]);
        assert(b.subrange(pos, pos + x.len() + y.len())[x.len() + i] == b[pos + x.len() + i]);
    }
    assert(b.subrange(pos, pos + x.len()) =~= x);
    assert(b.subrange(pos + x.len(), pos + x.len() + y.len()) =~= y);
}

/// The bytes of a number read back as the number.
pub proof fn lemma_parse_uint(n: nat, k: nat, b: Seq<u8>, pos: int)
    requires
        n < pow256(k),
        0 <= pos,
        pos + k <= b.len(),
        b.subrange(pos, pos + k) == le_bytes(n, k),
    ensures
        parse_uint(b, pos, k) == Some((n, pos + k)),
{
    lemma_le_round_trip(n, k);
}

/// The bytes of a byte string read back as the byte string.
pub proof fn lemma_parse_blob(x: Seq<u8>, b: Seq<u8>, pos: int)
    requires
        0 <= pos,
        b.len() < pow256(8),
        pos + blob_encoding(x).len() <= b.len(),
        b.subrange(pos, pos + blob_encoding(x).len()) == blob_encoding(x),
    ensures
        parse_blob(b, pos) == Some((x, pos + blob_encoding(x).len())),
{
    lemma_le_bytes_len(x.len(), 8);
    lemma_split(b, pos, le_bytes(x.len(), 8), x);
    lemma_parse_uint(x.len(), 8, b, pos);
}

/// The bytes of a text read back as the text.
pub proof fn lemma_parse_text(t: Seq<char>, b: Seq<u8>, pos: int)
    requires
        0 <= pos,
        b.len() < pow256(8),
        pos + blob_encoding(encode_utf8(t)).len() <= b.len(),
        b.subrange(pos, pos + blob_encoding(encode_utf8(t)).len()) == blob_encoding(encode_utf8(t)),
    ensures
        parse_text(b, pos) == Some((t, pos + blob_encoding(encode_utf8(t)).len())),
{
    lemma_parse_blob(encode_utf8(t), b, pos);
    vstd::utf8::encode_utf8_valid_utf8(t);
    vstd::utf8::encode_utf8_decode_utf8(t);
}

/// The bytes of an entry read back as the entry.
pub proof fn lemma_parse_entry(e: EntryView, b: Seq<u8>, pos: int)
    requires
        0 <= pos,
        b.len() < pow256(8),
        pos + entry_encoding(e).len() <= b.len(),
        b.subrange(pos, pos + entry_encoding(e).len()) == entry_encoding(e),
    ensures
        parse_entry(b, pos) == Some((e, pos + entry_encoding(e).len())),
{
    lemma_pow256_8();
    match e {
        EntryView::Text(t) => {
            lemma_le_bytes_len(0, 4);
            lemma_split(b, pos, le_bytes(0, 4), blob_encoding(encode_utf8(t)));
            lemma_parse_uint(0, 4, b, pos);
            lemma_parse_text(t, b, pos + 4);
        },
        EntryView::Bytes(x) => {
            lemma_le_bytes_len(1, 4);
            lemma_split(b, pos, le_bytes(1, 4), blob_encoding(x));
            lemma_parse_uint(1, 4, b, pos);
            lemma_parse_blob(x, b, pos + 4);
        },
    }
}

pub proof fn lemma_pow256_8()
    ensures
        pow256(8) == 0x1_0000_0000_0000_0000,
        pow256(4) == 0x1_0000_0000,
{
    reveal_with_fuel(pow256, 9);
}

/// Appends the `k` low bytes of `n`, least significant first.
pub fn write_uint(out: &mut Vec<u8>, n: u64, k: usize)
    requires
        k <= 8,
    ensures
        final(out)@ == old(out)@ + le_bytes(n as nat, k as nat),
{
    let mut v: u64 = n;
    let mut i: usize = 0;
    while i < k
        invariant
            i <= k,
            out@ + le_bytes(v as nat, (k - i) as nat) == old(out)@ + le_bytes(n as nat, k as nat),
        decreases k - i,
    {
        let ghost before = out@;
        assert(le_bytes(v as nat, (k - i) as nat) =~= seq![(v % 256) as u8] + le_bytes(
            (v / 256) as nat,
            (k - i - 1) as nat,
        ));
        out.push((v % 256) as u8);
        assert(out@ + le_bytes((v / 256) as nat, (k - i - 1) as nat) =~= before + le_bytes(
            v as nat,
            (k - i) as nat,
        ));
        v = v / 256;
        i = i + 1;
    }
    assert(le_bytes(v as nat, 0) =~= Seq::<u8>::empty());
    assert(out@ =~= out@ + le_bytes(v as nat, 0));
}

/// The `k`-byte number at `pos`, and the position after it.
pub fn read_uint(b: &[u8], pos: usize, k: usize) -> (r: Option<(u64, usize)>)
    requires
        k == 4 || k == 8,
    ensures
        match r {
            Some((v, p)) => parse_uint(b@, pos as int, k as nat) == Some((v as nat, p as int)),
            None => parse_uint(b@, pos as int, k as nat) is None,
        },
{
    if pos > b.len() || k > b.len() - pos {
        return None;
    }
    let ghost s = b@.subrange(pos as int, pos + k);
    assert(b@.len() == b.len());
    proof {
        lemma_pow256_8();
        lemma_le_value_bound(s);
    }
    let mut v: u64 = 0;
    let mut j: usize = k;
    while j > 0
        invariant
            j <= k,
            k == 4 || k == 8,
            pos + k <= b@.len(),
            b@.len() <= usize::MAX,
            s == b@.subrange(pos as int, pos + k),
            v as nat == le_value(s.subrange(j as int, k as int)),
            le_value(s.subrange(j as int, k as int)) < pow256((k - j) as nat),
            pow256(8) == 0x1_0000_0000_0000_0000,
            pow256(4) == 0x1_0000_0000,
        decreases j,
    {
        let ghost rest = s.subrange(j as int, k as int);
        let ghost next = s.subrange(j - 1, k as int);
        assert(next.drop_first() =~= rest);
        assert(next[0] == b@[pos + j - 1]);
        proof {
            lemma_le_value_bound(next);
            lemma_pow256_monotone((k - j + 1) as nat, 8);
        }
        let byte = b[pos + (j - 1)];
        assert(byte as nat + 256 * (v as nat) == le_value(next));
        v = byte as u64 + 256 * v;
        j = j - 1;
    }
    assert(s.subrange(0, k as int) =~= s);
    Some((v, pos + k))
}

/// Appends a byte string: its length, then its bytes.
pub fn write_blob(out: &mut Vec<u8>, b: &[u8])
    ensures
        final(out)@ == old(out)@ + blob_encoding(b@),
{
    write_uint(out, b.len() as u64, 8);
    let ghost start = out@;
    let mut i: usize = 0;
    while i < b.len()
        invariant
            i <= b@.len(),
            out@ == start + b@.subrange(0, i as int),
        decreases b@.len() - i,
    {
        out.push(b[i]);
        assert(out@ =~= start + b@.subrange(0, i + 1));
        i = i + 1;
    }
    assert(b@.subrange(0, b@.len() as int) =~= b@);
    assert(out@ =~= old(out)@ + blob_encoding(b@));
}

/// The byte string at `pos`, and the position after it.
fn read_blob(b: &[u8], pos: usize) -> (r: Option<(Vec<u8>, usize)>)
    ensures
        match r {
            Some((t, p)) => parse_blob(b@, pos as int) == Some((t@, p as int)),
            None => parse_blob(b@, pos as int) is None,
        },
{
    let (n, p) = match read_uint(b, pos, 8) {
        Some(x) => x,
        None => return None,
    };
    if p > b.len() || n > (b.len() - p) as u64 {
        return None;
    }
    let n = n as usize;
    assert(b@.len() == b.len());
    let mut t: Vec<u8> = Vec::new();
    let mut i: usize = 0;
    while i < n
        invariant
            i <= n,
            p + n <= b@.len(),
            b@.len() <= usize::MAX,
            t@ == b@.subrange(p as int, p + i),
        decreases n - i,
    {
        t.push(b[p + i]);
        assert(t@ =~= b@.subrange(p as int, p + i + 1));
        i = i + 1;
    }
    Some((t, p + n))
}

/// Relies on `String::from_utf8`: it succeeds exactly on valid UTF-8 and then
/// holds the characters that the bytes encode.
#[verifier::external_body]
pub(crate) fn string_from_utf8(bytes: Vec<u8>) -> (r: Option<String>)
    ensures
        match r {
            Some(s) => valid_utf8(bytes@) && s@ == decode_utf8(bytes@),
            None => !valid_utf8(bytes@),
        },
{
    String::from_utf8(bytes).ok()
}

/// The UTF-8 text at `pos`, and the position after it.
pub fn read_text(b: &[u8], pos: usize) -> (r: Option<(String, usize)>)
    ensures
        match r {
            Some((s, p)) => parse_text(b@, pos as int) == Some((s@, p as int)),
            None => parse_text(b@, pos as int) is None,
        },
{
    match read_blob(b, pos) {
        Some((t, p)) => match string_from_utf8(t) {
            Some(s) => Some((s, p)),
            None => None,
        },
        None => None,
    }
}

/// Appends a text as a byte string of its UTF-8 encoding.
pub fn write_text(out: &mut Vec<u8>, s: &String)
    ensures
        final(out)@ == old(out)@ + blob_encoding(encode_utf8(s@)),
{
    write_blob(out, s.as_str().as_bytes());
}

/// Appends the bytes of an entry.
pub fn write_entry(out: &mut Vec<u8>, e: &Entry)
    ensures
        final(out)@ == old(out)@ + entry_encoding(e@),
{
    let ghost start = out@;
    match e {
        Entry::String(s) => {
            write_uint(out, 0, 4);
            write_text(out, s);
        },
        Entry::Binary(b) => {
            write_uint(out, 1, 4);
            write_blob(out, b.as_slice());
        },
    }
    assert(out@ =~= start + entry_encoding(e@));
}

/// The entry at `pos`, and the position after it.
pub fn read_entry(b: &[u8], pos: usize) -> (r: Option<(Entry, usize)>)
    ensures
        match r {
            Some((e, p)) => parse_entry(b@, pos as int) == Some((e@, p as int)),
            None => parse_entry(b@, pos as int) is None,
        },
{
    let (tag, p) = match read_uint(b, pos, 4) {
        Some(x) => x,
        None => return None,
    };
    if tag == 0 {
        match read_text(b, p) {
            Some((s, q)) => Some((Entry::String(s), q)),
            None => None,
        }
    } else if tag == 1 {
        match read_blob(b, p) {
            Some((t, q)) => Some((Entry::Binary(t), q)),
            None => None,
        }
    } else {
        None
    }
}

proof fn lemma_pow256_monotone(a: nat, b: nat)
    requires
        a <= b,
    ensures
        pow256(a) <= pow256(b),
    decreases b,
{
    if a < b {
        lemma_pow256_monotone(a, (b - 1) as nat);
    }
}

} // verus!
