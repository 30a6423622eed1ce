//! A map of nested maps, and navigation in it by paths of keys.
use vstd::prelude::*;

use vstd::utf8::encode_utf8;

use crate::codec::{
    blob_encoding, entry_encoding, le_bytes, lemma_le_bytes_len, lemma_parse_entry, lemma_parse_text,
    lemma_parse_uint, lemma_pow256_8, lemma_split, parse_children, parse_map, parse_node,
    parse_tree, pow256, read_entry, read_text, read_uint, write_entry, write_text, write_uint,
};
use crate::entry::{Entry, EntryView};

verus! {

broadcast use vstd::std_specs::vec::axiom_vec_decreases_to_view;

/// The mathematical value of a [`Node`]: a leaf value or a map of subtrees.
pub enum Tree {
    /// A terminal value
    Leaf(EntryView),
    /// Children by key
    Branch(Map<Seq<char>, Tree>),
}

/// The key sequence of a path of owned segments.
pub open spec fn segs(path: Seq<String>) -> Seq<Seq<char>> {
    path.map_values(|s: String| s@)
}

/// The subtree that `path` addresses below `m`: each segment but the last must
/// name a branch. The empty path addresses nothing.
pub open spec fn tree_get(m: Map<Seq<char>, Tree>, path: Seq<Seq<char>>) -> Option<Tree>
    decreases path.len(),
{
    if path.len() == 0 || !m.contains_key(path[0]) {
        None
    } else if path.len() == 1 {
        Some(m[path[0]])
    } else {
        match m[path[0]] {
            Tree::Branch(b) => tree_get(b, path.drop_first()),
            Tree::Leaf(_) => None,
        }
    }
}

/// Whether `path` addresses a subtree below `m`.
pub open spec fn tree_contains(m: Map<Seq<char>, Tree>, path: Seq<Seq<char>>) -> bool {
    tree_get(m, path) is Some
}

/// `m` with `t` set at `path`, where each missing segment before the last
/// becomes a branch. Meant for paths that [`tree_insertable`] admits.
pub open spec fn tree_insert(m: Map<Seq<char>, Tree>, path: Seq<Seq<char>>, t: Tree) -> Map<
    Seq<char>,
    Tree,
>
    decreases path.len(),
{
    if path.len() == 0 {
        m
    } else if path.len() == 1 {
        m.insert(path[0], t)
    } else {
        let child = if m.contains_key(path[0]) && m[path[0]] is Branch {
            m[path[0]]->Branch_0
        } else {
            Map::empty()
        };
        m.insert(path[0], Tree::Branch(tree_insert(child, path.drop_first(), t)))
    }
}

/// Whether a subtree can be set at `path`: the path is not empty and no
/// segment before the last names a leaf.
pub open spec fn tree_insertable(m: Map<Seq<char>, Tree>, path: Seq<Seq<char>>) -> bool
    decreases path.len(),
{
    if path.len() == 0 {
        false
    } else if path.len() == 1 || !m.contains_key(path[0]) {
        true
    } else {
        match m[path[0]] {
            Tree::Branch(b) => tree_insertable(b, path.drop_first()),
            Tree::Leaf(_) => false,
        }
    }
}

/// `m` without the subtree at `path`; ancestors are kept even when they become
/// empty. Meant for paths that [`tree_contains`] admits.
pub open spec fn tree_remove(m: Map<Seq<char>, Tree>, path: Seq<Seq<char>>) -> Map<
    Seq<char>,
    Tree,
>
    decreases path.len(),
{
    if path.len() == 0 || !m.contains_key(path[0]) {
        m
    } else if path.len() == 1 {
        m.remove(path[0])
    } else {
        match m[path[0]] {
            Tree::Branch(b) => m.insert(path[0], Tree::Branch(tree_remove(b, path.drop_first()))),
            Tree::Leaf(_) => m,
        }
    }
}

/// A map from keys to nodes, where a node is a leaf value or another map.
///
/// The keys and the nodes stand in two vectors of equal length; the key at an
/// index names the node at that index, and no key occurs twice.
#[derive(Debug)]
pub struct NestedMap {
    keys: Vec<String>,
    nodes: Vec<Node>,
}

/// A node of a [`NestedMap`]: a leaf value or a nested map.
#[derive(Debug)]
pub enum Node {
    /// A terminal value
    Leaf(Entry),
    /// A nested map
    Branch(NestedMap),
}

/// The map denoted by parallel sequences of keys and nodes.
spec fn entries_view(keys: Seq<String>, nodes: Seq<Node>) -> Map<Seq<char>, Tree>
    decreases nodes,
{
    if nodes.len() == 0 || keys.len() != nodes.len() {
        Map::empty()
    } else {
        let n = nodes.len() - 1;
        entries_view(keys.subrange(0, n), nodes.subrange(0, n)).insert(keys[n]@, nodes[n].view())
    }
}

/// The bytes of parallel sequences of keys and nodes, in their order.
spec fn entries_encoding(keys: Seq<String>, nodes: Seq<Node>) -> Seq<u8>
    decreases nodes,
{
    if nodes.len() == 0 {
        Seq::empty()
    } else {
        blob_encoding(encode_utf8(keys[0]@)) + nodes[0].encoding() + entries_encoding(
            keys.subrange(1, keys.len() as int),
            nodes.subrange(1, nodes.len() as int),
        )
    }
}

/// The pairs of keys and nodes added to `acc` from the first on.
spec fn fold_front(acc: Map<Seq<char>, Tree>, keys: Seq<String>, nodes: Seq<Node>) -> Map<
    Seq<char>,
    Tree,
>
    decreases nodes.len(),
{
    if nodes.len() == 0 {
        acc
    } else {
        fold_front(
            acc.insert(keys[0]@, nodes[0].view()),
            keys.subrange(1, keys.len() as int),
            nodes.subrange(1, nodes.len() as int),
        )
    }
}

/// The pairs of keys and nodes added to `acc` with the last one added last,
/// built from the back.
spec fn fold_back(acc: Map<Seq<char>, Tree>, keys: Seq<String>, nodes: Seq<Node>) -> Map<
    Seq<char>,
    Tree,
>
    decreases nodes.len(),
{
    if nodes.len() == 0 {
        acc
    } else {
        let n = nodes.len() - 1;
        fold_back(acc, keys.subrange(0, n), nodes.subrange(0, n)).insert(keys[n]@, nodes[n].view())
    }
}

proof fn lemma_view_is_fold_back(keys: Seq<String>, nodes: Seq<Node>)
    requires
        keys.len() == nodes.len(),
    ensures
        entries_view(keys, nodes) == fold_back(Map::empty(), keys, nodes),
    decreases nodes.len(),
{
    if nodes.len() > 0 {
        let n = nodes.len() - 1;
        lemma_view_is_fold_back(keys.subrange(0, n), nodes.subrange(0, n));
    }
}

proof fn lemma_fold_back_first(acc: Map<Seq<char>, Tree>, keys: Seq<String>, nodes: Seq<Node>)
    requires
        keys.len() == nodes.len(),
        nodes.len() >= 1,
    ensures
        fold_back(
            acc.insert(keys[0]@, nodes[0].view()),
            keys.subrange(1, keys.len() as int),
            nodes.subrange(1, nodes.len() as int),
        ) == fold_back(acc, keys, nodes),
    decreases nodes.len(),
{
    let len = nodes.len() as int;
    let k1 = keys.subrange(1, len);
    let n1 = nodes.subrange(1, len);
    if len == 1 {
        assert(keys.subrange(0, 0) =~= Seq::<String>::empty());
        assert(nodes.subrange(0, 0) =~= Seq::<Node>::empty());
        assert(fold_back(acc, keys.subrange(0, 0), nodes.subrange(0, 0)) == acc);
        assert(fold_back(acc.insert(keys[0]@, nodes[0].view()), k1, n1) == acc.insert(
            keys[0]@,
            nodes[0].view(),
        ));
    } else {
        let kp = keys.subrange(0, len - 1);
        let np = nodes.subrange(0, len - 1);
        lemma_fold_back_first(acc, kp, np);
        assert(kp.subrange(1, kp.len() as int) =~= k1.subrange(0, len - 2));
        assert(np.subrange(1, np.len() as int) =~= n1.subrange(0, len - 2));
        assert(kp[0] == keys[0] && np[0] == nodes[0]);
        assert(k1[len - 2] == keys[len - 1] && n1[len - 2] == nodes[len - 1]);
        let acc1 = acc.insert(keys[0]@, nodes[0].view());
        assert(fold_back(acc1, k1, n1) == fold_back(
            acc1,
            k1.subrange(0, len - 2),
            n1.subrange(0, len - 2),
        ).insert(k1[len - 2]@, n1[len - 2].view()));
        assert(fold_back(acc, keys, nodes) == fold_back(acc, kp, np).insert(
            keys[len - 1]@,
            nodes[len - 1].view(),
        ));
    }
}

proof fn lemma_fold_front_back(acc: Map<Seq<char>, Tree>, keys: Seq<String>, nodes: Seq<Node>)
    requires
        keys.len() == nodes.len(),
    ensures
        fold_front(acc, keys, nodes) == fold_back(acc, keys, nodes),
    decreases nodes.len(),
{
    if nodes.len() > 0 {
        lemma_fold_front_back(
            acc.insert(keys[0]@, nodes[0].view()),
            keys.subrange(1, keys.len() as int),
            nodes.subrange(1, nodes.len() as int),
        );
        lemma_fold_back_first(acc, keys, nodes);
    }
}

/// Each entry takes at least one byte.
proof fn lemma_entries_encoding_len(keys: Seq<String>, nodes: Seq<Node>)
    requires
        keys.len() == nodes.len(),
    ensures
        entries_encoding(keys, nodes).len() >= nodes.len(),
    decreases nodes.len(),
{
    if nodes.len() > 0 {
        lemma_le_bytes_len(encode_utf8(keys[0]@).len(), 8);
        lemma_entries_encoding_len(
            keys.subrange(1, keys.len() as int),
            nodes.subrange(1, nodes.len() as int),
        );
    }
}

/// The bytes of a node read back as its tree.
proof fn lemma_parse_node_encoding(n: Node, b: Seq<u8>, pos: int)
    requires
        0 <= pos,
        b.len() < pow256(8),
        pos + n.encoding().len() <= b.len(),
        b.subrange(pos, pos + n.encoding().len()) == n.encoding(),
    ensures
        parse_node(b, pos) == Some((n.view(), pos + n.encoding().len())),
    decreases n,
{
    lemma_pow256_8();
    match n {
        Node::Leaf(e) => {
            lemma_le_bytes_len(0, 4);
            lemma_split(b, pos, le_bytes(0, 4), entry_encoding(e@));
            lemma_parse_uint(0, 4, b, pos);
            lemma_parse_entry(e@, b, pos + 4);
        },
        Node::Branch(m) => {
            lemma_le_bytes_len(1, 4);
            lemma_split(b, pos, le_bytes(1, 4), m.encoding());
            lemma_parse_uint(1, 4, b, pos);
            lemma_parse_map_encoding(m, b, pos + 4);
        },
    }
}

/// The bytes of a map read back as its tree.
proof fn lemma_parse_map_encoding(m: NestedMap, b: Seq<u8>, pos: int)
    requires
        0 <= pos,
        b.len() < pow256(8),
        pos + m.encoding().len() <= b.len(),
        b.subrange(pos, pos + m.encoding().len()) == m.encoding(),
    ensures
        parse_map(b, pos) == Some((m@, pos + m.encoding().len())),
    decreases m,
{
    lemma_pow256_8();
    if m.keys@.len() == m.nodes@.len() {
        let e = entries_encoding(m.keys@, m.nodes@);
        let count = m.nodes@.len();
        lemma_le_bytes_len(count, 8);
        lemma_entries_encoding_len(m.keys@, m.nodes@);
        lemma_split(b, pos, le_bytes(count, 8), e);
        lemma_parse_uint(count, 8, b, pos);
        lemma_parse_entries_encoding(m.keys@, m.nodes@, b, pos + 8, Map::empty());
        lemma_fold_front_back(Map::empty(), m.keys@, m.nodes@);
        lemma_view_is_fold_back(m.keys@, m.nodes@);
    } else {
        lemma_le_bytes_len(0, 8);
        lemma_parse_uint(0, 8, b, pos);
    }
}

/// The bytes of a sequence of entries read back as the pairs added in turn.
proof fn lemma_parse_entries_encoding(
    keys: Seq<String>,
    nodes: Seq<Node>,
    b: Seq<u8>,
    pos: int,
    acc: Map<Seq<char>, Tree>,
)
    requires
        keys.len() == nodes.len(),
        0 <= pos,
        b.len() < pow256(8),
        pos + entries_encoding(keys, nodes).len() <= b.len(),
        b.subrange(pos, pos + entries_encoding(keys, nodes).len()) == entries_encoding(keys, nodes),
    ensures
        parse_children(b, pos, nodes.len(), acc) == Some(
            (fold_front(acc, keys, nodes), pos + entries_encoding(keys, nodes).len()),
        ),
    decreases nodes,
{
    if nodes.len() > 0 {
        let x = blob_encoding(encode_utf8(keys[0]@));
        let y = nodes[0].encoding();
        let k1 = keys.subrange(1, keys.len() as int);
        let n1 = nodes.subrange(1, nodes.len() as int);
        let z = entries_encoding(k1, n1);
        assert(entries_encoding(keys, nodes) == x + y + z);
        lemma_split(b, pos, x + y, z);
        lemma_split(b, pos, x, y);
        lemma_le_bytes_len(encode_utf8(keys[0]@).len(), 8);
        lemma_parse_text(keys[0]@, b, pos);
        lemma_parse_node_encoding(nodes[0], b, pos + x.len());
        lemma_parse_entries_encoding(
            k1,
            n1,
            b,
            pos + x.len() + y.len(),
            acc.insert(keys[0]@, nodes[0].view()),
        );
    }
}

/// Decoding the bytes of a map gives back the map's tree.
pub proof fn lemma_decode_encode(m: NestedMap)
    requires
        m.encoding().len() < 0x1_0000_0000_0000_0000,
    ensures
        parse_tree(m.encoding()) == Some(m@),
{
    lemma_pow256_8();
    assert(m.encoding().subrange(0, m.encoding().len() as int) =~= m.encoding());
    lemma_parse_map_encoding(m, m.encoding(), 0);
}

/// `t` with every branch below it that is left without children removed, at
/// every depth; when `t` is a branch that empties entirely, it stays as an
/// empty branch.
pub open spec fn prune_tree(t: Tree) -> Tree
    decreases t,
{
    match t {
        Tree::Leaf(e) => Tree::Leaf(e),
        Tree::Branch(m) => Tree::Branch(prune_map(m)),
    }
}

/// The children of `m`, each pruned by [`prune_tree`], without those that
/// prune to an empty branch.
pub open spec fn prune_map(m: Map<Seq<char>, Tree>) -> Map<Seq<char>, Tree>
    decreases m,
{
    if m.dom().finite() {
        Map::new(
            |k: Seq<char>|
                m.contains_key(k) && prune_tree(m[k]) != Tree::Branch(Map::empty()),
            |k: Seq<char>|
                if m.contains_key(k) {
                    prune_tree(m[k])
                } else {
                    m[k]
                },
        )
    } else {
        m
    }
}

/// The map of the first `i + 1` entries is that of the first `i` with entry
/// `i` added under a key they do not hold.
proof fn lemma_entries_view_prefix(keys: Seq<String>, nodes: Seq<Node>, i: int)
    requires
        keys_unique(keys),
        keys.len() == nodes.len(),
        0 <= i < keys.len(),
    ensures
        entries_view(keys.subrange(0, i + 1), nodes.subrange(0, i + 1)) == entries_view(
            keys.subrange(0, i),
            nodes.subrange(0, i),
        ).insert(keys[i]@, nodes[i].view()),
        !entries_view(keys.subrange(0, i), nodes.subrange(0, i)).contains_key(keys[i]@),
        entries_view(keys.subrange(0, i), nodes.subrange(0, i)).dom().finite(),
{
    let kp = keys.subrange(0, i);
    let np = nodes.subrange(0, i);
    let k1 = keys.subrange(0, i + 1);
    let n1 = nodes.subrange(0, i + 1);
    assert(k1.subrange(0, i) =~= kp);
    assert(n1.subrange(0, i) =~= np);
    assert(k1[i] == keys[i] && n1[i] == nodes[i]);
    assert(keys_unique(kp)) by {
        assert forall|a: int, b: int|
            0 <= a < kp.len() && 0 <= b < kp.len() && a != b implies kp[a]@ != kp[b]@ by {
            assert(kp[a] == keys[a] && kp[b] == keys[b]);
        }
    }
    lemma_entries_view(kp, np);
    if entries_view(kp, np).contains_key(keys[i]@) {
        let j = choose|j: int| 0 <= j < kp.len() && kp[j]@ == keys[i]@;
        assert(kp[j] == keys[j]);
    }
}

/// Pruning a map with one more child under a new key prunes that child and
/// adds it unless it pruned to an empty branch.
pub proof fn lemma_prune_insert(m: Map<Seq<char>, Tree>, k: Seq<char>, t: Tree)
    requires
        m.dom().finite(),
        !m.contains_key(k),
    ensures
        prune_map(m.insert(k, t)) == if prune_tree(t) == Tree::Branch(Map::empty()) {
            prune_map(m)
        } else {
            prune_map(m).insert(k, prune_tree(t))
        },
{
    let m2 = m.insert(k, t);
    assert(m2.dom().finite());
    if prune_tree(t) == Tree::Branch(Map::empty()) {
        assert(prune_map(m2) =~= prune_map(m));
    } else {
        assert(prune_map(m2) =~= prune_map(m).insert(k, prune_tree(t)));
    }
}

/// No key occurs twice.
pub open spec fn keys_unique(keys: Seq<String>) -> bool {
    forall|i: int, j: int|
        0 <= i < keys.len() && 0 <= j < keys.len() && i != j ==> keys[i]@ != keys[j]@
}

/// With unique keys, the map holds exactly the keys, each with the view of its node.
proof fn lemma_entries_view(keys: Seq<String>, nodes: Seq<Node>)
    requires
        keys_unique(keys),
        keys.len() == nodes.len(),
    ensures
        forall|k: Seq<char>| #[trigger]
            entries_view(keys, nodes).contains_key(k) <==> exists|i: int|
                0 <= i < keys.len() && keys[i]@ == k,
        forall|i: int|
            0 <= i < keys.len() ==> #[trigger] entries_view(keys, nodes)[keys[i]@]
                == nodes[i].view(),
        entries_view(keys, nodes).dom().finite(),
        entries_view(keys, nodes).len() == keys.len(),
    decreases nodes.len(),
{
    if nodes.len() > 0 {
        let n = nodes.len() - 1;
        let pk = keys.subrange(0, n);
        let pn = nodes.subrange(0, n);
        assert(keys_unique(pk)) by {
            assert forall|a: int, b: int|
                0 <= a < pk.len() && 0 <= b < pk.len() && a != b implies pk[a]@ != pk[b]@ by {
                assert(pk[a] == keys[a] && pk[b] == keys[b]);
            }
        }
        lemma_entries_view(pk, pn);
        let m = entries_view(keys, nodes);
        assert forall|k: Seq<char>| #[trigger]
            m.contains_key(k) <==> exists|i: int| 0 <= i < keys.len() && keys[i]@ == k by {
            if m.contains_key(k) && k != keys[n]@ {
                assert(entries_view(pk, pn).contains_key(k));
                let i = choose|i: int| 0 <= i < pk.len() && pk[i]@ == k;
                assert(keys[i]@ == k);
            }
            if exists|i: int| 0 <= i < keys.len() && keys[i]@ == k {
                let i = choose|i: int| 0 <= i < keys.len() && keys[i]@ == k;
                if i < n {
                    assert(pk[i]@ == k);
                }
            }
        }
        assert forall|i: int| 0 <= i < keys.len() implies #[trigger] m[keys[i]@]
            == nodes[i].view() by {
            if i < n {
                assert(pk[i] == keys[i]);
                assert(pn[i] == nodes[i]);
                assert(keys[i]@ != keys[n]@);
            }
        }
        assert(!entries_view(pk, pn).contains_key(keys[n]@)) by {
            if entries_view(pk, pn).contains_key(keys[n]@) {
                let i = choose|i: int| 0 <= i < pk.len() && pk[i]@ == keys[n]@;
                assert(keys[i] == pk[i]);
            }
        }
    }
}

/// Removing the entry at one index removes its key from the map.
proof fn lemma_entries_view_remove(keys: Seq<String>, nodes: Seq<Node>, i: int)
    requires
        keys_unique(keys),
        keys.len() == nodes.len(),
        0 <= i < keys.len(),
    ensures
        keys_unique(keys.remove(i)),
        entries_view(keys.remove(i), nodes.remove(i)) == entries_view(keys, nodes).remove(keys[i]@),
{
    let rk = keys.remove(i);
    let rn = nodes.remove(i);
    assert(keys_unique(rk)) by {
        assert forall|a: int, b: int|
            0 <= a < rk.len() && 0 <= b < rk.len() && a != b implies rk[a]@ != rk[b]@ by {
            let a2 = if a < i { a } else { a + 1 };
            let b2 = if b < i { b } else { b + 1 };
            assert(rk[a] == keys[a2] && rk[b] == keys[b2]);
        }
    }
    lemma_entries_view(keys, nodes);
    lemma_entries_view(rk, rn);
    let r = entries_view(rk, rn);
    let m = entries_view(keys, nodes).remove(keys[i]@);
    assert forall|k: Seq<char>| #[trigger] r.contains_key(k) <==> m.contains_key(k) by {
        if r.contains_key(k) {
            let j = choose|j: int| 0 <= j < rk.len() && rk[j]@ == k;
            let j2 = if j < i { j } else { j + 1 };
            assert(rk[j] == keys[j2]);
        }
        if m.contains_key(k) {
            let j = choose|j: int| 0 <= j < keys.len() && keys[j]@ == k;
            let j2 = if j < i { j } else { j - 1 };
            assert(rk[j2] == keys[j]);
        }
    }
    assert forall|k: Seq<char>| #[trigger] r.contains_key(k) implies r[k] == m[k] by {
        let j = choose|j: int| 0 <= j < rk.len() && rk[j]@ == k;
        let j2 = if j < i { j } else { j + 1 };
        assert(rk[j] == keys[j2] && rn[j] == nodes[j2]);
    }
    assert(r =~= m);
}

/// Replacing the node at one index replaces the subtree under its key.
proof fn lemma_entries_view_update(keys: Seq<String>, nodes: Seq<Node>, i: int, n: Node)
    requires
        keys_unique(keys),
        keys.len() == nodes.len(),
        0 <= i < keys.len(),
    ensures
        entries_view(keys, nodes.update(i, n)) == entries_view(keys, nodes).insert(
            keys[i]@,
            n.view(),
        ),
{
    let rn = nodes.update(i, n);
    lemma_entries_view(keys, nodes);
    lemma_entries_view(keys, rn);
    let r = entries_view(keys, rn);
    let m = entries_view(keys, nodes).insert(keys[i]@, n.view());
    assert forall|k: Seq<char>| #[trigger] r.contains_key(k) implies r[k] == m[k] by {
        let j = choose|j: int| 0 <= j < keys.len() && keys[j]@ == k;
        assert(rn[j] == if j == i { n } else { nodes[j] });
    }
    assert(r =~= m);
}

/// Appending an entry under a new key adds that key to the map.
proof fn lemma_entries_view_push(keys: Seq<String>, nodes: Seq<Node>, k: String, n: Node)
    requires
        keys_unique(keys),
        keys.len() == nodes.len(),
        !entries_view(keys, nodes).contains_key(k@),
    ensures
        keys_unique(keys.push(k)),
        entries_view(keys.push(k), nodes.push(n)) == entries_view(keys, nodes).insert(k@, n.view()),
{
    let rk = keys.push(k);
    let rn = nodes.push(n);
    lemma_entries_view(keys, nodes);
    assert(rk.subrange(0, keys.len() as int) =~= keys);
    assert(rn.subrange(0, nodes.len() as int) =~= nodes);
    assert(keys_unique(rk)) by {
        assert forall|a: int, b: int|
            0 <= a < rk.len() && 0 <= b < rk.len() && a != b implies rk[a]@ != rk[b]@ by {
            if a < keys.len() && b < keys.len() {
                assert(rk[a] == keys[a] && rk[b] == keys[b]);
            } else if a < keys.len() {
                assert(rk[a] == keys[a]);
            } else {
                assert(rk[b] == keys[b]);
            }
        }
    }
}

impl Node {
    /// A copy of this node.
    pub fn duplicate(&self) -> (r: Node)
        ensures
            r@ == self@,
        decreases self,
    {
        match self {
            Node::Leaf(e) => Node::Leaf(e.duplicate()),
            Node::Branch(m) => Node::Branch(m.duplicate()),
        }
    }

    /// Whether two nodes hold the same tree.
    pub fn same_as(&self, other: &Node) -> (r: bool)
        ensures
            r == (self@ == other@),
        decreases self,
    {
        match (self, other) {
            (Node::Leaf(a), Node::Leaf(b)) => a.same_as(b),
            (Node::Branch(a), Node::Branch(b)) => a.same_as(b),
            _ => false,
        }
    }

    /// The text shown for this node: the text of a leaf, or a marker for a
    /// branch.
    pub fn to_string(&self) -> (r: String)
        ensures
            match self {
                Node::Leaf(e) => r@ == e.to_string_spec(),
                Node::Branch(_) => r@ == "[Nested store]"@,
            },
    {
        match self {
            Node::Leaf(e) => e.to_string(),
            Node::Branch(_) => String::from_str("[Nested store]"),
        }
    }

    /// The child under `key` when this node is a branch.
    pub fn get(&self, key: &String) -> (r: Option<&Node>)
        ensures
            match r {
                Some(n) => match self@ {
                    Tree::Branch(m) => m.contains_key(key@) && n@ == m[key@],
                    Tree::Leaf(_) => false,
                },
                None => match self@ {
                    Tree::Branch(m) => !m.contains_key(key@),
                    Tree::Leaf(_) => true,
                },
            },
    {
        match self {
            Node::Branch(branch) => branch.get(key),
            Node::Leaf(_) => None,
        }
    }

    /// The child under `key` of this node, which must be a branch holding it.
    pub fn index(&self, key: &String) -> (r: &Node)
        requires
            self@ matches Tree::Branch(m) && m.contains_key(key@),
        ensures
            self@ matches Tree::Branch(m) && r@ == m[key@],
    {
        self.get(key).unwrap()
    }

    /// The child under `key` when this node is a branch, for in-place change.
    pub fn get_mut(&mut self, key: &String) -> (r: Option<&mut Node>)
        ensures
            match r {
                Some(n) => match old(self)@ {
                    Tree::Branch(m) => {
                        &&& m.contains_key(key@)
                        &&& n@ == m[key@]
                        &&& final(self)@ == Tree::Branch(m.insert(key@, final(n)@))
                    },
                    Tree::Leaf(_) => false,
                },
                None => {
                    &&& final(self)@ == old(self)@
                    &&& match old(self)@ {
                        Tree::Branch(m) => !m.contains_key(key@),
                        Tree::Leaf(_) => true,
                    }
                },
            },
    {
        match self {
            Node::Branch(branch) => branch.get_mut(key),
            Node::Leaf(_) => None,
        }
    }

    /// A copy of this node without empty branches below it.
    pub fn without_empty_branches(&self) -> (r: Node)
        ensures
            r@ == prune_tree(self@),
        decreases self,
    {
        match self {
            Node::Leaf(e) => Node::Leaf(e.duplicate()),
            Node::Branch(m) => Node::Branch(m.without_empty_branches()),
        }
    }

    /// The bytes of this node: a tag, then the entry or the map.
    pub open spec fn encoding(&self) -> Seq<u8>
        decreases self,
    {
        match self {
            Node::Leaf(e) => le_bytes(0, 4) + entry_encoding(e@),
            Node::Branch(m) => le_bytes(1, 4) + m.encoding(),
        }
    }

    /// Appends the bytes of this node.
    pub fn encode_into(&self, out: &mut Vec<u8>)
        ensures
            final(out)@ == old(out)@ + self.encoding(),
        decreases self,
    {
        let ghost start = out@;
        match self {
            Node::Leaf(e) => {
                write_uint(out, 0, 4);
                write_entry(out, e);
            },
            Node::Branch(m) => {
                write_uint(out, 1, 4);
                m.encode_into(out);
            },
        }
        assert(out@ =~= start + self.encoding());
    }

    /// The node at `pos` in `b`, and the position after it.
    pub fn decode(b: &[u8], pos: usize) -> (r: Option<(Node, usize)>)
        ensures
            match r {
                Some((n, p)) => parse_node(b@, pos as int) == Some((n@, p as int)),
                None => parse_node(b@, pos as int) is None,
            },
        decreases b@.len() - pos,
    {
        let (tag, p) = match read_uint(b, pos, 4) {
            Some(x) => x,
            None => return None,
        };
        if tag == 0 {
            match read_entry(b, p) {
                Some((e, q)) => Some((Node::Leaf(e), q)),
                None => None,
            }
        } else if tag == 1 {
            match NestedMap::decode(b, p) {
                Some((m, q)) => Some((Node::Branch(m), q)),
                None => None,
            }
        } else {
            None
        }
    }

    /// The tree this node holds.
    pub open spec fn view(&self) -> Tree
        decreases self,
    {
        match self {
            Node::Leaf(e) => Tree::Leaf(e.view()),
            Node::Branch(m) => Tree::Branch(m.view()),
        }
    }
}

impl NestedMap {
    /// The children of this map, each key with its tree.
    pub closed spec fn view(&self) -> Map<Seq<char>, Tree>
        decreases self,
    {
        entries_view(self.keys@, self.nodes@)
    }

    #[verifier::type_invariant]
    spec fn inv(self) -> bool {
        &&& keys_unique(self.keys@)
        &&& self.keys@.len() == self.nodes@.len()
    }

    /// Creates an empty map.
    pub fn new() -> (r: NestedMap)
        ensures
            r@ == Map::<Seq<char>, Tree>::empty(),
    {
        NestedMap { keys: Vec::new(), nodes: Vec::new() }
    }

    /// Sets `node` under `key`, returning the node that was there.
    pub fn insert(&mut self, key: String, node: Node) -> (r: Option<Node>)
        ensures
            final(self)@ == old(self)@.insert(key@, node@),
            match r {
                Some(prev) => old(self)@.contains_key(key@) && prev@ == old(self)@[key@],
                None => !old(self)@.contains_key(key@),
            },
    {
        proof {
            use_type_invariant(&*self);
            lemma_entries_view(self.keys@, self.nodes@);
        }
        match self.find(&key) {
            Some(i) => {
                proof {
                    lemma_entries_view_update(self.keys@, self.nodes@, i as int, node);
                }
                let mut node = node;
                let slot = &mut self.nodes[i];
                std::mem::swap(slot, &mut node);
                Some(node)
            },
            None => {
                proof {
                    lemma_entries_view_push(self.keys@, self.nodes@, key, node);
                }
                let (mut keys, mut nodes) = self.take_parts();
                keys.push(key);
                nodes.push(node);
                *self = NestedMap { keys, nodes };
                None
            },
        }
    }

    /// Removes the child under `key`, returning its stored key and node.
    pub fn remove_entry(&mut self, key: &String) -> (r: Option<(String, Node)>)
        ensures
            final(self)@ == old(self)@.remove(key@),
            match r {
                Some((k, n)) => {
                    &&& k@ == key@
                    &&& old(self)@.contains_key(key@)
                    &&& n@ == old(self)@[key@]
                },
                None => !old(self)@.contains_key(key@),
            },
    {
        proof {
            use_type_invariant(&*self);
            lemma_entries_view(self.keys@, self.nodes@);
        }
        match self.find(key) {
            Some(i) => {
                proof {
                    lemma_entries_view_remove(self.keys@, self.nodes@, i as int);
                }
                let (mut keys, mut nodes) = self.take_parts();
                let k = keys.remove(i);
                let n = nodes.remove(i);
                *self = NestedMap { keys, nodes };
                Some((k, n))
            },
            None => {
                assert(old(self)@.remove(key@) =~= old(self)@);
                None
            },
        }
    }

    /// Removes the child under `key`, returning its node.
    pub fn remove(&mut self, key: &String) -> (r: Option<Node>)
        ensures
            final(self)@ == old(self)@.remove(key@),
            match r {
                Some(n) => old(self)@.contains_key(key@) && n@ == old(self)@[key@],
                None => !old(self)@.contains_key(key@),
            },
    {
        match self.remove_entry(key) {
            Some((_, n)) => Some(n),
            None => None,
        }
    }

    /// The node at `path`; `None` when the path is empty, a segment is
    /// missing, or a segment before the last names a leaf.
    pub fn get_from(&self, path: &[String]) -> (r: Option<&Node>)
        ensures
            match r {
                Some(n) => tree_get(self@, segs(path@)) == Some(n@),
                None => tree_get(self@, segs(path@)) is None,
            },
    {
        assert(segs(path@).skip(0) =~= segs(path@));
        self.get_from_iter(path, 0)
    }

    /// [`Self::get_from`] on the segments of `path` from index `start` on.
    pub fn get_from_iter(&self, path: &[String], start: usize) -> (r: Option<&Node>)
        requires
            start <= path@.len(),
        ensures
            match r {
                Some(n) => tree_get(self@, segs(path@).skip(start as int)) == Some(n@),
                None => tree_get(self@, segs(path@).skip(start as int)) is None,
            },
        decreases path@.len() - start,
    {
        let ghost p = segs(path@).skip(start as int);
        if start >= path.len() {
            return None;
        }
        assert(p.drop_first() =~= segs(path@).skip(start + 1));
        match self.get(&path[start]) {
            None => None,
            Some(node) => {
                if start + 1 == path.len() {
                    Some(node)
                } else {
                    match node {
                        Node::Branch(branch) => branch.get_from_iter(path, start + 1),
                        Node::Leaf(_) => None,
                    }
                }
            },
        }
    }

    /// Whether `path` addresses a node.
    pub fn contains_path(&self, path: &[String]) -> (r: bool)
        ensures
            r == tree_contains(self@, segs(path@)),
    {
        self.get_from(path).is_some()
    }

    /// [`Self::contains_path`] on the segments of `path` from index `start` on.
    pub fn contains_path_iter(&self, path: &[String], start: usize) -> (r: bool)
        requires
            start <= path@.len(),
        ensures
            r == tree_contains(self@, segs(path@).skip(start as int)),
    {
        self.get_from_iter(path, start).is_some()
    }

    /// The node at `path`, for in-place change; fails as [`Self::get_from`] does.
    pub fn get_mut_from(&mut self, path: &[String]) -> (r: Option<&mut Node>)
        ensures
            match r {
                Some(n) => {
                    &&& tree_get(old(self)@, segs(path@)) == Some(n@)
                    &&& final(self)@ == tree_insert(old(self)@, segs(path@), final(n)@)
                },
                None => tree_get(old(self)@, segs(path@)) is None && final(self)@ == old(self)@,
            },
    {
        assert(segs(path@).skip(0) =~= segs(path@));
        self.get_mut_from_iter(path, 0)
    }

    /// [`Self::get_mut_from`] on the segments of `path` from index `start` on.
    pub fn get_mut_from_iter(&mut self, path: &[String], start: usize) -> (r: Option<&mut Node>)
        requires
            start <= path@.len(),
        ensures
            match r {
                Some(n) => {
                    &&& tree_get(old(self)@, segs(path@).skip(start as int)) == Some(n@)
                    &&& final(self)@ == tree_insert(
                        old(self)@,
                        segs(path@).skip(start as int),
                        final(n)@,
                    )
                },
                None => {
                    &&& tree_get(old(self)@, segs(path@).skip(start as int)) is None
                    &&& final(self)@ == old(self)@
                },
            },
        decreases path@.len() - start,
    {
        let ghost p = segs(path@).skip(start as int);
        if start >= path.len() {
            return None;
        }
        assert(p.drop_first() =~= segs(path@).skip(start + 1));
        match self.get_mut(&path[start]) {
            None => None,
            Some(node) => {
                if start + 1 == path.len() {
                    Some(node)
                } else {
                    match node {
                        Node::Branch(branch) => branch.get_mut_from_iter(path, start + 1),
                        Node::Leaf(_) => {
                            assert(old(self)@.insert(p[0], old(self)@[p[0]]) =~= old(self)@);
                            None
                        },
                    }
                }
            },
        }
    }

    /// Removes the node at `path` from its parent map and returns it;
    /// ancestors that become empty stay. Fails as [`Self::get_from`] does.
    pub fn remove_from(&mut self, path: &[String]) -> (r: Option<Node>)
        ensures
            match r {
                Some(n) => {
                    &&& tree_get(old(self)@, segs(path@)) == Some(n@)
                    &&& final(self)@ == tree_remove(old(self)@, segs(path@))
                },
                None => tree_get(old(self)@, segs(path@)) is None && final(self)@ == old(self)@,
            },
    {
        assert(segs(path@).skip(0) =~= segs(path@));
        self.remove_from_iter(path, 0)
    }

    /// [`Self::remove_from`] on the segments of `path` from index `start` on.
    pub fn remove_from_iter(&mut self, path: &[String], start: usize) -> (r: Option<Node>)
        requires
            start <= path@.len(),
        ensures
            match r {
                Some(n) => {
                    &&& tree_get(old(self)@, segs(path@).skip(start as int)) == Some(n@)
                    &&& final(self)@ == tree_remove(old(self)@, segs(path@).skip(start as int))
                },
                None => {
                    &&& tree_get(old(self)@, segs(path@).skip(start as int)) is None
                    &&& final(self)@ == old(self)@
                },
            },
    {
        match self.remove_entry_from_iter(path, start) {
            Some((_, n)) => Some(n),
            None => None,
        }
    }

    /// [`Self::remove_from`], also returning the stored key of the removed node.
    pub fn remove_entry_from(&mut self, path: &[String]) -> (r: Option<(String, Node)>)
        ensures
            match r {
                Some((k, n)) => {
                    &&& k@ == path@.last()@
                    &&& tree_get(old(self)@, segs(path@)) == Some(n@)
                    &&& final(self)@ == tree_remove(old(self)@, segs(path@))
                },
                None => tree_get(old(self)@, segs(path@)) is None && final(self)@ == old(self)@,
            },
    {
        assert(segs(path@).skip(0) =~= segs(path@));
        self.remove_entry_from_iter(path, 0)
    }

    /// [`Self::remove_entry_from`] on the segments of `path` from index `start` on.
    pub fn remove_entry_from_iter(&mut self, path: &[String], start: usize) -> (r: Option<
        (String, Node),
    >)
        requires
            start <= path@.len(),
        ensures
            match r {
                Some((k, n)) => {
                    &&& k@ == path@.last()@
                    &&& tree_get(old(self)@, segs(path@).skip(start as int)) == Some(n@)
                    &&& final(self)@ == tree_remove(old(self)@, segs(path@).skip(start as int))
                },
                None => {
                    &&& tree_get(old(self)@, segs(path@).skip(start as int)) is None
                    &&& final(self)@ == old(self)@
                },
            },
        decreases path@.len() - start,
    {
        let ghost p = segs(path@).skip(start as int);
        if start >= path.len() {
            return None;
        }
        assert(p.drop_first() =~= segs(path@).skip(start + 1));
        if start + 1 == path.len() {
            return self.remove_entry(&path[start]);
        }
        match self.get_mut(&path[start]) {
            None => None,
            Some(node) => match node {
                Node::Branch(branch) => branch.remove_entry_from_iter(path, start + 1),
                Node::Leaf(_) => {
                    assert(old(self)@.insert(p[0], old(self)@[p[0]]) =~= old(self)@);
                    None
                },
            },
        }
    }

    /// Sets `node` at `path`, making an empty branch of each missing segment
    /// before the last, and returns the node that was there. Gives `node` back
    /// unchanged when the path is empty or a segment before the last names a leaf.
    pub fn insert_into(&mut self, path: &[String], node: Node) -> (r: Result<Option<Node>, Node>)
        ensures
            match r {
                Ok(prev) => {
                    &&& tree_insertable(old(self)@, segs(path@))
                    &&& final(self)@ == tree_insert(old(self)@, segs(path@), node@)
                    &&& match prev {
                        Some(n) => tree_get(old(self)@, segs(path@)) == Some(n@),
                        None => tree_get(old(self)@, segs(path@)) is None,
                    }
                },
                Err(back) => {
                    &&& !tree_insertable(old(self)@, segs(path@))
                    &&& back@ == node@
                    &&& final(self)@ == old(self)@
                },
            },
    {
        assert(segs(path@).skip(0) =~= segs(path@));
        self.insert_into_iter(path, 0, node)
    }

    /// [`Self::insert_into`] on the segments of `path` from index `start` on.
    pub fn insert_into_iter(&mut self, path: &[String], start: usize, node: Node) -> (r: Result<
        Option<Node>,
        Node,
    >)
        requires
            start <= path@.len(),
        ensures
            match r {
                Ok(prev) => {
                    &&& tree_insertable(old(self)@, segs(path@).skip(start as int))
                    &&& final(self)@ == tree_insert(
                        old(self)@,
                        segs(path@).skip(start as int),
                        node@,
                    )
                    &&& match prev {
                        Some(n) => tree_get(old(self)@, segs(path@).skip(start as int)) == Some(n@),
                        None => tree_get(old(self)@, segs(path@).skip(start as int)) is None,
                    }
                },
                Err(back) => {
                    &&& !tree_insertable(old(self)@, segs(path@).skip(start as int))
                    &&& back@ == node@
                    &&& final(self)@ == old(self)@
                },
            },
        decreases path@.len() - start,
    {
        let ghost p = segs(path@).skip(start as int);
        if start >= path.len() {
            return Err(node);
        }
        assert(p.drop_first() =~= segs(path@).skip(start + 1));
        let key = &path[start];
        if start + 1 == path.len() {
            return Ok(self.insert(key.clone(), node));
        }
        if !self.contains_key(key) {
            self.insert(key.clone(), Node::Branch(NestedMap::new()));
        }
        match self.get_mut(key) {
            Some(child) => match child {
                Node::Branch(branch) => {
                    let r = branch.insert_into_iter(path, start + 1, node);
                    proof {
                        if !old(self)@.contains_key(p[0]) {
                            assert(old(self)@.insert(p[0], Tree::Branch(Map::empty())).insert(
                                p[0],
                                (*final(child))@,
                            ) =~= old(self)@.insert(p[0], (*final(child))@));
                        }
                    }
                    r
                },
                Node::Leaf(_) => {
                    assert(old(self)@.insert(p[0], old(self)@[p[0]]) =~= old(self)@);
                    Err(node)
                },
            },
            None => Err(node),
        }
    }

    /// Moves the keys and nodes out, leaving the map empty.
    fn take_parts(&mut self) -> (r: (Vec<String>, Vec<Node>))
        ensures
            r.0@ == old(self).keys@,
            r.1@ == old(self).nodes@,
            keys_unique(r.0@),
            r.0@.len() == r.1@.len(),
            final(self)@ == Map::<Seq<char>, Tree>::empty(),
    {
        proof {
            use_type_invariant(&*self);
        }
        let mut taken = NestedMap::new();
        std::mem::swap(self, &mut taken);
        let NestedMap { keys, nodes } = taken;
        (keys, nodes)
    }

    /// Index of the entry with the given key, if any.
    fn find(&self, key: &String) -> (r: Option<usize>)
        ensures
            match r {
                Some(i) => i < self.keys@.len() && self.keys@[i as int]@ == key@,
                None => forall|i: int| 0 <= i < self.keys@.len() ==> self.keys@[i]@ != key@,
            },
    {
        let mut i: usize = 0;
        while i < self.keys.len()
            invariant
                i <= self.keys@.len(),
                forall|j: int| 0 <= j < i ==> self.keys@[j]@ != key@,
            decreases self.keys@.len() - i,
        {
            if self.keys[i] == *key {
                return Some(i);
            }
            i = i + 1;
        }
        None
    }

    /// The bytes of this map: the number of children, then each key and node.
    pub closed spec fn encoding(&self) -> Seq<u8>
        decreases self,
    {
        if self.keys@.len() == self.nodes@.len() {
            le_bytes(self.nodes@.len(), 8) + entries_encoding(self.keys@, self.nodes@)
        } else {
            le_bytes(0, 8)
        }
    }

    /// Appends the bytes of this map.
    pub fn encode_into(&self, out: &mut Vec<u8>)
        ensures
            final(out)@ == old(out)@ + self.encoding(),
        decreases self,
    {
        proof {
            use_type_invariant(self);
        }
        let ghost start = out@;
        write_uint(out, self.keys.len() as u64, 8);
        let ghost head = out@;
        assert(self.keys@.subrange(0, self.keys@.len() as int) =~= self.keys@);
        assert(self.nodes@.subrange(0, self.nodes@.len() as int) =~= self.nodes@);
        let mut i: usize = 0;
        while i < self.keys.len()
            invariant
                i <= self.keys@.len(),
                self.keys@.len() == self.nodes@.len(),
                head == start + le_bytes(self.nodes@.len(), 8),
                out@ + entries_encoding(
                    self.keys@.subrange(i as int, self.keys@.len() as int),
                    self.nodes@.subrange(i as int, self.nodes@.len() as int),
                ) == head + entries_encoding(self.keys@, self.nodes@),
            decreases self.keys@.len() - i,
        {
            let ghost ks = self.keys@.subrange(i as int, self.keys@.len() as int);
            let ghost ns = self.nodes@.subrange(i as int, self.nodes@.len() as int);
            assert(ks.subrange(1, ks.len() as int) =~= self.keys@.subrange(i + 1, self.keys@.len() as int));
            assert(ns.subrange(1, ns.len() as int) =~= self.nodes@.subrange(i + 1, self.nodes@.len() as int));
            assert(ks[0] == self.keys@[i as int] && ns[0] == self.nodes@[i as int]);
            let ghost before = out@;
            assert(decreases_to!(self => self.nodes@[i as int]));
            write_text(out, &self.keys[i]);
            self.nodes[i].encode_into(out);
            assert(out@ + entries_encoding(
                self.keys@.subrange(i + 1, self.keys@.len() as int),
                self.nodes@.subrange(i + 1, self.nodes@.len() as int),
            ) =~= before + entries_encoding(ks, ns));
            i = i + 1;
        }
        assert(entries_encoding(
            self.keys@.subrange(i as int, self.keys@.len() as int),
            self.nodes@.subrange(i as int, self.nodes@.len() as int),
        ) =~= Seq::<u8>::empty());
        assert(out@ =~= start + self.encoding());
    }

    /// The bytes of this map.
    pub fn encode(&self) -> (r: Vec<u8>)
        ensures
            r@ == self.encoding(),
    {
        let mut out: Vec<u8> = Vec::new();
        self.encode_into(&mut out);
        assert(out@ =~= self.encoding());
        out
    }

    /// The map at `pos` in `b`, and the position after it.
    pub fn decode(b: &[u8], pos: usize) -> (r: Option<(NestedMap, usize)>)
        ensures
            match r {
                Some((m, p)) => parse_map(b@, pos as int) == Some((m@, p as int)),
                None => parse_map(b@, pos as int) is None,
            },
        decreases b@.len() - pos,
    {
        let (count, p) = match read_uint(b, pos, 8) {
            Some(x) => x,
            None => return None,
        };
        let mut map = NestedMap::new();
        let mut cur: usize = p;
        let mut left: u64 = count;
        while left > 0
            invariant
                parse_map(b@, pos as int) == parse_children(b@, cur as int, left as nat, map@),
                pos < cur <= b@.len(),
            decreases left,
        {
            let (key, q1) = match read_text(b, cur) {
                Some(x) => x,
                None => return None,
            };
            let (node, q2) = match Node::decode(b, q1) {
                Some(x) => x,
                None => return None,
            };
            if !(cur < q2 && q2 <= b.len()) {
                return None;
            }
            map.insert(key, node);
            cur = q2;
            left = left - 1;
        }
        Some((map, cur))
    }

    /// The tree that `b` holds, when `b` holds exactly one map.
    pub fn decode_all(b: &[u8]) -> (r: Option<NestedMap>)
        ensures
            match r {
                Some(m) => parse_tree(b@) == Some(m@),
                None => parse_tree(b@) is None,
            },
    {
        match NestedMap::decode(b, 0) {
            Some((m, p)) => if p == b.len() {
                Some(m)
            } else {
                None
            },
            None => None,
        }
    }

    /// A copy of this map without empty branches at any depth.
    pub fn without_empty_branches(&self) -> (r: NestedMap)
        ensures
            r@ == prune_map(self@),
        decreases self,
    {
        proof {
            use_type_invariant(self);
        }
        let mut out = NestedMap::new();
        let mut i: usize = 0;
        assert(self.keys@.subrange(0, 0) =~= Seq::<String>::empty());
        assert(prune_map(Map::<Seq<char>, Tree>::empty()) =~= Map::<Seq<char>, Tree>::empty());
        while i < self.keys.len()
            invariant
                i <= self.keys@.len(),
                self.keys@.len() == self.nodes@.len(),
                keys_unique(self.keys@),
                out@ == prune_map(
                    entries_view(self.keys@.subrange(0, i as int), self.nodes@.subrange(0, i as int)),
                ),
            decreases self.keys@.len() - i,
        {
            proof {
                lemma_entries_view_prefix(self.keys@, self.nodes@, i as int);
            }
            let ghost before = entries_view(
                self.keys@.subrange(0, i as int),
                self.nodes@.subrange(0, i as int),
            );
            assert(decreases_to!(self => self.nodes@[i as int]));
            let p = self.nodes[i].without_empty_branches();
            let empty = match &p {
                Node::Branch(b) => b.is_empty(),
                Node::Leaf(_) => false,
            };
            proof {
                lemma_prune_insert(before, self.keys@[i as int]@, self.nodes@[i as int].view());
            }
            if !empty {
                out.insert(self.keys[i].clone(), p);
            }
            i = i + 1;
        }
        assert(self.keys@.subrange(0, i as int) =~= self.keys@);
        assert(self.nodes@.subrange(0, i as int) =~= self.nodes@);
        out
    }

    /// A copy of this map.
    pub fn duplicate(&self) -> (r: NestedMap)
        ensures
            r@ == self@,
        decreases self,
    {
        proof {
            use_type_invariant(self);
        }
        let mut keys: Vec<String> = Vec::new();
        let mut nodes: Vec<Node> = Vec::new();
        let mut i: usize = 0;
        while i < self.keys.len()
            invariant
                i <= self.keys@.len(),
                self.keys@.len() == self.nodes@.len(),
                keys_unique(self.keys@),
                keys@ == self.keys@.subrange(0, i as int),
                nodes@.len() == i,
                forall|j: int| 0 <= j < i ==> #[trigger] nodes@[j].view() == self.nodes@[j].view(),
            decreases self.keys@.len() - i,
        {
            assert(decreases_to!(self => self.nodes@[i as int]));
            keys.push(self.keys[i].clone());
            nodes.push(self.nodes[i].duplicate());
            assert(keys@ =~= self.keys@.subrange(0, i + 1));
            i = i + 1;
        }
        assert(keys@ =~= self.keys@);
        proof {
            lemma_entries_view(keys@, nodes@);
            lemma_entries_view(self.keys@, self.nodes@);
            assert(entries_view(keys@, nodes@) =~= entries_view(self.keys@, self.nodes@)) by {
                assert forall|k: Seq<char>| #[trigger]
                    entries_view(keys@, nodes@).contains_key(k) implies entries_view(keys@, nodes@)[k]
                    == entries_view(self.keys@, self.nodes@)[k] by {
                    let j = choose|j: int| 0 <= j < keys@.len() && keys@[j]@ == k;
                    assert(nodes@[j].view() == self.nodes@[j].view());
                }
            }
        }
        NestedMap { keys, nodes }
    }

    /// Whether two maps hold the same tree.
    pub fn same_as(&self, other: &NestedMap) -> (r: bool)
        ensures
            r == (self@ == other@),
        decreases self,
    {
        proof {
            use_type_invariant(self);
            use_type_invariant(other);
            lemma_entries_view(self.keys@, self.nodes@);
            lemma_entries_view(other.keys@, other.nodes@);
        }
        if self.keys.len() != other.keys.len() {
            return false;
        }
        let mut i: usize = 0;
        while i < self.keys.len()
            invariant
                i <= self.keys@.len(),
                self.keys@.len() == self.nodes@.len(),
                self@.len() == other@.len(),
                self@.len() == self.keys@.len(),
                forall|k: Seq<char>| #[trigger]
                    self@.contains_key(k) <==> exists|j: int|
                        0 <= j < self.keys@.len() && self.keys@[j]@ == k,
                forall|j: int|
                    0 <= j < self.keys@.len() ==> #[trigger] self@[self.keys@[j]@]
                        == self.nodes@[j].view(),
                forall|j: int|
                    0 <= j < i ==> #[trigger] other@.contains_key(self.keys@[j]@) && other@[self.keys@[j]@]
                        == self@[self.keys@[j]@],
            decreases self.keys@.len() - i,
        {
            assert(decreases_to!(self => self.nodes@[i as int]));
            match other.get(&self.keys[i]) {
                None => {
                    assert(self@.contains_key(self.keys@[i as int]@));
                    return false;
                },
                Some(n) => {
                    if !self.nodes[i].same_as(n) {
                        assert(self@[self.keys@[i as int]@] != other@[self.keys@[i as int]@]);
                        return false;
                    }
                    assert(self@[self.keys@[i as int]@] == self.nodes@[i as int].view());
                },
            }
            assert forall|j: int| 0 <= j < i + 1 implies #[trigger] other@.contains_key(
                self.keys@[j]@,
            ) && other@[self.keys@[j]@] == self@[self.keys@[j]@] by {
                if j == i {
                    assert(self@[self.keys@[j]@] == self.nodes@[j].view());
                }
            }
            i = i + 1;
        }
        proof {
            assert(self@.dom().subset_of(other@.dom())) by {
                assert forall|k: Seq<char>| self@.dom().contains(k) implies other@.dom().contains(k) by {
                    let j = choose|j: int| 0 <= j < self.keys@.len() && self.keys@[j]@ == k;
                    assert(other@.contains_key(self.keys@[j]@));
                }
            }
            vstd::set_lib::lemma_subset_equality(self@.dom(), other@.dom());
            assert forall|k: Seq<char>| #[trigger] self@.contains_key(k) implies self@[k] == other@[k] by {
                let j = choose|j: int| 0 <= j < self.keys@.len() && self.keys@[j]@ == k;
                assert(other@.contains_key(self.keys@[j]@));
            }
            assert(self@ =~= other@);
        }
        true
    }

    /// The keys of the direct children, each once, in no particular order.
    pub fn keys(&self) -> (r: Vec<String>)
        ensures
            r@.len() == self@.len(),
            keys_unique(r@),
            forall|i: int| 0 <= i < r@.len() ==> self@.contains_key(#[trigger] r@[i]@),
            forall|k: Seq<char>|
                self@.contains_key(k) ==> exists|i: int| 0 <= i < r@.len() && #[trigger] r@[i]@ == k,
    {
        proof {
            use_type_invariant(self);
            lemma_entries_view(self.keys@, self.nodes@);
        }
        let mut keys: Vec<String> = Vec::new();
        let mut i: usize = 0;
        while i < self.keys.len()
            invariant
                i <= self.keys@.len(),
                keys@ == self.keys@.subrange(0, i as int),
            decreases self.keys@.len() - i,
        {
            keys.push(self.keys[i].clone());
            assert(keys@ =~= self.keys@.subrange(0, i + 1));
            i = i + 1;
        }
        assert(keys@ =~= self.keys@);
        keys
    }

    /// The direct children with their keys, each once, in no particular order.
    pub fn iter(&self) -> (r: Vec<(&String, &Node)>)
        ensures
            r@.len() == self@.len(),
            forall|i: int, j: int|
                0 <= i < r@.len() && 0 <= j < r@.len() && i != j ==> r@[i].0@ != r@[j].0@,
            forall|i: int|
                0 <= i < r@.len() ==> self@.contains_key(#[trigger] r@[i].0@) && self@[r@[i].0@]
                    == r@[i].1@,
            forall|k: Seq<char>|
                self@.contains_key(k) ==> exists|i: int| 0 <= i < r@.len() && #[trigger] r@[i].0@ == k,
    {
        proof {
            use_type_invariant(self);
            lemma_entries_view(self.keys@, self.nodes@);
        }
        let mut out: Vec<(&String, &Node)> = Vec::new();
        let mut i: usize = 0;
        while i < self.keys.len()
            invariant
                i <= self.keys@.len(),
                self.keys@.len() == self.nodes@.len(),
                out@.len() == i,
                forall|j: int| 0 <= j < i ==> (#[trigger] out@[j]).0 == self.keys@[j] && out@[j].1
                    == self.nodes@[j],
            decreases self.keys@.len() - i,
        {
            out.push((&self.keys[i], &self.nodes[i]));
            i = i + 1;
        }
        proof {
            assert forall|k: Seq<char>| self@.contains_key(k) implies exists|i: int|
                0 <= i < out@.len() && #[trigger] out@[i].0@ == k by {
                let j = choose|j: int| 0 <= j < self.keys@.len() && self.keys@[j]@ == k;
                assert(out@[j].0@ == k);
            }
        }
        out
    }

    /// Number of direct children.
    pub fn len(&self) -> (r: usize)
        ensures
            r == self@.len(),
            self@.dom().finite(),
    {
        proof {
            use_type_invariant(self);
            lemma_entries_view(self.keys@, self.nodes@);
        }
        self.keys.len()
    }

    /// Whether the map has no children.
    pub fn is_empty(&self) -> (r: bool)
        ensures
            r == (self@ == Map::<Seq<char>, Tree>::empty()),
    {
        proof {
            use_type_invariant(self);
            lemma_entries_view(self.keys@, self.nodes@);
            if self.keys@.len() > 0 {
                assert(self@.contains_key(self.keys@[0]@));
            }
        }
        self.keys.len() == 0
    }

    /// Whether the key has a direct child.
    pub fn contains_key(&self, key: &String) -> (r: bool)
        ensures
            r == self@.contains_key(key@),
    {
        proof {
            use_type_invariant(self);
            lemma_entries_view(self.keys@, self.nodes@);
        }
        self.find(key).is_some()
    }

    /// The direct child under `key`.
    pub fn get(&self, key: &String) -> (r: Option<&Node>)
        ensures
            match r {
                Some(n) => self@.contains_key(key@) && n@ == self@[key@],
                None => !self@.contains_key(key@),
            },
    {
        proof {
            use_type_invariant(self);
            lemma_entries_view(self.keys@, self.nodes@);
        }
        match self.find(key) {
            Some(i) => Some(&self.nodes[i]),
            None => None,
        }
    }

    /// The direct child under `key`, which must be present.
    pub fn index(&self, key: &String) -> (r: &Node)
        requires
            self@.contains_key(key@),
        ensures
            r@ == self@[key@],
    {
        self.get(key).unwrap()
    }

    /// The direct child under `key`, for in-place change.
    pub fn get_mut(&mut self, key: &String) -> (r: Option<&mut Node>)
        ensures
            match r {
                Some(n) => {
                    &&& old(self)@.contains_key(key@)
                    &&& n@ == old(self)@[key@]
                    &&& final(self)@ == old(self)@.insert(key@, final(n)@)
                },
                None => !old(self)@.contains_key(key@) && final(self)@ == old(self)@,
            },
    {
        proof {
            use_type_invariant(&*self);
            lemma_entries_view(self.keys@, self.nodes@);
        }
        match self.find(key) {
            Some(i) => {
                let node = &mut self.nodes[i];
                proof {
                    lemma_entries_view_update(old(self).keys@, old(self).nodes@, i as int, *final(node));
                }
                Some(node)
            },
            None => None,
        }
    }
}

impl Clone for Node {
    fn clone(&self) -> (r: Node)
        ensures
            r@ == self@,
    {
        self.duplicate()
    }
}

impl Clone for NestedMap {
    fn clone(&self) -> (r: NestedMap)
        ensures
            r@ == self@,
    {
        self.duplicate()
    }
}

impl PartialEq for Node {
    fn eq(&self, other: &Node) -> (r: bool) {
        self.same_as(other)
    }
}

impl vstd::std_specs::cmp::PartialEqSpecImpl for Node {
    open spec fn obeys_eq_spec() -> bool {
        true
    }

    open spec fn eq_spec(&self, other: &Node) -> bool {
        self@ == other@
    }
}

impl Eq for Node {
}

impl PartialEq for NestedMap {
    fn eq(&self, other: &NestedMap) -> (r: bool) {
        self.same_as(other)
    }
}

impl vstd::std_specs::cmp::PartialEqSpecImpl for NestedMap {
    open spec fn obeys_eq_spec() -> bool {
        true
    }

    open spec fn eq_spec(&self, other: &NestedMap) -> bool {
        self@ == other@
    }
}

impl Eq for NestedMap {
}

} // verus!
