//! A secret store: create, read, update and delete by path, with conflict
//! and not-found errors and pruning of emptied branches.
use vstd::prelude::*;

use crate::codec::parse_tree;
use crate::crypter::{deflate_of, key_of, sealed, CryptoError, Crypter, PLAINTEXT_MAX};
use crate::nested_map::{
    segs, tree_contains, tree_get, tree_insert, NestedMap, Node, Tree,
};

verus! {

/// Why a store operation failed.
#[derive(Debug, Clone, Copy, PartialEq, Eq, Structural)]
pub enum StoreError {
    /// The path has no segments
    EmptyPath,
    /// Nothing is stored at the path
    NotFound,
    /// Something is already stored at the path, or a segment before the last
    /// holds a leaf
    Conflict,
    /// The secret is a branch without children
    EmptySecret,
}

/// Whether `t` is a branch without children.
pub open spec fn is_empty_branch(t: Tree) -> bool {
    match t {
        Tree::Branch(m) => m == Map::<Seq<char>, Tree>::empty(),
        Tree::Leaf(_) => false,
    }
}

/// Whether `path` leads to a missing key before it meets a leaf or ends, so
/// that a new subtree can be created there.
pub open spec fn is_new(m: Map<Seq<char>, Tree>, path: Seq<Seq<char>>) -> bool
    decreases path.len(),
{
    if path.len() == 0 {
        false
    } else if !m.contains_key(path[0]) {
        true
    } else {
        match m[path[0]] {
            Tree::Branch(b) => is_new(b, path.drop_first()),
            Tree::Leaf(_) => false,
        }
    }
}

/// `m` without the subtree at `path`, where each ancestor branch that is left
/// without children is removed too, up to the top level.
pub open spec fn tree_delete(m: Map<Seq<char>, Tree>, path: Seq<Seq<char>>) -> Map<Seq<char>, Tree>
    decreases path.len(),
{
    if path.len() == 0 || !m.contains_key(path[0]) {
        m
    } else if path.len() == 1 {
        m.remove(path[0])
    } else {
        match m[path[0]] {
            Tree::Branch(b) => {
                let nb = tree_delete(b, path.drop_first());
                if nb == Map::<Seq<char>, Tree>::empty() {
                    m.remove(path[0])
                } else {
                    m.insert(path[0], Tree::Branch(nb))
                }
            },
            Tree::Leaf(_) => m,
        }
    }
}

/// The tree and the result after creating `t` at `path` in `m`.
pub open spec fn create_outcome(m: Map<Seq<char>, Tree>, path: Seq<Seq<char>>, t: Tree) -> (
    Map<Seq<char>, Tree>,
    Result<(), StoreError>,
) {
    if path.len() == 0 {
        (m, Err(StoreError::EmptyPath))
    } else if is_empty_branch(t) {
        (m, Err(StoreError::EmptySecret))
    } else if !is_new(m, path) {
        (m, Err(StoreError::Conflict))
    } else {
        (tree_insert(m, path, t), Ok(()))
    }
}

/// The result of reading `path` in `m`.
pub open spec fn read_outcome(m: Map<Seq<char>, Tree>, path: Seq<Seq<char>>) -> Result<
    Tree,
    StoreError,
> {
    if path.len() == 0 {
        Err(StoreError::EmptyPath)
    } else {
        match tree_get(m, path) {
            Some(t) => Ok(t),
            None => Err(StoreError::NotFound),
        }
    }
}

/// The tree and the result after deleting `path` in `m`.
pub open spec fn delete_outcome(m: Map<Seq<char>, Tree>, path: Seq<Seq<char>>) -> (
    Map<Seq<char>, Tree>,
    Result<(), StoreError>,
) {
    if path.len() == 0 {
        (m, Err(StoreError::EmptyPath))
    } else if !tree_contains(m, path) {
        (m, Err(StoreError::NotFound))
    } else {
        (tree_delete(m, path), Ok(()))
    }
}

/// The tree and the result after updating `path` in `m` to `t`; an empty
/// branch deletes.
pub open spec fn update_outcome(m: Map<Seq<char>, Tree>, path: Seq<Seq<char>>, t: Tree) -> (
    Map<Seq<char>, Tree>,
    Result<(), StoreError>,
) {
    if path.len() == 0 {
        (m, Err(StoreError::EmptyPath))
    } else if !tree_contains(m, path) {
        (m, Err(StoreError::NotFound))
    } else if is_empty_branch(t) {
        (tree_delete(m, path), Ok(()))
    } else {
        (tree_insert(m, path, t), Ok(()))
    }
}

/// A tree of secrets addressed by paths.
#[derive(Debug)]
pub struct Store {
    map: NestedMap,
}

impl Store {
    /// The top-level secrets, each name with its tree.
    pub closed spec fn view(&self) -> Map<Seq<char>, Tree> {
        self.map@
    }

    /// The bytes of the store's tree.
    pub closed spec fn encoding(&self) -> Seq<u8> {
        self.map.encoding()
    }

    /// The store's tree, compressed and sealed under the key of `passphrase`
    /// with a fresh nonce that leads the output.
    pub fn encrypt(&self, passphrase: &str) -> (r: Result<Vec<u8>, CryptoError>)
        ensures
            match r {
                Ok(data) => {
                    &&& sealed(key_of(passphrase@), data@, self.encoding())
                    &&& data@.len() == crate::crypter::NONCE_LEN + deflate_of(self.encoding()).len()
                        + crate::crypter::TAG_LEN
                    &&& self.encoding().len() <= usize::MAX
                },
                Err(e) => e == CryptoError::Crypto && deflate_of(self.encoding()).len()
                    > PLAINTEXT_MAX,
            },
    {
        Crypter::new(passphrase).encrypt(&self.map)
    }

    /// The store that `data` holds, when it was sealed under the key of
    /// `passphrase`.
    pub fn decrypt(data: &[u8], passphrase: &str) -> (r: Result<Store, CryptoError>)
        ensures
            data@.len() < crate::crypter::NONCE_LEN + crate::crypter::TAG_LEN ==> r == Err::<
                Store,
                CryptoError,
            >(CryptoError::Crypto),
            crate::crypter::decrypts_sealed(
                key_of(passphrase@),
                data@,
                match r {
                    Ok(s) => Ok(s@),
                    Err(e) => Err(e),
                },
            ),
            crate::crypter::decrypt_result(
                key_of(passphrase@),
                data@,
                match r {
                    Ok(s) => Ok(s@),
                    Err(e) => Err(e),
                },
            ),
    {
        match Crypter::new(passphrase).decrypt(data) {
            Ok(map) => Ok(Store { map }),
            Err(e) => Err(e),
        }
    }

    /// An empty store.
    pub fn new() -> (r: Store)
        ensures
            r@ == Map::<Seq<char>, Tree>::empty(),
    {
        Store { map: NestedMap::new() }
    }

    /// A store holding the given tree.
    pub fn from(map: NestedMap) -> (r: Store)
        ensures
            r@ == map@,
    {
        Store { map }
    }

    /// The tree of the store.
    pub fn into_map(self) -> (r: NestedMap)
        ensures
            r@ == self@,
    {
        self.map
    }

    /// The tree of the store, borrowed.
    pub fn as_map(&self) -> (r: &NestedMap)
        ensures
            r@ == self@,
    {
        &self.map
    }

    /// The names of the top-level secrets, each once, in no particular order.
    pub fn secrets(&self) -> (r: Vec<String>)
        ensures
            r@.len() == self@.len(),
            crate::nested_map::keys_unique(r@),
            forall|i: int| 0 <= i < r@.len() ==> self@.contains_key(#[trigger] r@[i]@),
            forall|k: Seq<char>|
                self@.contains_key(k) ==> exists|i: int| 0 <= i < r@.len() && #[trigger] r@[i]@ == k,
    {
        self.map.keys()
    }

    /// The top-level secrets with their names, each once, in no particular order.
    pub fn iter(&self) -> (r: Vec<(&String, &Node)>)
        ensures
            r@.len() == self@.len(),
            forall|i: int, j: int|
                0 <= i < r@.len() && 0 <= j < r@.len() && i != j ==> r@[i].0@ != r@[j].0@,
            forall|i: int|
                0 <= i < r@.len() ==> self@.contains_key(#[trigger] r@[i].0@) && self@[r@[i].0@]
                    == r@[i].1@,
            forall|k: Seq<char>|
                self@.contains_key(k) ==> exists|i: int| 0 <= i < r@.len() && #[trigger] r@[i].0@ == k,
    {
        self.map.iter()
    }

    /// Whether `path` leads to a missing key before any leaf.
    fn is_new_entry(map: &NestedMap, path: &[String], start: usize) -> (r: bool)
        requires
            start <= path@.len(),
        ensures
            r == is_new(map@, segs(path@).skip(start as int)),
        decreases path@.len() - start,
    {
        let ghost p = segs(path@).skip(start as int);
        if start >= path.len() {
            return false;
        }
        assert(p.drop_first() =~= segs(path@).skip(start + 1));
        match map.get(&path[start]) {
            None => true,
            Some(Node::Leaf(_)) => false,
            Some(Node::Branch(branch)) => Self::is_new_entry(branch, path, start + 1),
        }
    }

    /// Stores `secret` at `path`, creating the missing branches on the way.
    pub fn create(&mut self, path: &[String], secret: Node) -> (r: Result<(), StoreError>)
        ensures
            (final(self)@, r) == create_outcome(old(self)@, segs(path@), secret@),
    {
        if path.len() == 0 {
            return Err(StoreError::EmptyPath);
        }
        if should_delete(&secret) {
            return Err(StoreError::EmptySecret);
        }
        assert(segs(path@).skip(0) =~= segs(path@));
        if !Self::is_new_entry(&self.map, path, 0) {
            return Err(StoreError::Conflict);
        }
        proof {
            lemma_new_is_insertable(self.map@, segs(path@));
        }
        match self.map.insert_into(path, secret) {
            Ok(_) => Ok(()),
            Err(_) => Err(StoreError::Conflict),
        }
    }

    /// The node at `path`.
    pub fn read(&self, path: &[String]) -> (r: Result<&Node, StoreError>)
        ensures
            match r {
                Ok(n) => read_outcome(self@, segs(path@)) == Ok::<Tree, StoreError>(n@),
                Err(e) => read_outcome(self@, segs(path@)) == Err::<Tree, StoreError>(e),
            },
    {
        if path.len() == 0 {
            return Err(StoreError::EmptyPath);
        }
        match self.map.get_from(path) {
            Some(n) => Ok(n),
            None => Err(StoreError::NotFound),
        }
    }

    /// The node at `path`, for in-place change.
    pub fn get(&mut self, path: &[String]) -> (r: Option<&mut Node>)
        ensures
            match r {
                Some(n) => {
                    &&& tree_get(old(self)@, segs(path@)) == Some(n@)
                    &&& final(self)@ == tree_insert(old(self)@, segs(path@), final(n)@)
                },
                None => tree_get(old(self)@, segs(path@)) is None && final(self)@ == old(self)@,
            },
    {
        self.map.get_mut_from(path)
    }

    /// Consumes the store and returns the node at `path`.
    pub fn take(self, path: &[String]) -> (r: Result<Node, StoreError>)
        ensures
            match r {
                Ok(n) => read_outcome(self@, segs(path@)) == Ok::<Tree, StoreError>(n@),
                Err(e) => read_outcome(self@, segs(path@)) == Err::<Tree, StoreError>(e),
            },
    {
        if path.len() == 0 {
            return Err(StoreError::EmptyPath);
        }
        let mut map = self.map;
        match map.remove_from(path) {
            Some(n) => Ok(n),
            None => Err(StoreError::NotFound),
        }
    }

    /// Replaces the node at `path`; an empty branch deletes it instead.
    pub fn update(&mut self, path: &[String], secret: Node) -> (r: Result<(), StoreError>)
        ensures
            (final(self)@, r) == update_outcome(old(self)@, segs(path@), secret@),
    {
        if path.len() == 0 {
            return Err(StoreError::EmptyPath);
        }
        if !self.map.contains_path(path) {
            return Err(StoreError::NotFound);
        }
        if should_delete(&secret) {
            return delete_path(&mut self.map, path);
        }
        proof {
            lemma_contains_is_insertable(self.map@, segs(path@));
        }
        match self.map.insert_into(path, secret) {
            Ok(_) => Ok(()),
            Err(_) => Err(StoreError::NotFound),
        }
    }

    /// Removes the node at `path` and every ancestor branch left empty.
    pub fn delete(&mut self, path: &[String]) -> (r: Result<(), StoreError>)
        ensures
            (final(self)@, r) == delete_outcome(old(self)@, segs(path@)),
    {
        if path.len() == 0 {
            return Err(StoreError::EmptyPath);
        }
        delete_path(&mut self.map, path)
    }
}

impl Clone for Store {
    fn clone(&self) -> (r: Store)
        ensures
            r@ == self@,
    {
        Store { map: self.map.duplicate() }
    }
}

impl PartialEq for Store {
    fn eq(&self, other: &Store) -> (r: bool) {
        self.map.same_as(&other.map)
    }
}

impl vstd::std_specs::cmp::PartialEqSpecImpl for Store {
    open spec fn obeys_eq_spec() -> bool {
        true
    }

    open spec fn eq_spec(&self, other: &Store) -> bool {
        self@ == other@
    }
}

impl Eq for Store {
}

/// Whether `secret` is a branch without children.
fn should_delete(secret: &Node) -> (r: bool)
    ensures
        r == is_empty_branch(secret@),
{
    match secret {
        Node::Branch(branch) => branch.is_empty(),
        Node::Leaf(_) => false,
    }
}

/// Deletes the node at a non-empty `path`, pruning emptied ancestors.
fn delete_path(map: &mut NestedMap, path: &[String]) -> (r: Result<(), StoreError>)
    requires
        path@.len() > 0,
    ensures
        (final(map)@, r) == delete_outcome(old(map)@, segs(path@)),
{
    assert(segs(path@).skip(0) =~= segs(path@));
    if prune_remove(map, path, 0) {
        Ok(())
    } else {
        Err(StoreError::NotFound)
    }
}

/// Removes the node at the segments of `path` from `start` on, and removes each
/// branch on the way that is left without children.
fn prune_remove(map: &mut NestedMap, path: &[String], start: usize) -> (found: bool)
    requires
        start < path@.len(),
    ensures
        found == tree_contains(old(map)@, segs(path@).skip(start as int)),
        found ==> final(map)@ == tree_delete(old(map)@, segs(path@).skip(start as int)),
        !found ==> final(map)@ == old(map)@,
    decreases path@.len() - start,
{
    let ghost p = segs(path@).skip(start as int);
    assert(p.drop_first() =~= segs(path@).skip(start + 1));
    if start == path.len() - 1 {
        return map.remove(&path[start]).is_some();
    }
    let key = &path[start];
    let (found, emptied) = match map.get_mut(key) {
        Some(Node::Branch(branch)) => {
            let found = prune_remove(branch, path, start + 1);
            (found, branch.is_empty())
        },
        Some(Node::Leaf(_)) => {
            assert(old(map)@.insert(p[0], old(map)@[p[0]]) =~= old(map)@);
            (false, false)
        },
        None => (false, false),
    };
    if found && emptied {
        map.remove(key);
    }
    proof {
        if !found {
            if old(map)@.contains_key(p[0]) {
                assert(old(map)@.insert(p[0], old(map)@[p[0]]) =~= old(map)@);
            }
        }
    }
    found
}

/// A path that leads to a missing key before any leaf admits an insertion.
proof fn lemma_new_is_insertable(m: Map<Seq<char>, Tree>, path: Seq<Seq<char>>)
    requires
        is_new(m, path),
    ensures
        crate::nested_map::tree_insertable(m, path),
    decreases path.len(),
{
    if path.len() > 1 && m.contains_key(path[0]) {
        if let Tree::Branch(b) = m[path[0]] {
            lemma_new_is_insertable(b, path.drop_first());
        }
    }
}

/// A path that addresses a node admits an insertion.
proof fn lemma_contains_is_insertable(m: Map<Seq<char>, Tree>, path: Seq<Seq<char>>)
    requires
        tree_contains(m, path),
    ensures
        crate::nested_map::tree_insertable(m, path),
    decreases path.len(),
{
    if path.len() > 1 {
        if let Tree::Branch(b) = m[path[0]] {
            lemma_contains_is_insertable(b, path.drop_first());
        }
    }
}

/// Once `create` has stored something at a path, a second `create` at the same
/// path with any secret but an empty branch (which fails with `EmptySecret`
/// first) fails with `Conflict` and leaves the tree as the first call left it.
pub proof fn lemma_create_then_conflict(
    m: Map<Seq<char>, Tree>,
    path: Seq<Seq<char>>,
    first: Tree,
    second: Tree,
)
    requires
        create_outcome(m, path, first).1 is Ok,
        !is_empty_branch(second),
    ensures
        create_outcome(create_outcome(m, path, first).0, path, second) == (
            create_outcome(m, path, first).0,
            Err::<(), StoreError>(StoreError::Conflict),
        ),
{
    lemma_inserted_is_not_new(m, path, first);
}

/// After a subtree is set at a path, the path is no longer new.
proof fn lemma_inserted_is_not_new(m: Map<Seq<char>, Tree>, path: Seq<Seq<char>>, t: Tree)
    requires
        is_new(m, path),
    ensures
        !is_new(tree_insert(m, path, t), path),
    decreases path.len(),
{
    let rest = path.drop_first();
    if path.len() == 1 {
        assert(!is_new(Map::<Seq<char>, Tree>::empty(), rest));
        if let Tree::Branch(b) = t {
            assert(!is_new(b, rest));
        }
    } else {
        if m.contains_key(path[0]) {
            if let Tree::Branch(b) = m[path[0]] {
                lemma_inserted_is_not_new(b, rest, t);
            }
        } else {
            assert(is_new(Map::<Seq<char>, Tree>::empty(), rest));
            lemma_inserted_is_not_new(Map::<Seq<char>, Tree>::empty(), rest, t);
        }
    }
}

/// Round trip: when `data` is what `encrypt` sealed from a store under a
/// passphrase, any result that `decrypt` may give for `data` under the same
/// passphrase is `Ok` with that store's tree.
pub proof fn lemma_encrypt_then_decrypt(
    store: Store,
    data: Seq<u8>,
    passphrase: Seq<char>,
    r: Result<Map<Seq<char>, Tree>, CryptoError>,
)
    requires
        sealed(key_of(passphrase), data, store.encoding()),
        store.encoding().len() <= usize::MAX,
        crate::crypter::decrypts_sealed(key_of(passphrase), data, r),
    ensures
        r == Ok::<Map<Seq<char>, Tree>, CryptoError>(store@),
{
    crate::nested_map::lemma_decode_encode(store.map);
}

/// Updating a path to an empty branch has the same result and leaves the same
/// tree as deleting it.
pub proof fn lemma_update_empty_is_delete(m: Map<Seq<char>, Tree>, path: Seq<Seq<char>>, t: Tree)
    requires
        is_empty_branch(t),
    ensures
        update_outcome(m, path, t) == delete_outcome(m, path),
{
}

/// Some segment of `path` before the last addresses a leaf.
pub open spec fn blocked_by_leaf(m: Map<Seq<char>, Tree>, path: Seq<Seq<char>>) -> bool {
    exists|i: int|
        0 <= i < path.len() - 1 && #[trigger] tree_get(m, path.take(i + 1)) matches Some(
            Tree::Leaf(_),
        )
}

/// Reading, updating or deleting a path whose first segment is missing, or
/// that runs through a leaf, fails with `NotFound` and leaves the tree as it is.
pub proof fn lemma_not_found(m: Map<Seq<char>, Tree>, path: Seq<Seq<char>>, t: Tree)
    requires
        path.len() > 0,
        !m.contains_key(path[0]) || blocked_by_leaf(m, path),
    ensures
        read_outcome(m, path) == Err::<Tree, StoreError>(StoreError::NotFound),
        update_outcome(m, path, t) == (m, Err::<(), StoreError>(StoreError::NotFound)),
        delete_outcome(m, path) == (m, Err::<(), StoreError>(StoreError::NotFound)),
{
    if m.contains_key(path[0]) {
        let i = choose|i: int|
            0 <= i < path.len() - 1 && #[trigger] tree_get(m, path.take(i + 1)) matches Some(
                Tree::Leaf(_),
            );
        lemma_leaf_prefix_blocks(m, path, i);
    }
}

/// A path that runs through a leaf addresses nothing.
proof fn lemma_leaf_prefix_blocks(m: Map<Seq<char>, Tree>, path: Seq<Seq<char>>, i: int)
    requires
        0 <= i < path.len() - 1,
        tree_get(m, path.take(i + 1)) matches Some(Tree::Leaf(_)),
    ensures
        tree_get(m, path) is None,
    decreases i,
{
    let q = path.take(i + 1);
    assert(q[0] == path[0]);
    if i > 0 {
        assert(q.drop_first() =~= path.drop_first().take(i));
        if let Tree::Branch(b) = m[path[0]] {
            lemma_leaf_prefix_blocks(b, path.drop_first(), i - 1);
        }
    }
}

broadcast use vstd::map::axiom_map_index_decreases_finite;

/// Every branch in `t` has at least one child, at every depth.
pub open spec fn tree_pruned(t: Tree) -> bool
    decreases t,
{
    match t {
        Tree::Leaf(_) => true,
        Tree::Branch(m) => m.dom().finite() && m.dom().len() > 0 && forall|k: Seq<char>|
            #[trigger] m.contains_key(k) ==> tree_pruned(m[k]),
    }
}

/// Every child of `m` is free of empty branches.
pub open spec fn map_pruned(m: Map<Seq<char>, Tree>) -> bool {
    m.dom().finite() && forall|k: Seq<char>| #[trigger] m.contains_key(k) ==> tree_pruned(m[k])
}

/// A finite map with a key has a non-zero size.
proof fn lemma_nonempty_len(m: Map<Seq<char>, Tree>, k: Seq<char>)
    requires
        m.dom().finite(),
        m.contains_key(k),
    ensures
        m.dom().len() > 0,
{
    if m.dom().len() == 0 {
        m.dom().lemma_len0_is_empty();
        assert(m.dom().contains(k));
    }
}

/// Deleting from a tree free of empty branches leaves it free of them.
proof fn lemma_delete_keeps_pruned(m: Map<Seq<char>, Tree>, path: Seq<Seq<char>>)
    requires
        map_pruned(m),
    ensures
        map_pruned(tree_delete(m, path)),
    decreases path.len(),
{
    if path.len() > 1 && m.contains_key(path[0]) {
        if let Tree::Branch(b) = m[path[0]] {
            assert(tree_pruned(m[path[0]]));
            lemma_delete_keeps_pruned(b, path.drop_first());
            let nb = tree_delete(b, path.drop_first());
            if nb != Map::<Seq<char>, Tree>::empty() {
                assert(nb.dom().len() > 0) by {
                    if nb.dom().len() == 0 {
                        nb.dom().lemma_len0_is_empty();
                        assert(nb =~= Map::<Seq<char>, Tree>::empty());
                    }
                }
                assert(tree_pruned(Tree::Branch(nb)));
            }
        }
    }
}

/// Setting a subtree free of empty branches, where the path admits it, keeps
/// a tree free of them.
proof fn lemma_insert_keeps_pruned(m: Map<Seq<char>, Tree>, path: Seq<Seq<char>>, t: Tree)
    requires
        map_pruned(m),
        tree_pruned(t),
        crate::nested_map::tree_insertable(m, path),
    ensures
        map_pruned(tree_insert(m, path, t)),
    decreases path.len(),
{
    if path.len() > 1 {
        let rest = path.drop_first();
        let child = if m.contains_key(path[0]) && m[path[0]] is Branch {
            m[path[0]]->Branch_0
        } else {
            Map::empty()
        };
        if m.contains_key(path[0]) {
            assert(tree_pruned(m[path[0]]));
        } else {
            assert(crate::nested_map::tree_insertable(Map::<Seq<char>, Tree>::empty(), rest));
        }
        lemma_insert_keeps_pruned(child, rest, t);
        let nc = tree_insert(child, rest, t);
        assert(nc.contains_key(rest[0]));
        lemma_nonempty_len(nc, rest[0]);
        assert(tree_pruned(Tree::Branch(nc)));
    }
}

/// `create`, `update` and `delete` keep a tree free of empty branches when the
/// secret they are given is free of them below its top (an empty branch as the
/// whole secret is refused or deletes).
pub proof fn lemma_ops_keep_pruned(m: Map<Seq<char>, Tree>, path: Seq<Seq<char>>, t: Tree)
    requires
        map_pruned(m),
        tree_pruned(t) || is_empty_branch(t),
    ensures
        map_pruned(create_outcome(m, path, t).0),
        map_pruned(update_outcome(m, path, t).0),
        map_pruned(delete_outcome(m, path).0),
{
    lemma_delete_keeps_pruned(m, path);
    if path.len() > 0 && !is_empty_branch(t) {
        if is_new(m, path) {
            lemma_new_is_insertable(m, path);
            lemma_insert_keeps_pruned(m, path, t);
        }
        if tree_contains(m, path) {
            lemma_contains_is_insertable(m, path);
            lemma_insert_keeps_pruned(m, path, t);
        }
    }
}

} // verus!
