use passify::entry::Entry;
use passify::nested_map::{NestedMap, Node};
use passify::store::{Store, StoreError};

fn own(s: &str) -> String {
    String::from(s)
}

fn leaf(s: &str) -> Node {
    Node::Leaf(Entry::String(own(s)))
}

fn binary(bytes: &[u8]) -> Node {
    Node::Leaf(Entry::Binary(bytes.to_vec()))
}

fn path(segments: &[&str]) -> Vec<String> {
    segments.iter().map(|s| own(s)).collect()
}

/// Builds a store holding each node at its path.
fn build(items: &[(&[&str], Node)]) -> Store {
    let mut store = Store::new();
    for (p, node) in items {
        store.create(&path(p), node.clone()).unwrap();
    }
    store
}

fn branch(items: &[(&[&str], Node)]) -> Node {
    Node::Branch(build(items).into_map())
}

/// The tree used by most tests:
/// binary, nested.inner.deep.foo, nested.sibling, sibling.
fn make_store() -> Store {
    build(&[
        (&["binary"], binary(&[245, 107, 95, 100])),
        (&["nested", "inner", "deep", "foo"], leaf("bar")),
        (&["nested", "sibling"], leaf("inner_sibling")),
        (&["sibling"], leaf("outer_sibling")),
    ])
}

fn setup() -> (Store, NestedMap) {
    let mut reference = NestedMap::new();
    reference.insert(own("existing"), leaf("existing_value"));
    (Store::from(reference.clone()), reference)
}

fn new_store() -> Store {
    build(&[
        (&["foo1"], leaf("bar1")),
        (&["foo2"], leaf("bar2")),
        (&["foo3"], leaf("bar3")),
    ])
}

#[test]
fn lib_create() {
    let (mut store, mut reference) = setup();

    assert_eq!(
        store
            .create(&path(&["existing"]), leaf("existing_new_value"))
            .unwrap_err(),
        StoreError::Conflict
    );
    assert_eq!(store.as_map(), &reference);

    assert!(store.create(&path(&["new"]), leaf("new_value")).is_ok());
    reference.insert(own("new"), leaf("new_value"));
    assert_eq!(store.as_map(), &reference);

    assert_eq!(
        store.create(&path(&["new"]), leaf("new_new_value")).unwrap_err(),
        StoreError::Conflict
    );
    assert_eq!(store.as_map(), &reference);
}

#[test]
fn lib_read() {
    let (store, reference) = setup();
    assert!(store.read(&path(&["new"])).is_err());
    assert_eq!(store.as_map(), &reference);
    assert_eq!(
        store.read(&path(&["existing"])).unwrap().to_string(),
        "existing_value"
    );
    assert_eq!(store.as_map(), &reference);
}

#[test]
fn get() {
    let (mut store, mut reference) = setup();
    assert!(store.get(&path(&["new"])).is_none());
    assert_eq!(store.as_map(), &reference);
    assert_eq!(
        store.get(&path(&["existing"])).unwrap().to_string(),
        "existing_value"
    );
    assert_eq!(store.as_map(), &reference);

    let entry = store.get(&path(&["existing"])).unwrap();
    *entry = leaf("new_value");
    reference.insert(own("existing"), leaf("new_value"));
    assert_eq!(store.as_map(), &reference);
}

#[test]
fn lib_update() {
    let (mut store, mut reference) = setup();

    assert_eq!(
        store.update(&path(&["new"]), leaf("new_value")).unwrap_err(),
        StoreError::NotFound
    );
    assert_eq!(store.as_map(), &reference);

    assert!(store.update(&path(&["existing"]), leaf("new_value")).is_ok());
    reference.insert(own("existing"), leaf("new_value"));
    assert_eq!(store.as_map(), &reference);
}

#[test]
fn lib_delete() {
    let (mut store, reference) = setup();

    assert_eq!(
        store.delete(&path(&["new"])).unwrap_err(),
        StoreError::NotFound
    );
    assert_eq!(store.as_map(), &reference);

    assert!(store.delete(&path(&["existing"])).is_ok());
    assert_eq!(store.as_map(), &NestedMap::new());
}

#[test]
fn lib_secrets() {
    let store = new_store();
    let mut list = store.secrets();
    list.sort();
    assert_eq!(list, ["foo1", "foo2", "foo3"]);
    assert_eq!(list.len(), 3);
    assert!(list.contains(&own("foo1")));
    assert!(list.contains(&own("foo2")));
    assert!(list.contains(&own("foo3")));
}

#[test]
fn iter() {
    let store = new_store();
    let mut list = store
        .iter()
        .into_iter()
        .map(|(k, v)| (k, v.to_string()))
        .collect::<Vec<_>>();
    list.sort();
    assert_eq!(
        list,
        [
            (&own("foo1"), own("bar1")),
            (&own("foo2"), own("bar2")),
            (&own("foo3"), own("bar3"))
        ]
    );
}

#[test]
fn ops_create() {
    let mut store = Store::new();

    store.create(&path(&["new"]), leaf("new_value")).unwrap();
    assert_eq!(store, build(&[(&["new"], leaf("new_value"))]));

    store.create(&path(&["foo"]), leaf("new_value")).unwrap();
    assert_eq!(
        store,
        build(&[(&["new"], leaf("new_value")), (&["foo"], leaf("new_value"))])
    );

    store.create(&path(&["nested", "inner", "foo"]), leaf("bar")).unwrap();
    assert_eq!(
        store,
        build(&[
            (&["new"], leaf("new_value")),
            (&["foo"], leaf("new_value")),
            (&["nested"], branch(&[(&["inner"], branch(&[(&["foo"], leaf("bar"))]))])),
        ])
    );

    store
        .create(&path(&["nested", "other", "foo", "deep", "deeper"]), leaf("here"))
        .unwrap();
    assert_eq!(
        store,
        build(&[
            (&["new"], leaf("new_value")),
            (&["foo"], leaf("new_value")),
            (&["nested", "inner", "foo"], leaf("bar")),
            (&["nested", "other", "foo", "deep", "deeper"], leaf("here")),
        ])
    );
}

#[test]
fn create_conflict() {
    let mut store = make_store();

    assert!(store.create(&path(&["binary"]), leaf("new_value")).is_err());
    assert!(store.create(&path(&["nested"]), leaf("new_value")).is_err());
    assert!(store.create(&path(&["nested", "sibling"]), leaf("new_value")).is_err());
    assert!(store
        .create(&path(&["nested", "sibling", "deep"]), leaf("new_value"))
        .is_err());
    assert_eq!(store, make_store());
}

#[test]
fn create_empty() {
    let mut store = make_store();
    assert!(store
        .create(&path(&["nested"]), Node::Branch(NestedMap::new()))
        .is_err());
    assert_eq!(
        store.create(&path(&["nested"]), Node::Branch(NestedMap::new())),
        Err(StoreError::EmptySecret)
    );
    assert_eq!(
        store.create(&path(&["fresh"]), Node::Branch(NestedMap::new())),
        Err(StoreError::EmptySecret)
    );
}

#[test]
fn ops_read() {
    let store = make_store();

    assert_eq!(
        store.read(&path(&["binary"])).unwrap(),
        &binary(&[245, 107, 95, 100])
    );

    assert_eq!(
        store.read(&path(&["nested"])).unwrap(),
        store.as_map().get(&own("nested")).unwrap()
    );

    assert_eq!(
        store.read(&path(&["nested", "inner"])).unwrap(),
        &branch(&[(&["deep", "foo"], leaf("bar"))])
    );

    assert_eq!(
        store.read(&path(&["nested", "inner", "deep"])).unwrap(),
        &branch(&[(&["foo"], leaf("bar"))])
    );

    assert_eq!(
        store.read(&path(&["nested", "inner", "deep", "foo"])).unwrap(),
        &leaf("bar")
    );

    assert_eq!(
        store.read(&path(&["nested", "sibling"])).unwrap(),
        &leaf("inner_sibling")
    );

    assert_eq!(
        store.read(&path(&["binary"])).unwrap(),
        &binary(&[245, 107, 95, 100])
    );

    assert_eq!(
        store.read(&path(&["sibling"])).unwrap(),
        &leaf("outer_sibling")
    );
}

#[test]
fn read_not_found() {
    let store = make_store();

    assert!(store.read(&path(&["bla"])).is_err());
    assert!(store.read(&path(&["binary", "245"])).is_err());
    assert!(store.read(&path(&["nested", "bla"])).is_err());
    assert!(store.read(&path(&["nested", "bla", "foo"])).is_err());
    assert!(store.read(&path(&["nested", "inner", "bla"])).is_err());
    assert!(store.read(&path(&["nested", "inner", "bla", "deep"])).is_err());
    assert!(store.read(&path(&["nested", "inner", "deep", "bla"])).is_err());
    assert!(store
        .read(&path(&["nested", "inner", "deep", "foo", "bla"]))
        .is_err());
    assert!(store.read(&path(&[""])).is_err());
    assert_eq!(
        store.read(&path(&["binary", "245"])),
        Err(StoreError::NotFound)
    );
    assert_eq!(store.read(&[]), Err(StoreError::EmptyPath));
}

#[test]
fn ops_update() {
    let mut store = make_store();

    // update top level
    store.update(&path(&["binary"]), leaf("new")).unwrap();
    assert_eq!(
        store,
        build(&[
            (&["binary"], leaf("new")),
            (&["nested", "inner", "deep", "foo"], leaf("bar")),
            (&["nested", "sibling"], leaf("inner_sibling")),
            (&["sibling"], leaf("outer_sibling")),
        ])
    );

    // update deep
    store
        .update(&path(&["nested", "inner", "deep", "foo"]), leaf("new"))
        .unwrap();
    assert_eq!(
        store,
        build(&[
            (&["binary"], leaf("new")),
            (&["nested", "inner", "deep", "foo"], leaf("new")),
            (&["nested", "sibling"], leaf("inner_sibling")),
            (&["sibling"], leaf("outer_sibling")),
        ])
    );

    // update root of deep tree
    store.update(&path(&["nested"]), leaf("new")).unwrap();
    assert_eq!(
        store,
        build(&[
            (&["binary"], leaf("new")),
            (&["nested"], leaf("new")),
            (&["sibling"], leaf("outer_sibling")),
        ])
    );
}

#[test]
fn update_empty_just_deletes() {
    let paths: [&[&str]; 7] = [
        &["binary"],
        &["sibling"],
        &["nested"],
        &["nested", "sibling"],
        &["nested", "inner"],
        &["nested", "inner", "deep"],
        &["nested", "inner", "deep", "foo"],
    ];
    for p in paths {
        let mut updated = make_store();
        let mut deleted = make_store();
        updated
            .update(&path(p), Node::Branch(NestedMap::new()))
            .unwrap();
        deleted.delete(&path(p)).unwrap();
        assert_eq!(updated, deleted);
    }
}

#[test]
fn update_not_found() {
    let mut store = make_store();

    assert!(store.update(&path(&["bla"]), leaf("")).is_err());
    assert!(store.update(&path(&["binary", "245"]), leaf("")).is_err());
    assert!(store.update(&path(&["nested", "bla"]), leaf("")).is_err());
    assert!(store.update(&path(&["nested", "bla", "foo"]), leaf("")).is_err());
    assert!(store.update(&path(&["nested", "inner", "bla"]), leaf("")).is_err());
    assert!(store
        .update(&path(&["nested", "inner", "bla", "deep"]), leaf(""))
        .is_err());
    assert!(store
        .update(&path(&["nested", "inner", "deep", "bla"]), leaf(""))
        .is_err());
    assert!(store
        .update(&path(&["nested", "inner", "deep", "foo", "bla"]), leaf(""))
        .is_err());
    assert!(store.update(&path(&[""]), leaf("")).is_err());
    assert_eq!(store, make_store());
}

#[test]
fn ops_delete() {
    let cases: [(&[&str], Store); 7] = [
        (
            &["binary"],
            build(&[
                (&["nested", "inner", "deep", "foo"], leaf("bar")),
                (&["nested", "sibling"], leaf("inner_sibling")),
                (&["sibling"], leaf("outer_sibling")),
            ]),
        ),
        (
            &["sibling"],
            build(&[
                (&["binary"], binary(&[245, 107, 95, 100])),
                (&["nested", "inner", "deep", "foo"], leaf("bar")),
                (&["nested", "sibling"], leaf("inner_sibling")),
            ]),
        ),
        (
            &["nested"],
            build(&[
                (&["binary"], binary(&[245, 107, 95, 100])),
                (&["sibling"], leaf("outer_sibling")),
            ]),
        ),
        (
            &["nested", "sibling"],
            build(&[
                (&["binary"], binary(&[245, 107, 95, 100])),
                (&["nested", "inner", "deep", "foo"], leaf("bar")),
                (&["sibling"], leaf("outer_sibling")),
            ]),
        ),
        (
            &["nested", "inner"],
            build(&[
                (&["binary"], binary(&[245, 107, 95, 100])),
                (&["nested", "sibling"], leaf("inner_sibling")),
                (&["sibling"], leaf("outer_sibling")),
            ]),
        ),
        (
            &["nested", "inner", "deep"],
            build(&[
                (&["binary"], binary(&[245, 107, 95, 100])),
                (&["nested", "sibling"], leaf("inner_sibling")),
                (&["sibling"], leaf("outer_sibling")),
            ]),
        ),
        (
            &["nested", "inner", "deep", "foo"],
            build(&[
                (&["binary"], binary(&[245, 107, 95, 100])),
                (&["nested", "sibling"], leaf("inner_sibling")),
                (&["sibling"], leaf("outer_sibling")),
            ]),
        ),
    ];
    for (p, expected) in cases {
        let mut store = make_store();
        store.delete(&path(p)).unwrap();
        assert_eq!(store, expected);
    }

    let mut store = build(&[(&["one", "two", "three"], leaf("value"))]);
    assert!(store.delete(&path(&["one", "two", "three"])).is_ok());
    assert_eq!(store, Store::new());
}

#[test]
fn delete_not_found() {
    let mut store = make_store();

    assert!(store.delete(&path(&["bla"])).is_err());
    assert!(store.delete(&path(&["binary", "245"])).is_err());
    assert!(store.delete(&path(&["nested", "bla"])).is_err());
    assert!(store.delete(&path(&["nested", "bla", "foo"])).is_err());
    assert!(store.delete(&path(&["nested", "inner", "bla"])).is_err());
    assert!(store.delete(&path(&["nested", "inner", "bla", "deep"])).is_err());
    assert!(store.delete(&path(&["nested", "inner", "deep", "bla"])).is_err());
    assert!(store
        .delete(&path(&["nested", "inner", "deep", "foo", "bla"]))
        .is_err());
    assert!(store.delete(&path(&[""])).is_err());
    assert_eq!(store, make_store());
}

#[test]
fn delete_prunes_emptied_ancestors() {
    let mut store = build(&[(&["a", "b", "c"], leaf("v"))]);
    assert_eq!(store.delete(&path(&["a", "b", "c"])), Ok(()));
    assert_eq!(store, Store::new());
    assert!(store.as_map().is_empty());
}

#[test]
fn create_makes_missing_branches() {
    let mut store = Store::new();
    assert_eq!(store.create(&path(&["x", "y", "z"]), leaf("v")), Ok(()));
    let mut y = NestedMap::new();
    y.insert(own("z"), leaf("v"));
    let mut x = NestedMap::new();
    x.insert(own("y"), Node::Branch(y));
    let mut expected = NestedMap::new();
    expected.insert(own("x"), Node::Branch(x));
    assert_eq!(store.as_map(), &expected);
}

#[test]
fn create_twice_conflicts() {
    let mut store = Store::new();
    assert_eq!(store.create(&path(&["a"]), leaf("x")), Ok(()));
    let after_first = store.clone();
    assert_eq!(
        store.create(&path(&["a"]), leaf("y")),
        Err(StoreError::Conflict)
    );
    assert_eq!(store, after_first);
    assert_eq!(
        store.create(&path(&["a"]), Node::Branch(NestedMap::new())),
        Err(StoreError::EmptySecret)
    );
    assert_eq!(store, after_first);
}

#[test]
fn read_twice_is_stable() {
    let store = make_store();
    let before = store.clone();
    let first = store.read(&path(&["nested", "sibling"])).map(|n| n.clone());
    let second = store.read(&path(&["nested", "sibling"])).map(|n| n.clone());
    assert_eq!(first, second);
    assert_eq!(store, before);
}

#[test]
fn errors_leave_tree_alone() {
    let mut store = make_store();
    assert_eq!(store.update(&[], leaf("x")), Err(StoreError::EmptyPath));
    assert_eq!(store.delete(&[]), Err(StoreError::EmptyPath));
    assert_eq!(store.create(&[], leaf("x")), Err(StoreError::EmptyPath));
    assert_eq!(
        store.delete(&path(&["sibling", "below_leaf"])),
        Err(StoreError::NotFound)
    );
    assert_eq!(store, make_store());
}

#[test]
fn take_returns_subtree() {
    let store = make_store();
    assert_eq!(
        store.take(&path(&["nested", "inner", "deep"])),
        Ok(branch(&[(&["foo"], leaf("bar"))]))
    );
    assert_eq!(make_store().take(&path(&["nope"])), Err(StoreError::NotFound));
}

#[test]
fn entry_text() {
    assert_eq!(binary(&[1, 2]).to_string(), "[Binary data]");
    assert_eq!(branch(&[(&["k"], leaf("v"))]).to_string(), "[Nested store]");
    assert_eq!(leaf("plain").to_string(), "plain");
}
