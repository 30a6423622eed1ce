use passify::entry::Entry;
use passify::nested_map::{NestedMap, Node};

fn own(s: &str) -> String {
    String::from(s)
}

fn leaf(s: &str) -> Node {
    Node::Leaf(Entry::String(own(s)))
}

fn path(segments: &[&str]) -> Vec<String> {
    segments.iter().map(|s| own(s)).collect()
}

fn fixture() -> (NestedMap, NestedMap) {
    let mut map = NestedMap::new();
    map.insert(own("key"), leaf("value"));
    let mut inner = NestedMap::new();
    inner.insert(own("inner_key"), leaf("inner_value"));
    map.insert(own("nested"), Node::Branch(inner.clone()));
    (map, inner)
}

#[test]
fn node_from_leaf() {
    let mut map = NestedMap::new();
    assert_eq!(map.insert(own("key"), leaf("value")), None);
    assert_eq!(map.get(&own("key")), Some(&leaf("value")));
}

#[test]
fn branch_from_map() {
    let mut map = NestedMap::new();
    let mut inner = NestedMap::new();
    inner.insert(own("inner_key"), leaf("inner_value"));
    map.insert(own("key"), Node::Branch(inner.clone()));
    assert_eq!(map.get(&own("key")), Some(&Node::Branch(inner)));
}

#[test]
fn get_from() {
    let (map, inner) = fixture();
    assert_eq!(map.get_from(&[]), None);
    assert_eq!(map.get_from(&path(&["key"])), Some(&leaf("value")));
    assert_eq!(map.get_from(&path(&["fake"])), None);
    assert_eq!(map.get_from(&path(&["nested"])), Some(&Node::Branch(inner)));
    assert_eq!(map.get_from(&path(&["nested", "fake"])), None);
    assert_eq!(
        map.get_from(&path(&["nested", "inner_key"])),
        Some(&leaf("inner_value"))
    );
    assert_eq!(map.get_from(&path(&["nested", "inner_key", "not_nested"])), None);
}

#[test]
fn get_mut_from() {
    let (mut map, inner) = fixture();
    assert_eq!(map.get_mut_from(&[]), None);
    assert_eq!(map.get_mut_from(&path(&["key"])), Some(&mut leaf("value")));
    assert_eq!(map.get_mut_from(&path(&["fake"])), None);
    assert_eq!(
        map.get_mut_from(&path(&["nested"])),
        Some(&mut Node::Branch(inner))
    );
    assert_eq!(map.get_mut_from(&path(&["nested", "fake"])), None);
    assert_eq!(
        map.get_mut_from(&path(&["nested", "inner_key"])),
        Some(&mut leaf("inner_value"))
    );
    assert_eq!(
        map.get_mut_from(&path(&["nested", "inner_key", "not_nested"])),
        None
    );
}

#[test]
fn remove_from() {
    let (mut map, inner) = fixture();
    map.insert(own("nested2"), Node::Branch(inner.clone()));

    assert_eq!(map.remove_from(&[]), None);
    assert_eq!(map.remove_from(&path(&["nested", "fake"])), None);
    assert_eq!(map.remove_from(&path(&["nested", "inner_key", "too_deep"])), None);
    assert_eq!(
        map.remove_from(&path(&["nested", "inner_key"])),
        Some(leaf("inner_value"))
    );
    assert_eq!(map.remove_from(&path(&["nested", "inner_key"])), None);
    assert_eq!(
        map.remove_from(&path(&["nested2"])),
        Some(Node::Branch(inner.clone()))
    );
    assert_eq!(map.remove_from(&path(&["key"])), Some(leaf("value")));
}

#[test]
fn remove_entry_from() {
    let (mut map, inner) = fixture();
    map.insert(own("nested2"), Node::Branch(inner.clone()));

    assert_eq!(map.remove_entry_from(&[]), None);
    assert_eq!(map.remove_entry_from(&path(&["nested", "fake"])), None);
    assert_eq!(
        map.remove_entry_from(&path(&["nested", "inner_key", "too_deep"])),
        None
    );
    assert_eq!(
        map.remove_entry_from(&path(&["nested", "inner_key"])),
        Some((own("inner_key"), leaf("inner_value")))
    );
    assert_eq!(map.remove_entry_from(&path(&["nested", "inner_key"])), None);
    assert_eq!(
        map.remove_entry_from(&path(&["nested2"])),
        Some((own("nested2"), Node::Branch(inner.clone())))
    );
    assert_eq!(
        map.remove_entry_from(&path(&["key"])),
        Some((own("key"), leaf("value")))
    );
}

#[test]
fn get_from_calling_signature() {
    let mut map = NestedMap::new();
    map.insert(own("key"), leaf("value"));

    // Empty
    assert_eq!(map.get_from(&[]), None);
    assert_eq!(map.get_from_iter(&[], 0), None);

    // Slice of owned segments
    assert_eq!(map.get_from(&[own("key")]), Some(&leaf("value")));
    assert_eq!(map.get_from(&path(&["key"])), Some(&leaf("value")));

    // Slice reference
    assert_eq!(map.get_from(&[own("key")][..]), Some(&leaf("value")));
    assert_eq!(map.get_from(&path(&["key"])[..]), Some(&leaf("value")));

    // Vec
    assert_eq!(map.get_from(&vec![own("key")]), Some(&leaf("value")));
    assert_eq!(map.get_from(&path(&["key"])), Some(&leaf("value")));

    // From a start index
    assert_eq!(map.get_from_iter(&path(&["ignored", "key"]), 1), Some(&leaf("value")));
    assert_eq!(map.get_from_iter(&path(&["key"]), 1), None);

    // Trimmed segments
    let trimmed: Vec<String> = ["  key  "]
        .iter()
        .map(|s| s.trim())
        .filter(|s| !s.is_empty())
        .map(own)
        .collect();
    assert_eq!(map.get_from_iter(&trimmed, 0), Some(&leaf("value")));
}

#[test]
fn insert_into_creates_branches() {
    let mut map = NestedMap::new();
    assert_eq!(map.insert_into(&path(&["a", "b", "c"]), leaf("v")), Ok(None));
    let mut b = NestedMap::new();
    b.insert(own("c"), leaf("v"));
    let mut a = NestedMap::new();
    a.insert(own("b"), Node::Branch(b));
    let mut expected = NestedMap::new();
    expected.insert(own("a"), Node::Branch(a));
    assert_eq!(map, expected);
    assert_eq!(
        map.insert_into(&path(&["a", "b", "c"]), leaf("w")),
        Ok(Some(leaf("v")))
    );
    assert_eq!(
        map.insert_into(&path(&["a", "b", "c", "d"]), leaf("x")),
        Err(leaf("x"))
    );
    assert_eq!(map.insert_into(&[], leaf("x")), Err(leaf("x")));
    assert!(map.contains_path(&path(&["a", "b"])));
    assert!(!map.contains_path(&path(&["a", "c"])));
}

#[test]
fn equality_ignores_insertion_order() {
    let mut one = NestedMap::new();
    one.insert(own("x"), leaf("1"));
    one.insert(own("y"), leaf("2"));
    let mut two = NestedMap::new();
    two.insert(own("y"), leaf("2"));
    two.insert(own("x"), leaf("1"));
    assert_eq!(one, two);
    two.insert(own("x"), leaf("3"));
    assert_ne!(one, two);
    assert_eq!(one.len(), 2);
    assert!(!one.is_empty());
    assert!(NestedMap::new().is_empty());
}

#[test]
fn without_empty_branches_prunes_at_every_depth() {
    // {"nested":{"inner":{}}} prunes to an empty branch
    let mut inner = NestedMap::new();
    inner.insert(own("inner"), Node::Branch(NestedMap::new()));
    let mut outer = NestedMap::new();
    outer.insert(own("nested"), Node::Branch(inner));
    assert_eq!(
        Node::Branch(outer).without_empty_branches(),
        Node::Branch(NestedMap::new())
    );

    // {"nested":{"inner":{"key":"value", "empty":{}}}} keeps only the key
    let mut deep = NestedMap::new();
    deep.insert(own("key"), leaf("value"));
    deep.insert(own("empty"), Node::Branch(NestedMap::new()));
    let mut inner = NestedMap::new();
    inner.insert(own("inner"), Node::Branch(deep));
    let mut outer = NestedMap::new();
    outer.insert(own("nested"), Node::Branch(inner));

    let mut expected = NestedMap::new();
    assert_eq!(
        expected.insert_into(&path(&["nested", "inner", "key"]), leaf("value")),
        Ok(None)
    );
    assert_eq!(
        Node::Branch(outer).without_empty_branches(),
        Node::Branch(expected)
    );
    assert_eq!(leaf("foobar").without_empty_branches(), leaf("foobar"));
}

#[test]
fn index_reads_present_children() {
    let (map, inner) = fixture();
    assert_eq!(map.index(&own("key")), &leaf("value"));
    let nested = map.index(&own("nested"));
    assert_eq!(nested, &Node::Branch(inner));
    assert_eq!(nested.index(&own("inner_key")), &leaf("inner_value"));
    assert_eq!(nested.get(&own("missing")), None);
    assert_eq!(leaf("x").get(&own("inner_key")), None);
}
