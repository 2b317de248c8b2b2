use trie_map::{Cursor, CursorMut, TrieMap};

fn size<T>(cursor: &Cursor<T>, factor: usize) -> usize {
    let mut count = 1;
    for key in 0..factor {
        if let Some(child) = cursor.child(key) {
            count += size(&child, factor);
        }
    }
    count
}

fn sample() -> TrieMap<&'static str> {
    let mut map = TrieMap::new(26);
    map.insert(&[2, 0, 19], "cat");
    map.insert(&[2, 0, 17], "car");
    map.insert(&[3], "d");
    map
}

#[test]
fn cursor_reads_the_value_at_the_root() {
    let mut map: TrieMap<u8> = TrieMap::new(2);
    assert_eq!(map.cursor().value(), &None);
    map.insert(&[], 1);
    assert_eq!(map.cursor().value(), &Some(1));
}

#[test]
fn child_of_an_empty_slot_is_none() {
    let map = sample();
    let root = map.cursor();
    assert!(root.child(0).is_none());
    assert!(root.child(25).is_none());
    assert!(root.child(2).unwrap().child(1).is_none());
}

#[test]
fn child_leads_to_the_subtree() {
    let map = sample();
    let root = map.cursor();
    let c = root.child(2).unwrap();
    assert_eq!(c.value(), &None);
    let ca = c.child(0).unwrap();
    assert_eq!(ca.value(), &None);
    assert_eq!(ca.child(19).unwrap().value(), &Some("cat"));
    assert_eq!(ca.child(17).unwrap().value(), &Some("car"));
    assert_eq!(root.child(3).unwrap().value(), &Some("d"));
    assert_eq!(root.value(), &None);
}

#[test]
fn descend_moves_the_cursor() {
    let map = sample();
    let mut cursor = map.cursor();
    assert!(cursor.descend(2));
    assert!(cursor.descend(0));
    assert!(cursor.descend(19));
    assert_eq!(cursor.value(), &Some("cat"));
}

#[test]
fn failed_descend_leaves_the_cursor_in_place() {
    let map = sample();
    let mut cursor = map.cursor();
    assert!(cursor.descend(2));
    assert!(cursor.descend(0));
    assert!(!cursor.descend(4));
    assert_eq!(cursor.value(), &None);
    assert!(!cursor.descend(18));
    assert!(cursor.descend(17));
    assert_eq!(cursor.value(), &Some("car"));
    assert!(!cursor.descend(0));
    assert_eq!(cursor.value(), &Some("car"));
}

#[test]
fn path_without_value_differs_from_no_path() {
    let map = sample();
    let mut cursor = map.cursor();
    assert!(cursor.descend(2));
    assert!(cursor.value().is_none());
    assert!(cursor.descend(0));
    assert!(cursor.value().is_none());
    assert!(cursor.descend(19));
    assert!(!cursor.descend(4));
    assert!(!map.contains(&[2, 0]));
    assert!(!map.contains(&[2, 0, 19, 4]));
}

#[test]
fn cursors_are_copied() {
    let map = sample();
    let root = map.cursor();
    let mut walker = root;
    assert!(walker.descend(3));
    assert_eq!(walker.value(), &Some("d"));
    assert_eq!(root.value(), &None);
    let again = walker.clone();
    assert_eq!(again.value(), &Some("d"));
}

#[test]
fn freeze_reads_where_the_mutable_cursor_stands() {
    let mut map = sample();
    let cursor = map.cursor_mut();
    let mut cursor = cursor.into_child(2).unwrap();
    {
        let frozen = cursor.freeze();
        assert_eq!(frozen.value(), &None);
        assert_eq!(frozen.child(0).unwrap().child(19).unwrap().value(), &Some("cat"));
        assert!(frozen.child(1).is_none());
    }
    *cursor.value() = Some("c");
    assert_eq!(cursor.freeze().value(), &Some("c"));
}

#[test]
fn value_sets_replaces_and_clears() {
    let mut map: TrieMap<u32> = TrieMap::new(3);
    {
        let mut cursor = map.cursor_mut();
        assert_eq!(*cursor.value(), None);
        *cursor.value() = Some(1);
        assert_eq!(*cursor.value(), Some(1));
    }
    assert_eq!(map[&[][..]], Some(1));
    {
        let mut cursor = map.cursor_mut();
        *cursor.value() = Some(2);
    }
    assert_eq!(map[&[][..]], Some(2));
    {
        let mut cursor = map.cursor_mut();
        *cursor.value() = None;
    }
    assert!(!map.contains(&[]));
}

#[test]
fn mutable_child_of_an_empty_slot_is_none_and_adds_nothing() {
    let mut map = sample();
    let before = size(&map.cursor(), 26);
    {
        let mut cursor = map.cursor_mut();
        assert!(cursor.child(5).is_none());
    }
    {
        let cursor = map.cursor_mut();
        assert!(cursor.into_child(5).is_none());
    }
    {
        let cursor = map.cursor_mut();
        let cursor = cursor.into_child(2).unwrap();
        assert!(cursor.into_child(7).is_none());
    }
    assert_eq!(size(&map.cursor(), 26), before);
    assert_eq!(map, sample());
}

#[test]
fn mutable_child_writes_into_the_subtree() {
    let mut map = sample();
    {
        let mut root = map.cursor_mut();
        let mut c = root.child(2).unwrap();
        *c.value() = Some("c");
    }
    assert_eq!(map[&[2][..]], Some("c"));
    assert_eq!(map[&[2, 0, 19][..]], Some("cat"));
    {
        let root = map.cursor_mut();
        let c = root.into_child(2).unwrap();
        let mut ca = c.into_child(0).unwrap();
        *ca.value() = Some("ca");
    }
    assert_eq!(map[&[2, 0][..]], Some("ca"));
    assert_eq!(map[&[2][..]], Some("c"));
    assert_eq!(map[&[2, 0, 17][..]], Some("car"));
    assert_eq!(size(&map.cursor(), 26), 6);
}

#[test]
fn child_add_makes_the_child_once() {
    let mut map: TrieMap<u8> = TrieMap::new(4);
    {
        let mut root = map.cursor_mut();
        let mut child = root.child_add(3);
        assert_eq!(*child.value(), None);
        *child.value() = Some(30);
    }
    assert_eq!(size(&map.cursor(), 4), 2);
    {
        let mut root = map.cursor_mut();
        let mut child = root.child_add(3);
        assert_eq!(*child.value(), Some(30));
    }
    assert_eq!(size(&map.cursor(), 4), 2);
    assert_eq!(map[&[3][..]], Some(30));
    assert!(!map.contains(&[]));
}

#[test]
fn into_child_add_keeps_an_existing_subtree() {
    let mut map = sample();
    let before = size(&map.cursor(), 26);
    {
        let root = map.cursor_mut();
        let c = root.into_child_add(2);
        let ca = c.into_child_add(0);
        let mut cab = ca.into_child_add(1);
        *cab.value() = Some("cab");
    }
    assert_eq!(size(&map.cursor(), 26), before + 1);
    assert_eq!(map[&[2, 0, 1][..]], Some("cab"));
    assert_eq!(map[&[2, 0, 19][..]], Some("cat"));
    assert_eq!(map[&[2, 0, 17][..]], Some("car"));
    assert_eq!(map[&[3][..]], Some("d"));
    {
        let root = map.cursor_mut();
        let _again = root.into_child_add(2).into_child_add(0).into_child_add(1);
    }
    assert_eq!(size(&map.cursor(), 26), before + 1);
    assert_eq!(map[&[2, 0, 1][..]], Some("cab"));
}

#[test]
fn added_nodes_without_value_are_not_keys() {
    let mut map: TrieMap<u8> = TrieMap::new(2);
    {
        let root = map.cursor_mut();
        let _leaf = root.into_child_add(1).into_child_add(1).into_child_add(0);
    }
    assert_eq!(size(&map.cursor(), 2), 4);
    assert!(!map.contains(&[1]));
    assert!(!map.contains(&[1, 1]));
    assert!(!map.contains(&[1, 1, 0]));
    let mut cursor = map.cursor();
    assert!(cursor.descend(1));
    assert!(cursor.descend(1));
    assert!(cursor.descend(0));
    assert!(!cursor.descend(0));
}

#[test]
fn mutable_cursor_carries_the_factor() {
    let mut map: TrieMap<u8> = TrieMap::new(7);
    let cursor: CursorMut<u8> = map.cursor_mut();
    assert_eq!(cursor.factor, 7);
    let child = cursor.into_child_add(6);
    assert_eq!(child.factor, 7);
    let grandchild = child.into_child_add(0);
    assert_eq!(grandchild.factor, 7);
    assert!(grandchild.freeze().child(6).is_none());
}
