use wfc_core::tile::{Orientation, Tile};
use wfc_core::tileset::{intersection, TileSet};

fn t(i: usize) -> Tile {
    Tile::new(i, Orientation::North)
}

#[test]
fn insert_is_idempotent() {
    let mut s = TileSet::new();
    assert!(s.is_empty());
    s.insert(t(1));
    s.insert(t(2));
    s.insert(t(1));
    assert_eq!(s.len(), 2);
    assert!(s.contains(&t(1)));
    assert!(s.contains(&t(2)));
    assert!(!s.contains(&t(3)));
}

#[test]
fn union_adds_missing_members_only() {
    let mut a = TileSet::new();
    a.insert(t(1));
    a.insert(t(2));
    let mut b = TileSet::new();
    b.insert(t(2));
    b.insert(t(3));
    a.union_with(&b);
    assert_eq!(a.len(), 3);
    for i in 1..4 {
        assert!(a.contains(&t(i)));
    }
}

#[test]
fn intersection_keeps_common_members_in_order() {
    let mut a = TileSet::new();
    a.insert(t(1));
    a.insert(t(2));
    a.insert(t(3));
    let mut b = TileSet::new();
    b.insert(t(3));
    b.insert(t(1));
    let r = intersection(&a, &b);
    assert_eq!(r.len(), 2);
    assert_eq!(r.index(0), t(1));
    assert_eq!(r.index(1), t(3));
    assert!(!r.contains(&t(2)));
}

#[test]
fn intersection_with_empty_is_empty() {
    let mut a = TileSet::new();
    a.insert(t(1));
    let empty = TileSet::new();
    assert_eq!(intersection(&a, &empty).len(), 0);
    assert_eq!(intersection(&empty, &a).len(), 0);
}

#[test]
fn clone_is_deep_enough() {
    let mut a = TileSet::new();
    a.insert(t(5));
    let mut c = a.clone();
    c.insert(t(6));
    assert_eq!(a.len(), 1);
    assert_eq!(c.len(), 2);
}
