use wfc_core::tile::{
    Coordinates, Equivalences, OptionalTile, Orientation, PaletteElement, Prototype, Tile,
    TileSelection,
};

#[test]
fn rotate_orientation() {
    let mut orientation = Orientation::North;
    orientation.rotate(-2);
    assert!(orientation == Orientation::South);
    orientation.rotate(1);
    assert!(orientation == Orientation::West);
}

#[test]
fn rotation_wraps_in_both_directions() {
    assert_eq!(Orientation::North.rotated(4), Orientation::North);
    assert_eq!(Orientation::North.rotated(5), Orientation::East);
    assert_eq!(Orientation::East.rotated(-1), Orientation::North);
    assert_eq!(Orientation::South.rotated(-6), Orientation::North);
    assert_eq!(Orientation::West.rotated(0), Orientation::West);
    assert_eq!(Orientation::North.rotated(i32::MIN), Orientation::North);
    assert_eq!(Orientation::North.rotated(i32::MAX), Orientation::West);
}

#[test]
fn orientation_values_are_in_cycle_order() {
    let v = Orientation::values();
    assert_eq!(
        v,
        [Orientation::North, Orientation::East, Orientation::South, Orientation::West]
    );
}

#[test]
fn offset_moves_one_step() {
    let c = Coordinates::new(3, 7);
    assert_eq!(Orientation::North.offset(&c), Coordinates::new(3, 8));
    assert_eq!(Orientation::East.offset(&c), Coordinates::new(2, 7));
    assert_eq!(Orientation::South.offset(&c), Coordinates::new(3, 6));
    assert_eq!(Orientation::West.offset(&c), Coordinates::new(4, 7));
}

#[test]
fn offset_needs_room_only_where_it_moves() {
    // The component that stays put may sit at the edge of the integer range.
    let east_edge = Coordinates::new(i32::MAX, i32::MIN);
    assert_eq!(
        Orientation::North.offset(&east_edge),
        Coordinates::new(i32::MAX, i32::MIN + 1)
    );
    let north_edge = Coordinates::new(i32::MIN, i32::MAX);
    assert_eq!(
        Orientation::West.offset(&north_edge),
        Coordinates::new(i32::MIN + 1, i32::MAX)
    );
    assert_eq!(
        Orientation::East.offset(&Coordinates::new(i32::MAX, 0)),
        Coordinates::new(i32::MAX - 1, 0)
    );
    assert_eq!(
        Orientation::South.offset(&Coordinates::new(0, i32::MAX)),
        Coordinates::new(0, i32::MAX - 1)
    );
}

#[test]
fn rotation_closure_after_four_turns() {
    for &eq in &[Equivalences::FullTurn, Equivalences::HalfTurn, Equivalences::QuarterTurn] {
        let p = Prototype::new(5, eq);
        for &o in &Orientation::values() {
            let t = p.make_rotated_tile(o, 0);
            assert_eq!(p.make_rotated_tile(t.orientation, 4), t);
            for k in -8..8 {
                assert_eq!(
                    p.make_rotated_tile(o, k),
                    p.make_rotated_tile(o, k + 4)
                );
            }
        }
    }
}

fn distinct_rotations(p: &Prototype) -> usize {
    let mut seen: Vec<Tile> = Vec::new();
    for k in 0..4 {
        let t = p.make_rotated_tile(Orientation::North, k);
        if !seen.contains(&t) {
            seen.push(t);
        }
    }
    seen.len()
}

#[test]
fn equivalence_cardinality() {
    assert_eq!(distinct_rotations(&Prototype::new(0, Equivalences::FullTurn)), 4);
    assert_eq!(distinct_rotations(&Prototype::new(1, Equivalences::HalfTurn)), 2);
    assert_eq!(distinct_rotations(&Prototype::new(2, Equivalences::QuarterTurn)), 1);
}

#[test]
fn half_turn_collapses_pairwise() {
    let p = Prototype::new(0, Equivalences::HalfTurn);
    assert_eq!(p.make_rotated_tile(Orientation::North, 2).orientation, Orientation::North);
    assert_eq!(p.make_rotated_tile(Orientation::North, 0).orientation, Orientation::North);
    assert_eq!(p.make_rotated_tile(Orientation::North, 1).orientation, Orientation::East);
    assert_eq!(p.make_rotated_tile(Orientation::North, 3).orientation, Orientation::East);
}

#[test]
fn quarter_turn_collapses_to_north() {
    let p = Prototype::new(0, Equivalences::QuarterTurn);
    for k in 0..4 {
        assert_eq!(p.make_rotated_tile(Orientation::East, k).orientation, Orientation::North);
    }
}

#[test]
fn tile_selection_makes_rotated_tile() {
    let mut sel = TileSelection::default();
    assert_eq!(sel.make_tile(), None);
    sel.prototype = Some(Prototype::new(3, Equivalences::FullTurn));
    sel.rotation = 6;
    assert_eq!(sel.make_tile(), Some(Tile::new(3, Orientation::South)));
    sel.rotation = -1;
    assert_eq!(sel.make_tile(), Some(Tile::new(3, Orientation::West)));
}

#[test]
fn optional_tile_conversions() {
    let t = Tile::new(2, Orientation::East);
    let o: OptionalTile = t.into();
    assert_eq!(o.tile, Some(t));
    assert_eq!(OptionalTile::default().tile, None);
    assert_eq!(OptionalTile::new(None).tile, None);
}

#[test]
fn defaults() {
    assert_eq!(Equivalences::default(), Equivalences::FullTurn);
    assert_eq!(Orientation::default(), Orientation::North);
    let c = Coordinates::default();
    assert_eq!((c.x, c.y), (0, 0));
}

#[test]
fn palette_element_keeps_fields() {
    let e = PaletteElement::new("ground_grass.glb#Scene0", Equivalences::QuarterTurn);
    assert_eq!(e.tile_model, "ground_grass.glb#Scene0");
    assert_eq!(e.equivalences, Equivalences::QuarterTurn);
}
