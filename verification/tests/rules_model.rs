use wfc_core::rules::{
    extract_rules, expand_with_rotations, prototypes_from_palette, AdjacencyTable, RuleGrid, Rules,
};
use wfc_core::tile::{
    Coordinates, Equivalences, OptionalTile, Orientation, PaletteElement, Prototype, Tile,
};

fn place(grid: &mut RuleGrid, x: usize, y: usize, t: Tile) {
    grid.set_tile(x, y, OptionalTile::new(Some(t)));
}

fn allowed_tiles(table: &AdjacencyTable, t: Tile, o: Orientation) -> Vec<Tile> {
    match table.find(&t) {
        Some(i) => {
            let set = table.entries[i].1.get(o);
            let mut v = Vec::new();
            let mut j = 0;
            while j < set.len() {
                v.push(set.index(j));
                j += 1;
            }
            v
        },
        None => panic!("tile is not a key of the table"),
    }
}

fn two_prototypes() -> Vec<Prototype> {
    vec![
        Prototype::new(0, Equivalences::FullTurn),
        Prototype::new(1, Equivalences::FullTurn),
    ]
}

#[test]
fn empty_rule_grid_gives_empty_table() {
    let grid = RuleGrid::new(4, 4);
    let table = extract_rules(&grid);
    assert!(table.is_empty());
    assert_eq!(table.len(), 0);
}

#[test]
fn extraction_records_neighbour_pairs() {
    // A sits one East-step away from B: East.offset((1, 0)) == (0, 0).
    let a = Tile::new(0, Orientation::North);
    let b = Tile::new(1, Orientation::North);
    let mut grid = RuleGrid::new(2, 1);
    place(&mut grid, 1, 0, a);
    place(&mut grid, 0, 0, b);
    let table = extract_rules(&grid);
    assert_eq!(table.len(), 2);
    assert_eq!(allowed_tiles(&table, a, Orientation::East), vec![b]);
    assert_eq!(allowed_tiles(&table, b, Orientation::West), vec![a]);
    assert_eq!(allowed_tiles(&table, a, Orientation::North), vec![]);
    assert_eq!(allowed_tiles(&table, a, Orientation::West), vec![]);
    assert_eq!(allowed_tiles(&table, b, Orientation::East), vec![]);
}

#[test]
fn expansion_rotates_rules_four_ways() {
    let a = Tile::new(0, Orientation::North);
    let b = Tile::new(1, Orientation::North);
    let mut grid = RuleGrid::new(2, 1);
    place(&mut grid, 1, 0, a);
    place(&mut grid, 0, 0, b);
    let base = extract_rules(&grid);
    let prototypes = two_prototypes();
    let table = expand_with_rotations(&base, &prototypes);
    // Two asymmetric prototypes give four variants each.
    assert_eq!(table.len(), 8);
    for k in 0..4 {
        let ak = prototypes[0].make_rotated_tile(Orientation::North, k);
        let bk = prototypes[1].make_rotated_tile(Orientation::North, k);
        let dir = Orientation::East.rotated(k);
        assert_eq!(allowed_tiles(&table, ak, dir), vec![bk]);
        assert_eq!(allowed_tiles(&table, bk, dir.rotated(2)), vec![ak]);
    }
}

#[test]
fn expansion_collapses_symmetric_prototypes() {
    // A quarter-turn symmetric tile next to itself gives a single variant.
    let a = Tile::new(0, Orientation::North);
    let mut grid = RuleGrid::new(2, 2);
    for x in 0..2 {
        for y in 0..2 {
            place(&mut grid, x, y, a);
        }
    }
    let base = extract_rules(&grid);
    let prototypes = vec![Prototype::new(0, Equivalences::QuarterTurn)];
    let table = expand_with_rotations(&base, &prototypes);
    assert_eq!(table.len(), 1);
    for &o in &Orientation::values() {
        assert_eq!(allowed_tiles(&table, a, o), vec![a]);
    }
}

#[test]
fn adjacency_symmetry_after_expansion() {
    // A mixed palette on a small board: every allowed pair must be
    // reciprocal in the opposite direction.
    let prototypes = vec![
        Prototype::new(0, Equivalences::FullTurn),
        Prototype::new(1, Equivalences::HalfTurn),
        Prototype::new(2, Equivalences::QuarterTurn),
    ];
    let mut grid = RuleGrid::new(3, 2);
    place(&mut grid, 0, 0, Tile::new(0, Orientation::North));
    place(&mut grid, 1, 0, Tile::new(1, Orientation::East));
    place(&mut grid, 2, 0, Tile::new(2, Orientation::North));
    place(&mut grid, 0, 1, Tile::new(1, Orientation::North));
    place(&mut grid, 2, 1, Tile::new(0, Orientation::West));
    let base = extract_rules(&grid);
    let table = expand_with_rotations(&base, &prototypes);
    let mut checked = 0;
    for i in 0..table.entries.len() {
        let t1 = table.entries[i].0;
        for &o in &Orientation::values() {
            let neighbours = allowed_tiles(&table, t1, o);
            for &t2 in &neighbours {
                let back = allowed_tiles(&table, t2, o.rotated(2));
                assert!(back.contains(&t1));
                checked += 1;
            }
        }
    }
    assert!(checked > 0);
}

#[test]
fn rule_grid_reads_defensively() {
    let mut grid = RuleGrid::new(2, 2);
    let t = Tile::new(0, Orientation::South);
    place(&mut grid, 1, 1, t);
    assert_eq!(grid.get_tile_prototype(&Coordinates::new(1, 1)), Some(t));
    assert_eq!(grid.get_tile_prototype(&Coordinates::new(0, 0)), None);
    assert_eq!(grid.get_tile_prototype(&Coordinates::new(-1, 0)), None);
    assert_eq!(grid.get_tile_prototype(&Coordinates::new(0, -3)), None);
    assert_eq!(grid.get_tile_prototype(&Coordinates::new(2, 0)), None);
    assert_eq!(grid.get_tile_prototype(&Coordinates::new(0, 2)), None);
}

#[test]
fn rule_grid_signals_only_real_changes() {
    let mut grid = RuleGrid::new(2, 2);
    assert!(!grid.changed);
    grid.set_tile(0, 0, OptionalTile::new(None));
    assert!(!grid.changed);
    let t = Tile::new(0, Orientation::North);
    grid.set_tile(0, 0, OptionalTile::new(Some(t)));
    assert!(grid.changed);
    grid.changed = false;
    grid.set_tile(0, 0, OptionalTile::new(Some(t)));
    assert!(!grid.changed);
    grid.set_tile(0, 0, OptionalTile::new(Some(Tile::new(0, Orientation::East))));
    assert!(grid.changed);
}

#[test]
fn prototypes_from_palette_number_in_order() {
    let palette = vec![
        PaletteElement::new("bridge_wood.glb#Scene0", Equivalences::HalfTurn),
        PaletteElement::new("ground_grass.glb#Scene0", Equivalences::QuarterTurn),
    ];
    let prototypes = prototypes_from_palette(&palette);
    assert_eq!(prototypes.len(), 2);
    assert_eq!(prototypes[0].index, 0);
    assert_eq!(prototypes[0].equivalences, Equivalences::HalfTurn);
    assert_eq!(prototypes[1].index, 1);
    assert_eq!(prototypes[1].equivalences, Equivalences::QuarterTurn);
}

#[test]
fn rules_new_starts_without_rules() {
    let rules = Rules::new(8, 8, two_prototypes());
    assert_eq!(rules.width, 8);
    assert_eq!(rules.height, 8);
    assert!(rules.alloweds.is_empty());
}
