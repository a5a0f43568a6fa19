use wfc_core::grid::{CellState, WaveGrid};
use wfc_core::history::{GuessHistory, TileSuperpositionHistory};
use wfc_core::rules::{extract_rules, RuleGrid, Rules};
use wfc_core::solver::{collapse, min_entropy_cells, observe, propagate, propagate_to_fixpoint, Progress, Tuning};
use wfc_core::tile::{Equivalences, OptionalTile, Orientation, Prototype, Tile};
use wfc_core::tileset::TileSet;

fn place(grid: &mut RuleGrid, x: usize, y: usize, t: Tile) {
    grid.set_tile(x, y, OptionalTile::new(Some(t)));
}

/// Run ticks until the grid stops changing: no dirty cells and no cell left
/// to observe.
fn run_to_stable(
    rules: &mut Rules,
    rule_grid: &mut RuleGrid,
    grid: &mut WaveGrid,
    tuning: &Tuning,
    history: &mut GuessHistory,
) {
    for _ in 0..10_000 {
        let undecided = (0..grid.len()).any(|i| grid.entropy(i) > 1);
        let p = collapse(rules, rule_grid, grid, tuning, history);
        if p == Progress::Fixpoint && !undecided && !rule_grid.changed {
            return;
        }
    }
    panic!("the solve did not stabilise");
}

fn entropies(grid: &WaveGrid) -> Vec<usize> {
    (0..grid.len()).map(|i| grid.entropy(i)).collect()
}

#[test]
fn single_self_adjacent_tile_fills_any_grid() {
    // One quarter-turn symmetric tile allowed next to itself in every
    // direction resolves every cell, whatever the size.
    let a = Tile::new(0, Orientation::North);
    let prototypes = vec![Prototype::new(0, Equivalences::QuarterTurn)];
    for n in [1usize, 2, 5] {
        let mut rules = Rules::new(n, n, prototypes.clone());
        let mut rule_grid = RuleGrid::new(2, 2);
        for x in 0..2 {
            for y in 0..2 {
                place(&mut rule_grid, x, y, a);
            }
        }
        let mut grid = WaveGrid::new(n, n);
        let tuning = Tuning::default();
        let mut history = GuessHistory::new();
        run_to_stable(&mut rules, &mut rule_grid, &mut grid, &tuning, &mut history);
        for i in 0..grid.len() {
            assert_eq!(grid.cell_state(i, &rules.alloweds), CellState::Resolved(a));
        }
    }
}

#[test]
fn ordered_pair_never_resolves_reversed() {
    // With only "B lies one East-step from A" authored, a 2 by 1 grid must
    // come out as that pair (or hit a contradiction), never reversed.
    let a = Tile::new(0, Orientation::North);
    let b = Tile::new(1, Orientation::North);
    let prototypes = vec![
        Prototype::new(0, Equivalences::FullTurn),
        Prototype::new(1, Equivalences::FullTurn),
    ];
    for _trial in 0..20 {
        let mut rules = Rules::new(2, 1, prototypes.clone());
        let mut rule_grid = RuleGrid::new(2, 1);
        place(&mut rule_grid, 1, 0, a);
        place(&mut rule_grid, 0, 0, b);
        let mut grid = WaveGrid::new(2, 1);
        let tuning = Tuning::default();
        let mut history = GuessHistory::new();
        run_to_stable(&mut rules, &mut rule_grid, &mut grid, &tuning, &mut history);
        // Cell 1 is one East-step before cell 0.
        let s1 = grid.cell_state(1, &rules.alloweds);
        let s0 = grid.cell_state(0, &rules.alloweds);
        match (s1, s0) {
            (CellState::Resolved(t1), CellState::Resolved(t0)) => {
                // The authored pair, or its whole-map half-turn image that
                // rotation expansion adds; never the reversed pair in the
                // authored orientations.
                let a2 = Tile::new(0, Orientation::South);
                let b2 = Tile::new(1, Orientation::South);
                assert!(
                    (t1 == a && t0 == b) || (t1 == b2 && t0 == a2),
                    "reversed pair came out: {:?}",
                    (t1, t0)
                );
            },
            (CellState::Impossible, _) | (_, CellState::Impossible) => {},
            other => panic!("unexpected stable state: {:?}", other),
        }
    }
}

#[test]
fn entropy_never_increases_under_propagation() {
    let a = Tile::new(0, Orientation::North);
    let b = Tile::new(1, Orientation::North);
    let prototypes = vec![
        Prototype::new(0, Equivalences::FullTurn),
        Prototype::new(1, Equivalences::FullTurn),
    ];
    let mut rules = Rules::new(3, 3, prototypes);
    let mut rule_grid = RuleGrid::new(2, 1);
    place(&mut rule_grid, 1, 0, a);
    place(&mut rule_grid, 0, 0, b);
    let mut grid = WaveGrid::new(3, 3);
    let tuning = Tuning::default();
    let mut history = GuessHistory::new();
    // First tick rebuilds, resets and observes once.
    collapse(&mut rules, &mut rule_grid, &mut grid, &tuning, &mut history);
    for _ in 0..50 {
        let before = entropies(&grid);
        propagate(&mut grid, &rules.alloweds, 1);
        let after = entropies(&grid);
        for i in 0..before.len() {
            assert!(after[i] <= before[i]);
        }
    }
}

#[test]
fn propagation_is_idempotent_on_a_stable_grid() {
    let a = Tile::new(0, Orientation::North);
    let b = Tile::new(1, Orientation::North);
    let prototypes = vec![
        Prototype::new(0, Equivalences::FullTurn),
        Prototype::new(1, Equivalences::FullTurn),
    ];
    let mut rules = Rules::new(2, 2, prototypes);
    let mut rule_grid = RuleGrid::new(2, 1);
    place(&mut rule_grid, 1, 0, a);
    place(&mut rule_grid, 0, 0, b);
    let mut grid = WaveGrid::new(2, 2);
    let tuning = Tuning::default();
    let mut history = GuessHistory::new();
    collapse(&mut rules, &mut rule_grid, &mut grid, &tuning, &mut history);
    propagate_to_fixpoint(&mut grid, &rules.alloweds);
    let once = entropies(&grid);
    let members: Vec<Vec<bool>> = (0..grid.len())
        .map(|i| {
            let mut m = Vec::new();
            for e in 0..rules.alloweds.len() {
                let t = rules.alloweds.entries[e].0;
                m.push(grid.cells[i].tiles.contains(&t));
            }
            m
        })
        .collect();
    let p = propagate_to_fixpoint(&mut grid, &rules.alloweds);
    let twice = entropies(&grid);
    assert_eq!(once, twice);
    for i in 0..grid.len() {
        for e in 0..rules.alloweds.len() {
            let t = rules.alloweds.entries[e].0;
            assert_eq!(grid.cells[i].tiles.contains(&t), members[i][e]);
        }
    }
    let _ = p;
}

#[test]
fn empty_rules_leave_cells_unconfigured() {
    let mut rules = Rules::new(2, 2, Vec::new());
    let mut rule_grid = RuleGrid::new(2, 2);
    let mut grid = WaveGrid::new(2, 2);
    let tuning = Tuning::default();
    let mut history = GuessHistory::new();
    let p = collapse(&mut rules, &mut rule_grid, &mut grid, &tuning, &mut history);
    assert_eq!(p, Progress::Fixpoint);
    for i in 0..grid.len() {
        assert_eq!(grid.cell_state(i, &rules.alloweds), CellState::Unconfigured);
        assert_eq!(grid.entropy(i), 0);
    }
}

#[test]
fn cell_states_distinguish_every_case() {
    let a = Tile::new(0, Orientation::North);
    let mut rule_grid = RuleGrid::new(2, 2);
    for x in 0..2 {
        for y in 0..2 {
            place(&mut rule_grid, x, y, a);
        }
    }
    // A non-empty table, next to hand-made waves of size 0, 1 and 2.
    let prototypes = vec![Prototype::new(0, Equivalences::FullTurn)];
    let base = extract_rules(&rule_grid);
    let table = wfc_core::rules::expand_with_rotations(&base, &prototypes);
    let mut grid = WaveGrid::new(2, 2);
    grid.reset(&table);
    assert!(matches!(grid.cell_state(0, &table), CellState::Undecided(n) if n > 1));
    let mut single = TileSet::new();
    single.insert(a);
    grid.cells[1].tiles = single;
    assert_eq!(grid.cell_state(1, &table), CellState::Resolved(a));
    grid.cells[2].tiles = TileSet::new();
    assert_eq!(grid.cell_state(2, &table), CellState::Impossible);
}

#[test]
fn observe_keeps_one_existing_candidate() {
    let mut wave = TileSet::new();
    let t0 = Tile::new(0, Orientation::North);
    let t1 = Tile::new(1, Orientation::East);
    let t2 = Tile::new(2, Orientation::South);
    wave.insert(t0);
    wave.insert(t1);
    wave.insert(t2);
    for _ in 0..20 {
        let mut w = wave.clone();
        observe(&mut w);
        assert_eq!(w.len(), 1);
        let kept = w.index(0);
        assert!(kept == t0 || kept == t1 || kept == t2);
    }
}

#[test]
fn min_entropy_skips_resolved_and_impossible_cells() {
    let a = Tile::new(0, Orientation::North);
    let b = Tile::new(1, Orientation::North);
    let mut grid = WaveGrid::new(2, 2);
    // Cell 0: impossible; cell 1: resolved; cells 2 and 3: undecided.
    let mut one = TileSet::new();
    one.insert(a);
    let mut two = TileSet::new();
    two.insert(a);
    two.insert(b);
    grid.cells[1].tiles = one;
    grid.cells[2].tiles = two.clone();
    grid.cells[3].tiles = two;
    let mins = min_entropy_cells(&grid);
    assert_eq!(mins, vec![2, 3]);
}

#[test]
fn guess_history_is_bounded() {
    let mut h = GuessHistory::new();
    let t = Tile::new(0, Orientation::North);
    h.record(0, t, 2);
    h.record(1, t, 2);
    h.record(2, t, 2);
    assert_eq!(h.history.len(), 2);
    assert_eq!(h.history[0], (1, t));
    assert_eq!(h.history[1], (2, t));
    let mut h0 = GuessHistory::default();
    h0.record(9, t, 0);
    assert_eq!(h0.history.len(), 0);
}

#[test]
fn superposition_history_is_bounded() {
    let mut h = TileSuperpositionHistory::new();
    let mut w = TileSet::new();
    w.insert(Tile::new(0, Orientation::North));
    h.record(w.clone(), 1);
    h.record(w.clone(), 1);
    assert_eq!(h.history.len(), 1);
    let empty = TileSuperpositionHistory::default();
    assert_eq!(empty.history.len(), 0);
}

#[test]
fn settled_cells_survive_pending_propagation() {
    // A grid whose every cell is already resolved or impossible loses no
    // candidate when the remaining dirty flags are drained.
    let a = Tile::new(0, Orientation::North);
    let mut rule_grid = RuleGrid::new(2, 2);
    for x in 0..2 {
        for y in 0..2 {
            place(&mut rule_grid, x, y, a);
        }
    }
    let base = extract_rules(&rule_grid);
    let prototypes = vec![Prototype::new(0, Equivalences::QuarterTurn)];
    let table = wfc_core::rules::expand_with_rotations(&base, &prototypes);
    let mut grid = WaveGrid::new(2, 2);
    grid.reset(&table);
    // Universe of one tile: every cell is already resolved.
    for i in 0..grid.len() {
        assert_eq!(grid.entropy(i), 1);
    }
    grid.cells[0].dirty = true;
    grid.cells[3].dirty = true;
    propagate_to_fixpoint(&mut grid, &table);
    for i in 0..grid.len() {
        assert_eq!(grid.entropy(i), 1);
        assert!(!grid.cells[i].dirty);
        assert_eq!(grid.cell_state(i, &table), CellState::Resolved(a));
    }
}

#[test]
fn tuning_defaults() {
    let t = Tuning::default();
    assert_eq!(t.collapse_per_frame, 100);
    assert_eq!(t.backtrack_history_size, 100);
}

#[test]
fn collapse_records_guesses() {
    let a = Tile::new(0, Orientation::North);
    let b = Tile::new(1, Orientation::North);
    let prototypes = vec![
        Prototype::new(0, Equivalences::FullTurn),
        Prototype::new(1, Equivalences::FullTurn),
    ];
    let mut rules = Rules::new(2, 1, prototypes);
    let mut rule_grid = RuleGrid::new(2, 1);
    place(&mut rule_grid, 1, 0, a);
    place(&mut rule_grid, 0, 0, b);
    let mut grid = WaveGrid::new(2, 1);
    let tuning = Tuning::default();
    let mut history = GuessHistory::new();
    // The first tick rebuilds the rules and makes the first observation.
    collapse(&mut rules, &mut rule_grid, &mut grid, &tuning, &mut history);
    assert_eq!(history.history.len(), 1);
}
