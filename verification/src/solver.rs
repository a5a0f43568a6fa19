//! The solver: entropy-driven observation of the least-uncertain cell and
//! dirty-queue constraint propagation, tick by tick.

use crate::grid::{lemma_neighbour_links, TileSuperposition, WaveGrid};
use crate::history::GuessHistory;
use crate::rules::{
    expanded_adjacent, expanded_has, lemma_allows_at, rebuild_rules, AdjacencyTable, RuleGrid,
    Rules,
};
use crate::tile::{Orientation, Tile};
use crate::tileset::{intersection, lemma_same_len_subset_equal, TileSet};
use vstd::prelude::*;

verus! {

/// The solver's tuning knobs: how many propagation steps one tick may
/// spend, and how many history entries the backtracking logs retain.
#[derive(Clone, Copy, Debug)]
pub struct Tuning {
    pub collapse_per_frame: usize,
    pub backtrack_history_size: usize,
}

impl Default for Tuning {
    fn default() -> (r: Self)
        ensures
            r.collapse_per_frame == 100,
            r.backtrack_history_size == 100,
    {
        Tuning { collapse_per_frame: 100, backtrack_history_size: 100 }
    }
}

/// What a bounded solver pass reports: whether the grid reached a fixpoint
/// (no cell left dirty) or ran out of its step budget first.
#[derive(Clone, Copy, PartialEq, Eq, Structural, Debug)]
pub enum Progress {
    Fixpoint,
    Pending,
}

/// Relies on rand::thread_rng and rand::Rng::gen_range: a uniformly
/// distributed integer below `n`, from the thread-local generator.
#[verifier::external_body]
fn random_below(n: usize) -> (r: usize)
    requires
        n >= 1,
    ensures
        r < n,
{
    rand::Rng::gen_range(&mut rand::thread_rng(), 0..n)
}

/// The total number of candidates over all cells.
pub open spec fn total_entropy(cells: Seq<TileSuperposition>) -> nat
    decreases cells.len(),
{
    if cells.len() == 0 {
        0
    } else {
        cells[0].tiles@.len() + total_entropy(cells.drop_first())
    }
}

/// The number of cells awaiting propagation.
pub open spec fn dirty_count(cells: Seq<TileSuperposition>) -> nat
    decreases cells.len(),
{
    if cells.len() == 0 {
        0
    } else {
        (if cells[0].dirty {
            1nat
        } else {
            0nat
        }) + dirty_count(cells.drop_first())
    }
}

/// The termination measure of propagation: every step either shrinks some
/// wave or only clears a dirty flag, so this strictly decreases.
pub open spec fn propagation_measure(cells: Seq<TileSuperposition>) -> nat {
    2 * total_entropy(cells) + dirty_count(cells)
}

/// Replacing one cell trades its candidate count for the new one.
proof fn lemma_total_entropy_update(cells: Seq<TileSuperposition>, j: int, c: TileSuperposition)
    requires
        0 <= j < cells.len(),
    ensures
        total_entropy(cells.update(j, c)) + cells[j].tiles@.len() == total_entropy(cells)
            + c.tiles@.len(),
    decreases cells.len(),
{
    if j == 0 {
        assert(cells.update(0, c).drop_first() =~= cells.drop_first());
    } else {
        assert(cells.update(j, c).drop_first() =~= cells.drop_first().update(j - 1, c));
        lemma_total_entropy_update(cells.drop_first(), j - 1, c);
        assert(cells.update(j, c)[0] == cells[0]);
    }
}

/// Replacing one cell trades its dirty bit for the new one.
proof fn lemma_dirty_count_update(cells: Seq<TileSuperposition>, j: int, c: TileSuperposition)
    requires
        0 <= j < cells.len(),
    ensures
        dirty_count(cells.update(j, c)) + (if cells[j].dirty {
            1nat
        } else {
            0nat
        }) == dirty_count(cells) + (if c.dirty {
            1nat
        } else {
            0nat
        }),
    decreases cells.len(),
{
    if j == 0 {
        assert(cells.update(0, c).drop_first() =~= cells.drop_first());
    } else {
        assert(cells.update(j, c).drop_first() =~= cells.drop_first().update(j - 1, c));
        lemma_dirty_count_update(cells.drop_first(), j - 1, c);
        assert(cells.update(j, c)[0] == cells[0]);
    }
}

/// Some candidate of `wave` allows `t2` as its neighbour in direction `o`.
pub open spec fn wave_allows(
    wave: Seq<Tile>,
    table: AdjacencyTable,
    o: Orientation,
    t2: Tile,
) -> bool {
    exists|t1: Tile| #[trigger] table.allows(t1, o, t2) && wave.contains(t1)
}

/// The union of the allowed-neighbour sets, in direction `o`, of every
/// candidate of `wave`.
fn union_allowed(wave: &TileSet, table: &AdjacencyTable, o: Orientation) -> (u: TileSet)
    requires
        wave.wf(),
        table.wf(),
        forall|t: Tile| #[trigger] wave@.contains(t) ==> table.contains_key(t),
    ensures
        u.wf(),
        forall|t2: Tile| #[trigger] u@.contains(t2) <==> wave_allows(wave@, *table, o, t2),
{
    let mut u = TileSet::new();
    let mut ti: usize = 0;
    while ti < wave.len()
        invariant
            wave.wf(),
            table.wf(),
            u.wf(),
            ti <= wave@.len(),
            forall|t: Tile| #[trigger] wave@.contains(t) ==> table.contains_key(t),
            forall|t2: Tile|
                #[trigger] u@.contains(t2) <==> exists|tj: int|
                    0 <= tj < ti && table.allows(#[trigger] wave@[tj], o, t2),
        decreases wave@.len() - ti,
    {
        let t1 = wave.index(ti);
        let found = table.find(&t1);
        match found {
            Some(ei) => {
                let ghost before = u@;
                u.union_with(table.entries[ei].1.get(o));
                proof {
                    lemma_allows_at(*table, ei as int, o);
                    assert(table.entries@[ei as int].0 == t1);
                    assert forall|t2: Tile|
                        u@.contains(t2) <==> exists|tj: int|
                            0 <= tj < ti + 1 && table.allows(#[trigger] wave@[tj], o, t2) by {
                        if u@.contains(t2) {
                            if before.contains(t2) {
                                let tj = choose|tj: int|
                                    0 <= tj < ti && table.allows(#[trigger] wave@[tj], o, t2);
                                assert(table.allows(wave@[tj], o, t2));
                            } else {
                                assert(table.entries@[ei as int].1.spec_get(o).contains(t2));
                                assert(table.allows(wave@[ti as int], o, t2));
                            }
                        }
                        if exists|tj: int|
                            0 <= tj < ti + 1 && table.allows(#[trigger] wave@[tj], o, t2) {
                            let tj = choose|tj: int|
                                0 <= tj < ti + 1 && table.allows(#[trigger] wave@[tj], o, t2);
                            if tj < ti {
                                assert(before.contains(t2));
                            } else {
                                assert(table.allows(t1, o, t2));
                                assert(table.entries@[ei as int].1.spec_get(o).contains(t2));
                            }
                            assert(u@.contains(t2));
                        }
                    }
                }
            },
            None => {
                proof {
                    assert(wave@.contains(t1));
                    assert(false);
                }
            },
        }
        ti += 1;
    }
    proof {
        assert forall|t2: Tile|
            u@.contains(t2) <==> wave_allows(wave@, *table, o, t2) by {
            if u@.contains(t2) {
                let tj = choose|tj: int|
                    0 <= tj < wave@.len() && table.allows(#[trigger] wave@[tj], o, t2);
                assert(wave@.contains(wave@[tj]));
                assert(table.allows(wave@[tj], o, t2));
            }
            if wave_allows(wave@, *table, o, t2) {
                let t1 = choose|t1: Tile| #[trigger] table.allows(t1, o, t2) && wave@.contains(t1);
                let tj = choose|tj: int| 0 <= tj < wave@.len() && wave@[tj] == t1;
                assert(table.allows(wave@[tj], o, t2));
            }
        }
    }
    u
}

/// `j` is the recorded neighbour of `i` in direction `o`.
pub open spec fn link_to(g: WaveGrid, i: int, o: Orientation, j: int) -> bool {
    match g.connectivity@[i].spec_get(o) {
        Some(n) => n == j,
        None => false,
    }
}

/// The effect of one propagation step on the neighbour of cell `i` in
/// direction `o`, if there is one: a neighbour still holding more than one
/// candidate keeps exactly those of its candidates that some candidate of
/// the source wave allows; it is marked dirty when that shrank it to a
/// non-empty set and untouched when nothing shrank. A neighbour that is
/// already resolved or impossible is never restricted further.
pub open spec fn propagated_ok(
    g0: WaveGrid,
    g1: WaveGrid,
    table: AdjacencyTable,
    wave: Seq<Tile>,
    i: int,
    o: Orientation,
) -> bool {
    match g0.connectivity@[i].spec_get(o) {
        Some(n) => {
            let c0 = g0.cells@[n as int];
            let c1 = g1.cells@[n as int];
            if c0.tiles@.len() <= 1 {
                c1 == c0
            } else {
                &&& forall|t2: Tile|
                    #[trigger] c1.tiles@.contains(t2) <==> c0.tiles@.contains(t2) && wave_allows(
                        wave,
                        table,
                        o,
                        t2,
                    )
                &&& (c1.tiles@.len() == c0.tiles@.len() ==> c1 == c0)
                &&& (c1.tiles@.len() != c0.tiles@.len() ==> c1.dirty == (c1.tiles@.len() > 0
                    || c0.dirty))
            }
        },
        None => true,
    }
}

/// `propagated_ok` only reads the connectivity entry and the two values of
/// the neighbour cell, so it carries over to any pair of states that agree
/// there.
proof fn lemma_propagated_frame(
    ga: WaveGrid,
    gb: WaveGrid,
    g0: WaveGrid,
    g1: WaveGrid,
    table: AdjacencyTable,
    wave: Seq<Tile>,
    i: int,
    o: Orientation,
)
    requires
        propagated_ok(ga, gb, table, wave, i, o),
        ga.connectivity@[i].spec_get(o) == g0.connectivity@[i].spec_get(o),
        match g0.connectivity@[i].spec_get(o) {
            Some(n) => ga.cells@[n as int] == g0.cells@[n as int] && gb.cells@[n as int]
                == g1.cells@[n as int],
            None => true,
        },
    ensures
        propagated_ok(g0, g1, table, wave, i, o),
{
}

/// Restrict the neighbour of cell `i` in direction `o` (if any) to the
/// candidates that `wave`, the source cell's superposition, still allows
/// there.
fn propagate_one(
    grid: &mut WaveGrid,
    table: &AdjacencyTable,
    i: usize,
    o: Orientation,
    wave: &TileSet,
)
    requires
        old(grid).wf(),
        table.wf(),
        i < old(grid).cells@.len(),
        wave.wf(),
        wave@ == old(grid).cells@[i as int].tiles@,
        wave@.len() > 0,
        old(grid).waves_in(*table),
    ensures
        final(grid).wf(),
        final(grid).width == old(grid).width,
        final(grid).height == old(grid).height,
        final(grid).connectivity == old(grid).connectivity,
        final(grid).cells@.len() == old(grid).cells@.len(),
        final(grid).waves_in(*table),
        forall|j: int|
            0 <= j < final(grid).cells@.len() && !link_to(*old(grid), i as int, o, j)
                ==> final(grid).cells@[j] == old(grid).cells@[j],
        forall|j: int, t: Tile|
            0 <= j < final(grid).cells@.len() && #[trigger] final(grid).cells@[j].tiles@.contains(
                t,
            ) ==> old(grid).cells@[j].tiles@.contains(t),
        forall|j: int|
            0 <= j < final(grid).cells@.len() ==> (#[trigger] final(grid).cells@[j]).tiles@.len()
                <= old(grid).cells@[j].tiles@.len(),
        propagated_ok(*old(grid), *final(grid), *table, wave@, i as int, o),
        propagation_measure(final(grid).cells@) <= propagation_measure(old(grid).cells@),
{
    let link = grid.connectivity[i].get(o);
    match link {
        None => {},
        Some(n) => {
            proof {
                lemma_neighbour_links(*grid, i as int);
            }
            let ne = grid.cells[n].tiles.len();
            if ne > 1 {
                let u = union_allowed(wave, table, o);
                let new_wave = intersection(&grid.cells[n].tiles, &u);
                let nl = new_wave.len();
                if nl != ne {
                    let ghost cells0 = grid.cells@;
                    let was_dirty = grid.cells[n].dirty;
                    let c = &mut grid.cells[n];
                    *c = TileSuperposition { tiles: new_wave, dirty: nl > 0 || was_dirty };
                    proof {
                        let cnew = grid.cells@[n as int];
                        assert(grid.cells@ == cells0.update(n as int, cnew));
                        lemma_total_entropy_update(cells0, n as int, cnew);
                        lemma_dirty_count_update(cells0, n as int, cnew);
                        assert(nl < ne) by {
                            assert(new_wave@.len() <= cells0[n as int].tiles@.len());
                        }
                        assert(2 * total_entropy(grid.cells@) + dirty_count(grid.cells@) <= 2
                            * total_entropy(cells0) + dirty_count(cells0)) by {
                            assert(total_entropy(grid.cells@) + ne == total_entropy(cells0) + nl);
                            assert(dirty_count(grid.cells@) + (if cells0[n as int].dirty {
                                1nat
                            } else {
                                0nat
                            }) == dirty_count(cells0) + (if cnew.dirty {
                                1nat
                            } else {
                                0nat
                            }));
                        }
                        assert forall|j: int|
                            0 <= j < grid.cells@.len() implies (
                        #[trigger] grid.cells@[j]).tiles.wf() by {
                            if j != n {
                                assert(grid.cells@[j] == cells0[j]);
                            }
                        }
                        assert forall|j: int, t: Tile|
                            0 <= j < grid.cells@.len() && #[trigger] grid.cells@[j].tiles@.contains(
                                t,
                            ) implies old(grid).cells@[j].tiles@.contains(t) by {
                            if j != n {
                                assert(grid.cells@[j] == cells0[j]);
                            }
                        }
                        assert forall|j: int|
                            0 <= j < grid.cells@.len() implies (
                        #[trigger] grid.cells@[j]).tiles@.len()
                            <= old(grid).cells@[j].tiles@.len() by {
                            if j != n {
                                assert(grid.cells@[j] == cells0[j]);
                            }
                        }
                    }
                } else {
                    proof {
                        assert forall|t2: Tile|
                            grid.cells@[n as int].tiles@.contains(t2) implies new_wave@.contains(
                            t2,
                        ) by {
                            lemma_same_len_subset_equal(new_wave@, grid.cells@[n as int].tiles@);
                        }
                        assert(propagated_ok(*old(grid), *grid, *table, wave@, i as int, o)) by {
                            let c0 = old(grid).cells@[n as int];
                            assert forall|t2: Tile|
                                #[trigger] c0.tiles@.contains(t2) implies c0.tiles@.contains(t2)
                                && wave_allows(wave@, *table, o, t2) by {
                                assert(new_wave@.contains(t2));
                                assert(u@.contains(t2));
                            }
                        }
                    }
                }
            }
        },
    }
}

/// `j` is some recorded neighbour of cell `i`.
pub open spec fn is_neighbour(g: WaveGrid, i: int, j: int) -> bool {
    exists|o: Orientation| #[trigger] link_to(g, i, o, j)
}

/// Every cell is already resolved or impossible: no candidate set holds
/// more than one tile.
pub open spec fn settled(g: WaveGrid) -> bool {
    forall|j: int| 0 <= j < g.cells@.len() ==> (#[trigger] g.cells@[j]).tiles@.len() <= 1
}

/// One whole propagation step, as `propagate_cell` performs it: a dirty
/// cell `i` of `g0` has its flag cleared and its own wave kept; each of its
/// neighbours is restricted per `propagated_ok`; every other cell is
/// untouched; and an exhausted source touches no neighbour at all.
pub open spec fn propagate_cell_ok(
    g0: WaveGrid,
    g1: WaveGrid,
    table: AdjacencyTable,
    i: int,
) -> bool {
    &&& 0 <= i < g0.cells@.len()
    &&& g0.cells@[i].dirty
    &&& g1.width == g0.width
    &&& g1.height == g0.height
    &&& g1.connectivity == g0.connectivity
    &&& g1.cells@.len() == g0.cells@.len()
    &&& !g1.cells@[i].dirty
    &&& g1.cells@[i].tiles == g0.cells@[i].tiles
    &&& forall|j: int|
        0 <= j < g1.cells@.len() && j != i && !is_neighbour(g0, i, j) ==> g1.cells@[j]
            == g0.cells@[j]
    &&& (g0.cells@[i].tiles@.len() > 0 ==> forall|o: Orientation|
        #[trigger] propagated_ok(g0, g1, table, g0.cells@[i].tiles@, i, o))
    &&& (g0.cells@[i].tiles@.len() == 0 ==> forall|j: int|
        0 <= j < g1.cells@.len() && j != i ==> g1.cells@[j] == g0.cells@[j])
}

/// Some dirty cell of `g0` was processed to give `g1`.
pub open spec fn step_ok(g0: WaveGrid, g1: WaveGrid, table: AdjacencyTable) -> bool {
    exists|i: int| #[trigger] propagate_cell_ok(g0, g1, table, i)
}

/// `g1` arises from `g0` by a chain of `n` propagation steps.
pub open spec fn steps_ok(g0: WaveGrid, g1: WaveGrid, table: AdjacencyTable, n: nat) -> bool
    decreases n,
{
    if n == 0 {
        g1 == g0
    } else {
        exists|gm: WaveGrid|
            steps_ok(g0, gm, table, (n - 1) as nat) && #[trigger] step_ok(gm, g1, table)
    }
}

/// One more step extends a chain of steps.
proof fn lemma_steps_ok_extend(
    g0: WaveGrid,
    gm: WaveGrid,
    g1: WaveGrid,
    table: AdjacencyTable,
    n: nat,
)
    requires
        steps_ok(g0, gm, table, n),
        step_ok(gm, g1, table),
    ensures
        steps_ok(g0, g1, table, n + 1),
{
    reveal_with_fuel(steps_ok, 2);
    assert(steps_ok(g0, gm, table, ((n + 1) - 1) as nat) && step_ok(gm, g1, table));
    assert(steps_ok(g0, g1, table, n + 1));
}

/// Process one dirty cell: restrict each of its at most four undecided
/// neighbours to the candidates its own wave still allows there, then clear
/// the cell's dirty flag. An exhausted source restricts nothing: a
/// contradiction is terminal and must not cascade outward.
pub fn propagate_cell(grid: &mut WaveGrid, table: &AdjacencyTable, i: usize)
    requires
        old(grid).wf(),
        table.wf(),
        i < old(grid).cells@.len(),
        old(grid).cells@[i as int].dirty,
        old(grid).waves_in(*table),
    ensures
        final(grid).wf(),
        final(grid).width == old(grid).width,
        final(grid).height == old(grid).height,
        final(grid).connectivity == old(grid).connectivity,
        final(grid).cells@.len() == old(grid).cells@.len(),
        final(grid).waves_in(*table),
        forall|j: int, t: Tile|
            0 <= j < final(grid).cells@.len() && #[trigger] final(grid).cells@[j].tiles@.contains(
                t,
            ) ==> old(grid).cells@[j].tiles@.contains(t),
        forall|j: int|
            0 <= j < final(grid).cells@.len() ==> (#[trigger] final(grid).cells@[j]).tiles@.len()
                <= old(grid).cells@[j].tiles@.len(),
        !final(grid).cells@[i as int].dirty,
        final(grid).cells@[i as int].tiles@ == old(grid).cells@[i as int].tiles@,
        old(grid).cells@[i as int].tiles@.len() > 0 ==> forall|o: Orientation|
            #[trigger] propagated_ok(
                *old(grid),
                *final(grid),
                *table,
                old(grid).cells@[i as int].tiles@,
                i as int,
                o,
            ),
        old(grid).cells@[i as int].tiles@.len() == 0 ==> forall|j: int|
            0 <= j < final(grid).cells@.len() && j != i ==> final(grid).cells@[j] == old(
                grid,
            ).cells@[j],
        forall|j: int|
            0 <= j < final(grid).cells@.len() && j != i && !is_neighbour(*old(grid), i as int, j)
                ==> final(grid).cells@[j] == old(grid).cells@[j],
        propagate_cell_ok(*old(grid), *final(grid), *table, i as int),
        forall|j: int|
            0 <= j < final(grid).cells@.len() && old(grid).cells@[j].tiles@.len() <= 1 ==> (
            #[trigger] final(grid).cells@[j]).tiles == old(grid).cells@[j].tiles,
        settled(*old(grid)) ==> forall|j: int|
            0 <= j < final(grid).cells@.len() ==> (#[trigger] final(grid).cells@[j]).tiles == old(
                grid,
            ).cells@[j].tiles,
        propagation_measure(final(grid).cells@) < propagation_measure(old(grid).cells@),
{
    proof {
        lemma_neighbour_links(*grid, i as int);
    }
    let wave = grid.cells[i].tiles.clone();
    if wave.len() > 0 {
        let ghost g0 = *grid;
        propagate_one(grid, table, i, Orientation::North, &wave);
        let ghost g1 = *grid;
        proof {
            assert(g1.cells@[i as int] == g0.cells@[i as int]);
        }
        propagate_one(grid, table, i, Orientation::East, &wave);
        let ghost g2 = *grid;
        proof {
            assert(g2.cells@[i as int] == g0.cells@[i as int]);
        }
        propagate_one(grid, table, i, Orientation::South, &wave);
        let ghost g3 = *grid;
        proof {
            assert(g3.cells@[i as int] == g0.cells@[i as int]);
        }
        propagate_one(grid, table, i, Orientation::West, &wave);
        let ghost g4 = *grid;
        proof {
            assert(g4.cells@[i as int] == g0.cells@[i as int]);
        }
        let ghost cells4 = grid.cells@;
        let c = &mut grid.cells[i];
        c.dirty = false;
        proof {
            let cnew = grid.cells@[i as int];
            assert(cnew.tiles == cells4[i as int].tiles);
            assert(!cnew.dirty);
            assert(grid.cells@ == cells4.update(i as int, cnew));
            lemma_total_entropy_update(cells4, i as int, cnew);
            lemma_dirty_count_update(cells4, i as int, cnew);
            assert(cells4[i as int].dirty);
            assert(propagation_measure(grid.cells@) < propagation_measure(g4.cells@));
            // frame facts for the per-direction transfer
            let conn = g0.connectivity@[i as int];
            assert forall|j: int|
                0 <= j < grid.cells@.len() && j != i && !link_to(g0, i as int, Orientation::North, j)
                    && !link_to(g0, i as int, Orientation::East, j) && !link_to(
                    g0,
                    i as int,
                    Orientation::South,
                    j,
                ) && !link_to(g0, i as int, Orientation::West, j) implies grid.cells@[j]
                == g0.cells@[j] by {}
            assert forall|o: Orientation|
                propagated_ok(
                    g0,
                    *grid,
                    *table,
                    g0.cells@[i as int].tiles@,
                    i as int,
                    o,
                ) by {
                match conn.spec_get(o) {
                    Some(n) => {
                        assert(n != i);
                        match o {
                            Orientation::North => {
                                assert(!link_to(g1, i as int, Orientation::East, n as int));
                                assert(!link_to(g2, i as int, Orientation::South, n as int));
                                assert(!link_to(g3, i as int, Orientation::West, n as int));
                                assert(g4.cells@[n as int] == g1.cells@[n as int]);
                                assert(grid.cells@[n as int] == g1.cells@[n as int]);
                                lemma_propagated_frame(
                                    g0,
                                    g1,
                                    g0,
                                    *grid,
                                    *table,
                                    wave@,
                                    i as int,
                                    o,
                                );
                            },
                            Orientation::East => {
                                assert(!link_to(g0, i as int, Orientation::North, n as int));
                                assert(g1.cells@[n as int] == g0.cells@[n as int]);
                                assert(!link_to(g2, i as int, Orientation::South, n as int));
                                assert(!link_to(g3, i as int, Orientation::West, n as int));
                                assert(g4.cells@[n as int] == g2.cells@[n as int]);
                                assert(grid.cells@[n as int] == g2.cells@[n as int]);
                                lemma_propagated_frame(
                                    g1,
                                    g2,
                                    g0,
                                    *grid,
                                    *table,
                                    wave@,
                                    i as int,
                                    o,
                                );
                            },
                            Orientation::South => {
                                assert(!link_to(g0, i as int, Orientation::North, n as int));
                                assert(!link_to(g1, i as int, Orientation::East, n as int));
                                assert(g2.cells@[n as int] == g0.cells@[n as int]);
                                assert(!link_to(g3, i as int, Orientation::West, n as int));
                                assert(g4.cells@[n as int] == g3.cells@[n as int]);
                                assert(grid.cells@[n as int] == g3.cells@[n as int]);
                                lemma_propagated_frame(
                                    g2,
                                    g3,
                                    g0,
                                    *grid,
                                    *table,
                                    wave@,
                                    i as int,
                                    o,
                                );
                            },
                            Orientation::West => {
                                assert(!link_to(g0, i as int, Orientation::North, n as int));
                                assert(!link_to(g1, i as int, Orientation::East, n as int));
                                assert(!link_to(g2, i as int, Orientation::South, n as int));
                                assert(g3.cells@[n as int] == g0.cells@[n as int]);
                                assert(grid.cells@[n as int] == g4.cells@[n as int]);
                                lemma_propagated_frame(
                                    g3,
                                    g4,
                                    g0,
                                    *grid,
                                    *table,
                                    wave@,
                                    i as int,
                                    o,
                                );
                            },
                        }
                    },
                    None => {},
                }
            }
            assert forall|j: int|
                0 <= j < grid.cells@.len() implies (#[trigger] grid.cells@[j]).tiles.wf() by {
                if j != i {
                    assert(grid.cells@[j] == cells4[j]);
                }
            }
            assert forall|j: int, t: Tile|
                0 <= j < grid.cells@.len() && #[trigger] grid.cells@[j].tiles@.contains(
                    t,
                ) implies g0.cells@[j].tiles@.contains(t) by {
                if j == i {
                    assert(grid.cells@[j].tiles == cells4[j].tiles);
                }
                assert(cells4[j].tiles@.contains(t));
            }
            assert forall|j: int|
                0 <= j < grid.cells@.len() implies (#[trigger] grid.cells@[j]).tiles@.len()
                <= g0.cells@[j].tiles@.len() by {
                if j == i {
                    assert(grid.cells@[j].tiles == cells4[j].tiles);
                }
                assert(cells4[j].tiles@.len() <= g0.cells@[j].tiles@.len());
            }
            assert forall|j: int|
                0 <= j < grid.cells@.len() && j != i && !is_neighbour(
                    g0,
                    i as int,
                    j,
                ) implies grid.cells@[j] == g0.cells@[j] by {
                assert(!link_to(g0, i as int, Orientation::North, j));
                assert(!link_to(g0, i as int, Orientation::East, j));
                assert(!link_to(g0, i as int, Orientation::South, j));
                assert(!link_to(g0, i as int, Orientation::West, j));
            }
            assert(propagate_cell_ok(g0, *grid, *table, i as int));
            assert forall|j: int|
                0 <= j < grid.cells@.len() && g0.cells@[j].tiles@.len() <= 1 implies (
            #[trigger] grid.cells@[j]).tiles == g0.cells@[j].tiles by {
                if j != i && is_neighbour(g0, i as int, j) {
                    let o = choose|o: Orientation| #[trigger] link_to(g0, i as int, o, j);
                    assert(propagated_ok(
                        g0,
                        *grid,
                        *table,
                        g0.cells@[i as int].tiles@,
                        i as int,
                        o,
                    ));
                }
            }
        }
    } else {
        let ghost cells0 = grid.cells@;
        let c = &mut grid.cells[i];
        c.dirty = false;
        proof {
            let cnew = grid.cells@[i as int];
            assert(cnew.tiles == cells0[i as int].tiles);
            assert(grid.cells@ == cells0.update(i as int, cnew));
            lemma_total_entropy_update(cells0, i as int, cnew);
            lemma_dirty_count_update(cells0, i as int, cnew);
            assert(propagation_measure(grid.cells@) < propagation_measure(cells0));
            assert forall|j: int|
                0 <= j < grid.cells@.len() implies (#[trigger] grid.cells@[j]).tiles.wf() by {
                if j != i {
                    assert(grid.cells@[j] == cells0[j]);
                }
            }
            assert forall|j: int, t: Tile|
                0 <= j < grid.cells@.len() && #[trigger] grid.cells@[j].tiles@.contains(
                    t,
                ) implies old(grid).cells@[j].tiles@.contains(t) by {
                if j == i {
                    assert(grid.cells@[j].tiles == cells0[j].tiles);
                }
            }
            assert forall|j: int|
                0 <= j < grid.cells@.len() implies (#[trigger] grid.cells@[j]).tiles@.len()
                <= old(grid).cells@[j].tiles@.len() by {
                if j == i {
                    assert(grid.cells@[j].tiles == cells0[j].tiles);
                }
            }
            assert(propagate_cell_ok(*old(grid), *grid, *table, i as int));
            assert forall|j: int|
                0 <= j < grid.cells@.len() implies (#[trigger] grid.cells@[j]).tiles == old(
                grid,
            ).cells@[j].tiles by {
                if j != i {
                    assert(grid.cells@[j] == cells0[j]);
                }
            }
        }
    }
}

/// Find some cell awaiting propagation.
fn find_dirty(grid: &WaveGrid) -> (r: Option<usize>)
    ensures
        match r {
            Some(i) => i < grid.cells@.len() && grid.cells@[i as int].dirty,
            None => grid.no_dirty(),
        },
{
    let mut i: usize = 0;
    while i < grid.cells.len()
        invariant
            i <= grid.cells@.len(),
            forall|j: int| 0 <= j < i ==> !(#[trigger] grid.cells@[j]).dirty,
        decreases grid.cells@.len() - i,
    {
        if grid.cells[i].dirty {
            return Some(i);
        }
        i += 1;
    }
    None
}

/// Run up to `max_steps` propagation steps, each processing one dirty cell,
/// and report whether the dirty set was fully drained. The whole effect is a
/// chain of `propagate_cell` steps (`steps_ok`): a cell's entropy never
/// increases along the way, a resolved or impossible cell keeps its wave,
/// and a pass over a grid with no dirty cell changes nothing at all.
pub fn propagate(grid: &mut WaveGrid, table: &AdjacencyTable, max_steps: usize) -> (p: Progress)
    requires
        old(grid).wf(),
        table.wf(),
        old(grid).waves_in(*table),
    ensures
        final(grid).wf(),
        final(grid).width == old(grid).width,
        final(grid).height == old(grid).height,
        final(grid).connectivity == old(grid).connectivity,
        final(grid).cells@.len() == old(grid).cells@.len(),
        final(grid).waves_in(*table),
        forall|j: int, t: Tile|
            0 <= j < final(grid).cells@.len() && #[trigger] final(grid).cells@[j].tiles@.contains(
                t,
            ) ==> old(grid).cells@[j].tiles@.contains(t),
        forall|j: int|
            0 <= j < final(grid).cells@.len() ==> (#[trigger] final(grid).cells@[j]).tiles@.len()
                <= old(grid).cells@[j].tiles@.len(),
        p == Progress::Fixpoint <==> final(grid).no_dirty(),
        old(grid).no_dirty() ==> final(grid).cells@ == old(grid).cells@ && p == Progress::Fixpoint,
        max_steps >= 1 && !old(grid).no_dirty() ==> propagation_measure(final(grid).cells@)
            < propagation_measure(old(grid).cells@),
        exists|n: nat| n <= max_steps && #[trigger] steps_ok(*old(grid), *final(grid), *table, n),
        forall|j: int|
            0 <= j < final(grid).cells@.len() && old(grid).cells@[j].tiles@.len() <= 1 ==> (
            #[trigger] final(grid).cells@[j]).tiles == old(grid).cells@[j].tiles,
        settled(*old(grid)) ==> forall|j: int|
            0 <= j < final(grid).cells@.len() ==> (#[trigger] final(grid).cells@[j]).tiles == old(
                grid,
            ).cells@[j].tiles,
{
    let ghost mut n: nat = 0;
    let mut steps: usize = 0;
    while steps < max_steps
        invariant
            grid.wf(),
            table.wf(),
            grid.waves_in(*table),
            grid.width == old(grid).width,
            grid.height == old(grid).height,
            grid.connectivity == old(grid).connectivity,
            grid.cells@.len() == old(grid).cells@.len(),
            steps <= max_steps,
            forall|j: int, t: Tile|
                0 <= j < grid.cells@.len() && #[trigger] grid.cells@[j].tiles@.contains(t)
                    ==> old(grid).cells@[j].tiles@.contains(t),
            forall|j: int|
                0 <= j < grid.cells@.len() ==> (#[trigger] grid.cells@[j]).tiles@.len() <= old(
                    grid,
                ).cells@[j].tiles@.len(),
            old(grid).no_dirty() ==> grid.cells@ == old(grid).cells@,
            steps == 0 ==> grid.cells@ == old(grid).cells@,
            steps > 0 ==> propagation_measure(grid.cells@) < propagation_measure(
                old(grid).cells@,
            ),
            n <= steps,
            steps_ok(*old(grid), *grid, *table, n),
            forall|j: int|
                0 <= j < grid.cells@.len() && old(grid).cells@[j].tiles@.len() <= 1 ==> (
                #[trigger] grid.cells@[j]).tiles == old(grid).cells@[j].tiles,
        decreases max_steps - steps,
    {
        let d = find_dirty(grid);
        match d {
            None => {
                proof {
                    if steps == 0 && !old(grid).no_dirty() {
                        let j = choose|j: int|
                            0 <= j < old(grid).cells@.len() && (#[trigger] old(
                                grid,
                            ).cells@[j]).dirty;
                        assert(grid.cells@[j].dirty);
                        assert(false);
                    }
                }
                return Progress::Fixpoint;
            },
            Some(di) => {
                proof {
                    if old(grid).no_dirty() {
                        assert(!old(grid).cells@[di as int].dirty);
                        assert(false);
                    }
                }
                let ghost gprev = *grid;
                propagate_cell(grid, table, di);
                proof {
                    assert(step_ok(gprev, *grid, *table)) by {
                        assert(propagate_cell_ok(gprev, *grid, *table, di as int));
                    }
                    lemma_steps_ok_extend(*old(grid), gprev, *grid, *table, n);
                    n = n + 1;
                    assert forall|j: int|
                        0 <= j < grid.cells@.len() && old(grid).cells@[j].tiles@.len()
                        <= 1 implies (#[trigger] grid.cells@[j]).tiles == old(
                        grid,
                    ).cells@[j].tiles by {
                        assert(gprev.cells@[j].tiles == old(grid).cells@[j].tiles);
                        assert(gprev.cells@[j].tiles@.len() <= 1);
                    }
                }
            },
        }
        steps += 1;
    }
    let d = find_dirty(grid);
    match d {
        None => Progress::Fixpoint,
        Some(_) => Progress::Pending,
    }
}

/// Drain the dirty set completely; the whole effect is a chain of
/// `propagate_cell` steps (`steps_ok`). Propagation always terminates: each
/// step either shrinks some cell's wave or only clears a dirty flag, so the
/// decreasing measure of the loop bounds the number of steps from any
/// starting state.
pub fn propagate_to_fixpoint(grid: &mut WaveGrid, table: &AdjacencyTable)
    requires
        old(grid).wf(),
        table.wf(),
        old(grid).waves_in(*table),
    ensures
        final(grid).wf(),
        final(grid).width == old(grid).width,
        final(grid).height == old(grid).height,
        final(grid).connectivity == old(grid).connectivity,
        final(grid).cells@.len() == old(grid).cells@.len(),
        final(grid).waves_in(*table),
        forall|j: int, t: Tile|
            0 <= j < final(grid).cells@.len() && #[trigger] final(grid).cells@[j].tiles@.contains(
                t,
            ) ==> old(grid).cells@[j].tiles@.contains(t),
        forall|j: int|
            0 <= j < final(grid).cells@.len() ==> (#[trigger] final(grid).cells@[j]).tiles@.len()
                <= old(grid).cells@[j].tiles@.len(),
        final(grid).no_dirty(),
        old(grid).no_dirty() ==> final(grid).cells@ == old(grid).cells@,
        !old(grid).no_dirty() ==> propagation_measure(final(grid).cells@) < propagation_measure(
            old(grid).cells@,
        ),
        exists|n: nat| #[trigger] steps_ok(*old(grid), *final(grid), *table, n),
        forall|j: int|
            0 <= j < final(grid).cells@.len() && old(grid).cells@[j].tiles@.len() <= 1 ==> (
            #[trigger] final(grid).cells@[j]).tiles == old(grid).cells@[j].tiles,
        settled(*old(grid)) ==> forall|j: int|
            0 <= j < final(grid).cells@.len() ==> (#[trigger] final(grid).cells@[j]).tiles == old(
                grid,
            ).cells@[j].tiles,
{
    let ghost mut n: nat = 0;
    loop
        invariant
            grid.wf(),
            table.wf(),
            grid.waves_in(*table),
            grid.width == old(grid).width,
            grid.height == old(grid).height,
            grid.connectivity == old(grid).connectivity,
            grid.cells@.len() == old(grid).cells@.len(),
            forall|j: int, t: Tile|
                0 <= j < grid.cells@.len() && #[trigger] grid.cells@[j].tiles@.contains(t)
                    ==> old(grid).cells@[j].tiles@.contains(t),
            forall|j: int|
                0 <= j < grid.cells@.len() ==> (#[trigger] grid.cells@[j]).tiles@.len() <= old(
                    grid,
                ).cells@[j].tiles@.len(),
            old(grid).no_dirty() ==> grid.cells@ == old(grid).cells@,
            grid.cells@ == old(grid).cells@ || propagation_measure(grid.cells@)
                < propagation_measure(old(grid).cells@),
            steps_ok(*old(grid), *grid, *table, n),
            forall|j: int|
                0 <= j < grid.cells@.len() && old(grid).cells@[j].tiles@.len() <= 1 ==> (
                #[trigger] grid.cells@[j]).tiles == old(grid).cells@[j].tiles,
        ensures
            grid.no_dirty(),
            grid.cells@ == old(grid).cells@ || propagation_measure(grid.cells@)
                < propagation_measure(old(grid).cells@),
        decreases propagation_measure(grid.cells@),
    {
        let d = find_dirty(grid);
        match d {
            None => {
                break;
            },
            Some(di) => {
                proof {
                    if old(grid).no_dirty() {
                        assert(!old(grid).cells@[di as int].dirty);
                        assert(false);
                    }
                }
                let ghost gprev = *grid;
                propagate_cell(grid, table, di);
                proof {
                    assert(step_ok(gprev, *grid, *table)) by {
                        assert(propagate_cell_ok(gprev, *grid, *table, di as int));
                    }
                    lemma_steps_ok_extend(*old(grid), gprev, *grid, *table, n);
                    n = n + 1;
                    assert forall|j: int|
                        0 <= j < grid.cells@.len() && old(grid).cells@[j].tiles@.len()
                        <= 1 implies (#[trigger] grid.cells@[j]).tiles == old(
                        grid,
                    ).cells@[j].tiles by {
                        assert(gprev.cells@[j].tiles == old(grid).cells@[j].tiles);
                        assert(gprev.cells@[j].tiles@.len() <= 1);
                    }
                }
            },
        }
    }
    proof {
        assert(steps_ok(*old(grid), *grid, *table, n));
    }
}

/// Collapse `wave` to a single candidate drawn uniformly at random from it.
pub fn observe(wave: &mut TileSet)
    requires
        old(wave).wf(),
        old(wave)@.len() >= 1,
    ensures
        final(wave).wf(),
        final(wave)@.len() == 1,
        old(wave)@.contains(final(wave)@[0]),
{
    let c = random_below(wave.len());
    let t = wave.index(c);
    let mut single = TileSet::new();
    single.insert(t);
    *wave = single;
}

/// The cells eligible for observation: every cell of entropy above one that
/// attains the least such entropy, in index order.
pub fn min_entropy_cells(grid: &WaveGrid) -> (r: Vec<usize>)
    ensures
        r@.len() > 0 <==> exists|j: int|
            0 <= j < grid.cells@.len() && (#[trigger] grid.cells@[j]).tiles@.len() > 1,
        forall|q: int|
            0 <= q < r@.len() ==> (#[trigger] r@[q]) < grid.cells@.len()
                && grid.cells@[r@[q] as int].tiles@.len() > 1,
        r@.no_duplicates(),
        r@.len() > 0 ==> forall|j: int|
            0 <= j < grid.cells@.len() && (#[trigger] grid.cells@[j]).tiles@.len() > 1
                ==> grid.cells@[r@[0] as int].tiles@.len() <= grid.cells@[j].tiles@.len(),
        r@.len() > 0 ==> forall|j: int|
            0 <= j < grid.cells@.len() ==> (r@.contains(j as usize) <==> (
            #[trigger] grid.cells@[j]).tiles@.len() == grid.cells@[r@[0] as int].tiles@.len()),
{
    let mut r: Vec<usize> = Vec::new();
    let mut min_entropy: usize = usize::MAX;
    let mut i: usize = 0;
    while i < grid.cells.len()
        invariant
            i <= grid.cells@.len(),
            r@.no_duplicates(),
            forall|q: int| 0 <= q < r@.len() ==> (#[trigger] r@[q]) < i,
            r@.len() == 0 <==> forall|j: int|
                0 <= j < i ==> !((#[trigger] grid.cells@[j]).tiles@.len() > 1),
            r@.len() > 0 ==> min_entropy == grid.cells@[r@[0] as int].tiles@.len() && min_entropy
                > 1,
            r@.len() == 0 ==> min_entropy == usize::MAX,
            forall|j: int|
                0 <= j < i && (#[trigger] grid.cells@[j]).tiles@.len() > 1 ==> min_entropy
                    <= grid.cells@[j].tiles@.len(),
            forall|j: int|
                0 <= j < i ==> (r@.contains(j as usize) <==> (
                #[trigger] grid.cells@[j]).tiles@.len() == min_entropy && grid.cells@[j].tiles@.len()
                    > 1),
        decreases grid.cells@.len() - i,
    {
        let entropy = grid.cells[i].tiles.len();
        if entropy < min_entropy && entropy > 1 {
            min_entropy = entropy;
            r.clear();
        }
        if entropy == min_entropy && entropy > 1 {
            let ghost prev = r@;
            r.push(i);
            proof {
                assert forall|j: int|
                    0 <= j < i + 1 implies (r@.contains(j as usize) <==> (
                #[trigger] grid.cells@[j]).tiles@.len() == min_entropy
                    && grid.cells@[j].tiles@.len() > 1) by {
                    if j < i {
                        if prev.contains(j as usize) {
                            let q = choose|q: int| 0 <= q < prev.len() && prev[q] == j as usize;
                            assert(r@[q] == j as usize);
                        }
                        if r@.contains(j as usize) {
                            let q = choose|q: int| 0 <= q < r@.len() && r@[q] == j as usize;
                            if q < r@.len() - 1 {
                                assert(prev[q] == j as usize);
                            }
                        }
                    } else {
                        assert(r@[r@.len() - 1] == i as usize);
                    }
                }
                assert(r@.no_duplicates()) by {
                    assert(forall|q: int| 0 <= q < prev.len() ==> (#[trigger] prev[q]) < i);
                }
            }
        } else {
            proof {
                assert forall|j: int|
                    0 <= j < i + 1 implies (r@.contains(j as usize) <==> (
                #[trigger] grid.cells@[j]).tiles@.len() == min_entropy
                    && grid.cells@[j].tiles@.len() > 1) by {
                    if j == i {
                        if r@.contains(i as usize) {
                            let q = choose|q: int| 0 <= q < r@.len() && r@[q] == i as usize;
                            assert(r@[q] < i);
                            assert(false);
                        }
                    }
                }
            }
        }
        i += 1;
    }
    r
}

/// Some cell still holds more than one candidate: an observation is due.
pub open spec fn has_candidate(g: WaveGrid) -> bool {
    exists|j: int| 0 <= j < g.cells@.len() && (#[trigger] g.cells@[j]).tiles@.len() > 1
}

/// The state `WaveGrid::reset` leaves behind, framed on `g0`: the same grid
/// shape, every cell holding exactly the key set of `table`, nothing dirty.
pub open spec fn reset_ok(g0: WaveGrid, g: WaveGrid, table: AdjacencyTable) -> bool {
    &&& g.width == g0.width
    &&& g.height == g0.height
    &&& g.connectivity == g0.connectivity
    &&& g.cells@.len() == g0.cells@.len()
    &&& forall|i: int, t: Tile|
        0 <= i < g.cells@.len() ==> ((#[trigger] g.cells@[i].tiles@.contains(t))
            <==> table.contains_key(t))
    &&& forall|i: int|
        0 <= i < g.cells@.len() ==> (#[trigger] g.cells@[i]).tiles@.len() == table.entries@.len()
            && !g.cells@[i].dirty
}

/// `pick` is a cell of least entropy among the cells of `g0` that still
/// hold more than one candidate; resolved and impossible cells never
/// take part.
pub open spec fn minimal_choice(g0: WaveGrid, pick: int) -> bool {
    &&& 0 <= pick < g0.cells@.len()
    &&& g0.cells@[pick].tiles@.len() > 1
    &&& forall|j: int|
        0 <= j < g0.cells@.len() && (#[trigger] g0.cells@[j]).tiles@.len() > 1
            ==> g0.cells@[pick].tiles@.len() <= g0.cells@[j].tiles@.len()
}

/// `gm` is `g0` with cell `pick` collapsed to the single candidate `t`,
/// drawn from that cell's former wave, and marked dirty; no other cell is
/// touched.
pub open spec fn observed_cell(g0: WaveGrid, gm: WaveGrid, pick: int, t: Tile) -> bool {
    &&& 0 <= pick < g0.cells@.len()
    &&& g0.cells@[pick].tiles@.contains(t)
    &&& gm.width == g0.width
    &&& gm.height == g0.height
    &&& gm.connectivity == g0.connectivity
    &&& gm.cells@.len() == g0.cells@.len()
    &&& forall|j: int|
        0 <= j < gm.cells@.len() && j != pick ==> (#[trigger] gm.cells@[j]) == g0.cells@[j]
    &&& gm.cells@[pick].tiles@.len() == 1
    &&& gm.cells@[pick].tiles@[0] == t
    &&& gm.cells@[pick].dirty
}

/// One tick's work from an idle grid (nothing dirty): if no cell holds more
/// than one candidate the grid is left untouched; otherwise exactly one
/// least-entropy cell is collapsed to one of its own candidates and the
/// consequences are propagated, at most `budget` steps of it.
pub open spec fn observed_ok(
    g0: WaveGrid,
    g1: WaveGrid,
    table: AdjacencyTable,
    budget: nat,
) -> bool {
    if !has_candidate(g0) {
        g1 == g0
    } else {
        exists|pick: int, t: Tile, gm: WaveGrid, n: nat|
            #![trigger observed_cell(g0, gm, pick, t), steps_ok(gm, g1, table, n)]
            minimal_choice(g0, pick) && observed_cell(g0, gm, pick, t) && n <= budget
                && steps_ok(gm, g1, table, n)
    }
}

/// One tick of the solve. A raised rules-changed signal first rebuilds the
/// adjacency table from the rule grid and resets every wave to the new
/// universe (`reset_ok`), discarding all prior progress. Then, while any
/// cell is dirty, up to `tuning.collapse_per_frame` propagation steps run
/// (`steps_ok`); only once the dirty set is fully drained is a least-entropy
/// cell observed — collapsed to one of its candidates drawn uniformly at
/// random, ties between cells broken uniformly at random — and its
/// consequences propagated within the same budget (`observed_ok`). The
/// guess is recorded in the bounded history.
pub fn collapse(
    rules: &mut Rules,
    rule_grid: &mut RuleGrid,
    grid: &mut WaveGrid,
    tuning: &Tuning,
    history: &mut GuessHistory,
) -> (p: Progress)
    requires
        old(rules).wf(),
        old(rule_grid).wf(),
        old(grid).wf(),
        tuning.collapse_per_frame >= 1,
        old(rule_grid).valid_for(old(rules).prototypes@.len() as int),
        old(grid).waves_in(old(rules).alloweds),
    ensures
        final(rules).wf(),
        final(rule_grid).wf(),
        final(grid).wf(),
        final(grid).waves_in(final(rules).alloweds),
        final(rules).width == old(rules).width,
        final(rules).height == old(rules).height,
        final(rules).prototypes == old(rules).prototypes,
        final(grid).width == old(grid).width,
        final(grid).height == old(grid).height,
        final(grid).connectivity == old(grid).connectivity,
        final(grid).cells@.len() == old(grid).cells@.len(),
        final(rule_grid).width == old(rule_grid).width,
        final(rule_grid).height == old(rule_grid).height,
        final(rule_grid).tiles == old(rule_grid).tiles,
        !final(rule_grid).changed,
        final(rule_grid).valid_for(final(rules).prototypes@.len() as int),
        old(rule_grid).changed ==> forall|a: Tile|
            #[trigger] final(rules).alloweds.contains_key(a) <==> expanded_has(
                *old(rule_grid),
                old(rules).prototypes@,
                a,
            ),
        old(rule_grid).changed ==> forall|a: Tile, o2: Orientation, b: Tile|
            #[trigger] final(rules).alloweds.allows(a, o2, b) <==> expanded_adjacent(
                *old(rule_grid),
                old(rules).prototypes@,
                a,
                o2,
                b,
            ),
        old(rule_grid).changed ==> forall|a: Tile, o2: Orientation, b: Tile|
            #[trigger] final(rules).alloweds.allows(a, o2, b) ==> final(rules).alloweds.allows(
                b,
                o2.spec_opposite(),
                a,
            ),
        !old(rule_grid).changed ==> final(rules).alloweds == old(rules).alloweds,
        !old(rule_grid).changed ==> forall|j: int, t: Tile|
            0 <= j < final(grid).cells@.len() && #[trigger] final(grid).cells@[j].tiles@.contains(
                t,
            ) ==> old(grid).cells@[j].tiles@.contains(t),
        !old(rule_grid).changed && old(grid).no_dirty() && !has_candidate(*old(grid))
            ==> final(grid).cells@ == old(grid).cells@ && p == Progress::Fixpoint,
        !old(rule_grid).changed && old(grid).no_dirty() && has_candidate(*old(grid))
            ==> exists|j: int|
            0 <= j < final(grid).cells@.len() && (#[trigger] final(grid).cells@[j]).tiles@.len()
                < old(grid).cells@[j].tiles@.len(),
        old(rule_grid).changed ==> exists|gr: WaveGrid|
            #[trigger] reset_ok(*old(grid), gr, final(rules).alloweds) && observed_ok(
                gr,
                *final(grid),
                final(rules).alloweds,
                tuning.collapse_per_frame as nat,
            ),
        !old(rule_grid).changed && old(grid).no_dirty() ==> observed_ok(
            *old(grid),
            *final(grid),
            final(rules).alloweds,
            tuning.collapse_per_frame as nat,
        ),
        !old(rule_grid).changed && !old(grid).no_dirty() ==> exists|n: nat|
            n <= tuning.collapse_per_frame && #[trigger] steps_ok(
                *old(grid),
                *final(grid),
                final(rules).alloweds,
                n,
            ),
        !old(rule_grid).changed ==> forall|j: int|
            0 <= j < final(grid).cells@.len() && old(grid).cells@[j].tiles@.len() <= 1 ==> (
            #[trigger] final(grid).cells@[j]).tiles == old(grid).cells@[j].tiles,
        !old(rule_grid).changed && settled(*old(grid)) ==> forall|j: int|
            0 <= j < final(grid).cells@.len() ==> (#[trigger] final(grid).cells@[j]).tiles == old(
                grid,
            ).cells@[j].tiles,
        p == Progress::Fixpoint <==> final(grid).no_dirty(),
{
    if rule_grid.changed {
        rebuild_rules(rules, rule_grid);
        grid.reset(&rules.alloweds);
        rule_grid.changed = false;
        proof {
            assert(rule_grid.valid_for(rules.prototypes@.len() as int)) by {
                assert forall|x: int, y: int|
                    (#[trigger] rule_grid.tile_at(x, y)) is Some implies rule_grid.tile_at(
                    x,
                    y,
                )->0.prototype_index < rules.prototypes@.len() by {
                    assert(rule_grid.tile_at(x, y) == old(rule_grid).tile_at(x, y));
                }
            }
        }
    }
    let ghost g0base = *grid;
    proof {
        if old(rule_grid).changed {
            assert(reset_ok(*old(grid), g0base, rules.alloweds));
        }
    }
    let d = find_dirty(grid);
    match d {
        Some(di) => {
            proof {
                if old(rule_grid).changed {
                    assert(!g0base.cells@[di as int].dirty);
                    assert(false);
                }
                if old(grid).no_dirty() {
                    assert(!old(grid).cells@[di as int].dirty);
                    assert(false);
                }
            }
            return propagate(grid, &rules.alloweds, tuning.collapse_per_frame);
        },
        None => {},
    }
    let mins = min_entropy_cells(grid);
    if mins.len() == 0 {
        proof {
            assert(!has_candidate(g0base));
            assert(observed_ok(
                g0base,
                *grid,
                rules.alloweds,
                tuning.collapse_per_frame as nat,
            ));
        }
        return Progress::Fixpoint;
    }
    let ri = random_below(mins.len());
    let pick = mins[ri];
    let ghost gpre = *grid;
    proof {
        assert(mins@[ri as int] == pick);
        assert(mins@.contains(pick)) by {
            assert(mins@[ri as int] == pick);
        }
        assert(grid.cells@[pick as int].tiles@.len() > 1);
        assert(minimal_choice(gpre, pick as int)) by {
            assert(gpre.cells@[pick as int].tiles@.len() == gpre.cells@[mins@[0] as int].tiles@.len());
        }
        assert(has_candidate(gpre));
    }
    let c = &mut grid.cells[pick];
    observe(&mut c.tiles);
    c.dirty = true;
    proof {
        let cnew = grid.cells@[pick as int];
        assert(grid.cells@ == gpre.cells@.update(pick as int, cnew));
        assert forall|j: int|
            0 <= j < grid.cells@.len() implies (#[trigger] grid.cells@[j]).tiles.wf() by {
            if j != pick {
                assert(grid.cells@[j] == gpre.cells@[j]);
            }
        }
        assert forall|j: int, t: Tile|
            0 <= j < grid.cells@.len() && #[trigger] grid.cells@[j].tiles@.contains(
                t,
            ) implies gpre.cells@[j].tiles@.contains(t) by {
            if j == pick {
                assert(t == cnew.tiles@[0]);
            } else {
                assert(grid.cells@[j] == gpre.cells@[j]);
            }
        }
        assert forall|j: int|
            0 <= j < grid.cells@.len() implies (#[trigger] grid.cells@[j]).tiles@.len()
            <= gpre.cells@[j].tiles@.len() by {
            if j != pick {
                assert(grid.cells@[j] == gpre.cells@[j]);
            }
        }
    }
    let t = grid.cells[pick].tiles.index(0);
    let ghost gobs = *grid;
    proof {
        assert(observed_cell(gpre, gobs, pick as int, t));
    }
    history.record(pick, t, tuning.backtrack_history_size);
    let p = propagate(grid, &rules.alloweds, tuning.collapse_per_frame);
    proof {
        if !old(rule_grid).changed {
            assert(grid.cells@[pick as int].tiles@.len() <= 1);
            assert(old(grid).cells@[pick as int].tiles@.len() > 1);
            if settled(*old(grid)) {
                assert(old(grid).cells@[pick as int].tiles@.len() <= 1);
                assert(false);
            }
            assert forall|j: int|
                0 <= j < grid.cells@.len() && old(grid).cells@[j].tiles@.len() <= 1 implies (
            #[trigger] grid.cells@[j]).tiles == old(grid).cells@[j].tiles by {
                assert(j != pick);
                assert(gobs.cells@[j] == gpre.cells@[j]);
                assert(gobs.cells@[j].tiles@.len() <= 1);
                assert(grid.cells@[j].tiles == gobs.cells@[j].tiles);
            }
        }
        let n = choose|n: nat|
            n <= tuning.collapse_per_frame && #[trigger] steps_ok(
                gobs,
                *grid,
                rules.alloweds,
                n,
            );
        assert(observed_ok(gpre, *grid, rules.alloweds, tuning.collapse_per_frame as nat)) by {
            assert(minimal_choice(gpre, pick as int));
            assert(observed_cell(gpre, gobs, pick as int, t));
            assert(steps_ok(gobs, *grid, rules.alloweds, n));
        }
    }
    p
}

} // verus!
