//! The wave grid: one candidate superposition per output cell, and the fixed
//! four-neighbour connectivity computed once at construction.

use crate::rules::{lemma_cell_index, lemma_cell_index_injective, AdjacencyTable};
use crate::tile::{Orientation, Tile};
use crate::tileset::TileSet;
use vstd::arithmetic::div_mod::{lemma_fundamental_div_mod, lemma_mod_bound};
use vstd::prelude::*;

verus! {

/// A cell's superposition: the candidate tiles still possible there, and
/// whether a pending propagation still has to visit its neighbours.
///
/// No candidate means the cell is impossible, one means it is resolved, and
/// more than one means it is undecided.
#[derive(Debug)]
pub struct TileSuperposition {
    pub tiles: TileSet,
    pub dirty: bool,
}

/// The neighbours of one cell, by direction; absent at the grid boundary.
#[derive(Clone, Copy, Debug)]
pub struct Connectivity {
    pub north: Option<usize>,
    pub east: Option<usize>,
    pub south: Option<usize>,
    pub west: Option<usize>,
}

impl Connectivity {
    pub open spec fn spec_get(self, o: Orientation) -> Option<usize> {
        match o {
            Orientation::North => self.north,
            Orientation::East => self.east,
            Orientation::South => self.south,
            Orientation::West => self.west,
        }
    }

    pub fn get(&self, o: Orientation) -> (r: Option<usize>)
        ensures
            r == self.spec_get(o),
    {
        match o {
            Orientation::North => self.north,
            Orientation::East => self.east,
            Orientation::South => self.south,
            Orientation::West => self.west,
        }
    }
}

/// What a cell's superposition means to a reader of the grid.
#[derive(Clone, Copy, PartialEq, Eq, Structural, Debug)]
pub enum CellState {
    /// No rules are in force yet, so no cell holds any candidate.
    Unconfigured,
    /// The cell's candidates are exhausted: a contradiction.
    Impossible,
    /// Exactly one candidate remains.
    Resolved(Tile),
    /// More than one candidate remains; the count is the entropy.
    Undecided(usize),
}

/// The connectivity entry a `w` by `h` grid demands of cell `(x, y)` in
/// direction `o`: the flat index of the offset cell, absent out of bounds.
pub open spec fn link_ok(c: Connectivity, w: int, h: int, x: int, y: int, o: Orientation) -> bool {
    let (nx, ny) = o.spec_offset(x, y);
    if 0 <= nx < w && 0 <= ny < h {
        c.spec_get(o) == Some((nx * h + ny) as usize)
    } else {
        c.spec_get(o) is None
    }
}

/// The output grid: cells in a `width` by `height` arrangement, addressed by
/// the flat index `x * height + y`.
#[derive(Debug)]
pub struct WaveGrid {
    pub width: usize,
    pub height: usize,
    pub cells: Vec<TileSuperposition>,
    pub connectivity: Vec<Connectivity>,
}

impl WaveGrid {
    pub open spec fn wf(self) -> bool {
        &&& self.cells@.len() == self.width * self.height
        &&& self.connectivity@.len() == self.cells@.len()
        &&& self.width * self.height <= usize::MAX
        &&& forall|x: int, y: int, o: Orientation|
            0 <= x < self.width && 0 <= y < self.height ==> #[trigger] link_ok(
                self.connectivity@[x * self.height + y],
                self.width as int,
                self.height as int,
                x,
                y,
                o,
            )
        &&& forall|i: int| 0 <= i < self.cells@.len() ==> (#[trigger] self.cells@[i]).tiles.wf()
    }

    /// Every candidate of every cell is a key of `table`.
    pub open spec fn waves_in(self, table: AdjacencyTable) -> bool {
        forall|j: int, t: Tile|
            0 <= j < self.cells@.len() && #[trigger] self.cells@[j].tiles@.contains(t)
                ==> table.contains_key(t)
    }

    /// No cell is awaiting propagation.
    pub open spec fn no_dirty(self) -> bool {
        forall|j: int| 0 <= j < self.cells@.len() ==> !(#[trigger] self.cells@[j]).dirty
    }

    /// An empty wave grid: each cell starts with no candidates (no rules are
    /// in force yet) and the connectivity is computed from the four cardinal
    /// offsets, omitting neighbours that fall outside the grid.
    pub fn new(width: usize, height: usize) -> (r: Self)
        requires
            width * height <= usize::MAX,
        ensures
            r.wf(),
            r.width == width,
            r.height == height,
            r.cells@.len() == width * height,
            forall|i: int|
                0 <= i < r.cells@.len() ==> (#[trigger] r.cells@[i]).tiles@.len() == 0 && !r.cells@[i].dirty,
    {
        let mut cells: Vec<TileSuperposition> = Vec::new();
        let mut connectivity: Vec<Connectivity> = Vec::new();
        let mut x: usize = 0;
        let mut idx: usize = 0;
        while x < width
            invariant
                width * height <= usize::MAX,
                x <= width,
                idx == x * height,
                cells@.len() == idx,
                connectivity@.len() == idx,
                forall|i: int|
                    0 <= i < idx ==> (#[trigger] cells@[i]).tiles@.len() == 0 && !cells@[i].dirty
                        && cells@[i].tiles.wf(),
                forall|x2: int, y2: int, o: Orientation|
                    0 <= x2 < x && 0 <= y2 < height ==> #[trigger] link_ok(
                        connectivity@[x2 * height + y2],
                        width as int,
                        height as int,
                        x2,
                        y2,
                        o,
                    ),
            decreases width - x,
        {
            let mut y: usize = 0;
            while y < height
                invariant
                    width * height <= usize::MAX,
                    x < width,
                    y <= height,
                    idx == x * height + y,
                    cells@.len() == idx,
                    connectivity@.len() == idx,
                    forall|i: int|
                        0 <= i < idx ==> (#[trigger] cells@[i]).tiles@.len() == 0
                            && !cells@[i].dirty && cells@[i].tiles.wf(),
                    forall|x2: int, y2: int, o: Orientation|
                        (0 <= x2 < x && 0 <= y2 < height) || (x2 == x && 0 <= y2 < y)
                            ==> #[trigger] link_ok(
                            connectivity@[x2 * height + y2],
                            width as int,
                            height as int,
                            x2,
                            y2,
                            o,
                        ),
                decreases height - y,
            {
                proof {
                    lemma_cell_index(x as int, y as int, width as int, height as int);
                }
                let north: Option<usize> = if y + 1 < height {
                    Some(idx + 1)
                } else {
                    None
                };
                let east: Option<usize> = if x >= 1 {
                    proof {
                        assert((x - 1) * height + y == x * height + y - height)
                            by (nonlinear_arith);
                        lemma_cell_index(x - 1, y as int, width as int, height as int);
                    }
                    Some(idx - height)
                } else {
                    None
                };
                let south: Option<usize> = if y >= 1 {
                    Some(idx - 1)
                } else {
                    None
                };
                let west: Option<usize> = if x + 1 < width {
                    proof {
                        assert((x + 1) * height + y == x * height + y + height)
                            by (nonlinear_arith);
                        lemma_cell_index(x + 1, y as int, width as int, height as int);
                    }
                    Some(idx + height)
                } else {
                    None
                };
                let c = Connectivity { north, east, south, west };
                proof {
                    assert forall|o: Orientation|
                        link_ok(c, width as int, height as int, x as int, y as int, o) by {
                        match o {
                            Orientation::North => {},
                            Orientation::East => {
                                if x >= 1 {
                                    assert((x - 1) * height + y == x * height + y - height)
                                        by (nonlinear_arith);
                                }
                            },
                            Orientation::South => {},
                            Orientation::West => {
                                if x + 1 < width {
                                    assert((x + 1) * height + y == x * height + y + height)
                                        by (nonlinear_arith);
                                }
                            },
                        }
                    }
                }
                cells.push(TileSuperposition { tiles: TileSet::new(), dirty: false });
                connectivity.push(c);
                proof {
                    assert forall|x2: int, y2: int, o: Orientation|
                        (0 <= x2 < x && 0 <= y2 < height) || (x2 == x && 0 <= y2 < y
                            + 1) implies #[trigger] link_ok(
                        connectivity@[x2 * height + y2],
                        width as int,
                        height as int,
                        x2,
                        y2,
                        o,
                    ) by {
                        lemma_cell_index(x2, y2, width as int, height as int);
                        if x2 == x && y2 == y {
                            assert(connectivity@[x2 * height + y2] == c);
                        } else {
                            assert(x2 * height + y2 < idx) by {
                                if x2 < x {
                                    assert(x2 * height + y2 < (x2 + 1) * height)
                                        by (nonlinear_arith)
                                        requires
                                            0 <= y2 < height,
                                    ;
                                    assert((x2 + 1) * height <= x * height) by (nonlinear_arith)
                                        requires
                                            x2 + 1 <= x,
                                            height >= 0,
                                    ;
                                }
                            }
                        }
                    }
                }
                y += 1;
                idx += 1;
            }
            x += 1;
            proof {
                assert(x * height == (x - 1) * height + height) by (nonlinear_arith);
            }
        }
        proof {
            assert(idx == width * height);
        }
        WaveGrid { width, height, cells, connectivity }
    }

    pub fn len(&self) -> (n: usize)
        ensures
            n == self.cells@.len(),
    {
        self.cells.len()
    }

    /// The number of candidates cell `i` still holds.
    pub fn entropy(&self, i: usize) -> (n: usize)
        requires
            i < self.cells@.len(),
        ensures
            n == self.cells@[i as int].tiles@.len(),
    {
        self.cells[i].tiles.len()
    }

    /// Reset every cell's wave to the whole universe of `table` and clear
    /// every dirty flag: the state right after a rule change.
    pub fn reset(&mut self, table: &AdjacencyTable)
        requires
            old(self).wf(),
            table.wf(),
        ensures
            final(self).wf(),
            final(self).width == old(self).width,
            final(self).height == old(self).height,
            final(self).connectivity == old(self).connectivity,
            final(self).cells@.len() == old(self).cells@.len(),
            forall|i: int, t: Tile|
                0 <= i < final(self).cells@.len() ==> (#[trigger] final(self).cells@[i].tiles@.contains(
                    t,
                ) <==> table.contains_key(t)),
            forall|i: int|
                0 <= i < final(self).cells@.len() ==> (#[trigger] final(self).cells@[i]).tiles@.len()
                    == table.entries@.len() && !final(self).cells@[i].dirty,
            final(self).waves_in(*table),
            final(self).no_dirty(),
    {
        let keys = table.keys();
        let mut i: usize = 0;
        while i < self.cells.len()
            invariant
                old(self).wf(),
                self.width == old(self).width,
                self.height == old(self).height,
                self.connectivity == old(self).connectivity,
                self.cells@.len() == old(self).cells@.len(),
                i <= self.cells@.len(),
                keys.wf(),
                forall|t: Tile| keys@.contains(t) <==> table.contains_key(t),
                keys@.len() == table.entries@.len(),
                forall|j: int|
                    0 <= j < i ==> (#[trigger] self.cells@[j]).tiles@ == keys@
                        && !self.cells@[j].dirty,
                forall|j: int|
                    i <= j < self.cells@.len() ==> (#[trigger] self.cells@[j]).tiles.wf(),
            decreases self.cells@.len() - i,
        {
            let fresh = keys.clone();
            let c = &mut self.cells[i];
            *c = TileSuperposition { tiles: fresh, dirty: false };
            i += 1;
        }
    }

    /// How cell `i` reads under the given adjacency table: not yet
    /// configured while no rules are in force, impossible on an exhausted
    /// wave, resolved on a single candidate, undecided otherwise.
    pub fn cell_state(&self, i: usize, table: &AdjacencyTable) -> (r: CellState)
        requires
            i < self.cells@.len(),
        ensures
            table.entries@.len() == 0 ==> r == CellState::Unconfigured,
            table.entries@.len() > 0 && self.cells@[i as int].tiles@.len() == 0 ==> r
                == CellState::Impossible,
            table.entries@.len() > 0 && self.cells@[i as int].tiles@.len() == 1 ==> r
                == CellState::Resolved(self.cells@[i as int].tiles@[0]),
            table.entries@.len() > 0 && self.cells@[i as int].tiles@.len() > 1 ==> r
                == CellState::Undecided(self.cells@[i as int].tiles@.len() as usize),
    {
        if table.is_empty() {
            CellState::Unconfigured
        } else {
            let n = self.cells[i].tiles.len();
            if n == 0 {
                CellState::Impossible
            } else if n == 1 {
                CellState::Resolved(self.cells[i].tiles.index(0))
            } else {
                CellState::Undecided(n)
            }
        }
    }
}

/// In a well-formed grid, every recorded neighbour of cell `i` is a valid
/// cell other than `i`, and two directions never share a neighbour.
pub proof fn lemma_neighbour_links(g: WaveGrid, i: int)
    requires
        g.wf(),
        0 <= i < g.cells@.len(),
    ensures
        forall|o: Orientation|
            match #[trigger] g.connectivity@[i].spec_get(o) {
                Some(n) => 0 <= n < g.cells@.len() && n != i,
                None => true,
            },
        forall|o1: Orientation, o2: Orientation|
            o1 != o2 && (#[trigger] g.connectivity@[i].spec_get(o1)) is Some ==> g.connectivity@[i].spec_get(
                o1,
            ) != (#[trigger] g.connectivity@[i].spec_get(o2)),
{
    let w = g.width as int;
    let h = g.height as int;
    assert(0 < w * h) by {}
    assert(h > 0) by (nonlinear_arith)
        requires
            0 < w * h,
            h >= 0,
    ;
    lemma_fundamental_div_mod(i, h);
    lemma_mod_bound(i, h);
    let x = i / h;
    let y = i % h;
    assert(i == x * h + y);
    assert(0 <= x < w) by (nonlinear_arith)
        requires
            0 <= i < w * h,
            h > 0,
            0 <= y < h,
            i == x * h + y,
    ;
    assert forall|o: Orientation|
        match #[trigger] g.connectivity@[i].spec_get(o) {
            Some(n) => 0 <= n < g.cells@.len() && n != i,
            None => true,
        } by {
        assert(link_ok(g.connectivity@[i], w, h, x, y, o));
        let (nx, ny) = o.spec_offset(x, y);
        if 0 <= nx < w && 0 <= ny < h {
            lemma_cell_index(nx, ny, w, h);
            if nx * h + ny == i {
                lemma_cell_index_injective(nx, ny, x, y, h);
            }
        }
    }
    assert forall|o1: Orientation, o2: Orientation|
        o1 != o2 && (#[trigger] g.connectivity@[i].spec_get(o1)) is Some implies g.connectivity@[i].spec_get(
        o1,
    ) != (#[trigger] g.connectivity@[i].spec_get(o2)) by {
        assert(link_ok(g.connectivity@[i], w, h, x, y, o1));
        assert(link_ok(g.connectivity@[i], w, h, x, y, o2));
        let (ax, ay) = o1.spec_offset(x, y);
        let (bx, by) = o2.spec_offset(x, y);
        if g.connectivity@[i].spec_get(o1) == g.connectivity@[i].spec_get(o2) {
            assert(0 <= ax < w && 0 <= ay < h);
            assert(0 <= bx < w && 0 <= by < h);
            lemma_cell_index(ax, ay, w, h);
            lemma_cell_index(bx, by, w, h);
            lemma_cell_index_injective(ax, ay, bx, by, h);
            assert(false);
        }
    }
}

} // verus!
