//! The adjacency rules: per-tile allowed-neighbour sets, the table keyed by
//! tile, the exemplar rule grid the table is read from, and the expansion of
//! the table over the rotation group.

use crate::tile::{Coordinates, OptionalTile, Orientation, Prototype, Tile};
use crate::tileset::TileSet;
use vstd::prelude::*;

verus! {

/// `0 <= x*h + y < w*h` whenever `(x, y)` is a cell of a `w` by `h` grid.
pub proof fn lemma_cell_index(x: int, y: int, w: int, h: int)
    requires
        0 <= x < w,
        0 <= y < h,
    ensures
        0 <= x * h + y < w * h,
{
    assert(x * h + y < w * h) by (nonlinear_arith)
        requires
            0 <= x < w,
            0 <= y < h,
    ;
}

/// Flat cell indices are injective: two cells with the same index are the
/// same cell.
pub proof fn lemma_cell_index_injective(x1: int, y1: int, x2: int, y2: int, h: int)
    requires
        0 <= y1 < h,
        0 <= y2 < h,
        x1 * h + y1 == x2 * h + y2,
    ensures
        x1 == x2 && y1 == y2,
{
    assert(x1 == x2 && y1 == y2) by (nonlinear_arith)
        requires
            0 <= y1 < h,
            0 <= y2 < h,
            x1 * h + y1 == x2 * h + y2,
    ;
}

/// The neighbour sets one tile allows, one per direction: "if a cell holds
/// this tile, its neighbour in that direction must come from that set".
#[derive(Debug)]
pub struct Allowed {
    pub north: TileSet,
    pub east: TileSet,
    pub south: TileSet,
    pub west: TileSet,
}

impl Allowed {
    pub open spec fn spec_get(self, o: Orientation) -> Seq<Tile> {
        match o {
            Orientation::North => self.north@,
            Orientation::East => self.east@,
            Orientation::South => self.south@,
            Orientation::West => self.west@,
        }
    }

    pub open spec fn wf(self) -> bool {
        self.north.wf() && self.east.wf() && self.south.wf() && self.west.wf()
    }

    /// No restriction declared in any direction.
    pub fn new() -> (r: Self)
        ensures
            r.wf(),
            forall|o: Orientation| (#[trigger] r.spec_get(o)).len() == 0,
    {
        Allowed {
            north: TileSet::new(),
            east: TileSet::new(),
            south: TileSet::new(),
            west: TileSet::new(),
        }
    }

    pub fn get(&self, o: Orientation) -> (r: &TileSet)
        ensures
            r@ == self.spec_get(o),
    {
        match o {
            Orientation::North => &self.north,
            Orientation::East => &self.east,
            Orientation::South => &self.south,
            Orientation::West => &self.west,
        }
    }

    /// Allow `t` as a neighbour in direction `o`.
    pub fn insert(&mut self, o: Orientation, t: Tile)
        requires
            old(self).wf(),
        ensures
            final(self).wf(),
            forall|o2: Orientation, t2: Tile|
                #[trigger] final(self).spec_get(o2).contains(t2) <==> old(self).spec_get(
                    o2,
                ).contains(t2) || (o2 == o && t2 == t),
            forall|o2: Orientation|
                (#[trigger] final(self).spec_get(o2)).len() <= old(self).spec_get(o2).len() + 1,
    {
        match o {
            Orientation::North => self.north.insert(t),
            Orientation::East => self.east.insert(t),
            Orientation::South => self.south.insert(t),
            Orientation::West => self.west.insert(t),
        }
    }
}

impl Default for Allowed {
    fn default() -> (r: Self)
        ensures
            r.wf(),
            forall|o: Orientation| (#[trigger] r.spec_get(o)).len() == 0,
    {
        Allowed::new()
    }
}

/// The adjacency table of the solve: for every known tile, the sets of tiles
/// allowed next to it in each direction. Its key set is the tile universe.
#[derive(Debug)]
pub struct AdjacencyTable {
    pub entries: Vec<(Tile, Allowed)>,
}

impl AdjacencyTable {
    /// `t` is a key of the table, that is, a tile of the universe.
    pub open spec fn contains_key(self, t: Tile) -> bool {
        exists|i: int| 0 <= i < self.entries@.len() && (#[trigger] self.entries@[i]).0 == t
    }

    /// The table allows `t2` in direction `o` next to `t`.
    pub open spec fn allows(self, t: Tile, o: Orientation, t2: Tile) -> bool {
        exists|i: int|
            0 <= i < self.entries@.len() && (#[trigger] self.entries@[i]).0 == t
                && self.entries@[i].1.spec_get(o).contains(t2)
    }

    /// Keys are unique and every per-direction set is duplicate-free.
    pub open spec fn wf(self) -> bool {
        (forall|i: int, j: int|
            0 <= i < j < self.entries@.len() ==> (#[trigger] self.entries@[i]).0 != (
            #[trigger] self.entries@[j]).0) && (forall|i: int|
            0 <= i < self.entries@.len() ==> (#[trigger] self.entries@[i]).1.wf())
    }

    /// Every tile the table mentions indexes a prototype below `n`.
    pub open spec fn valid_for(self, n: int) -> bool {
        (forall|t: Tile| #[trigger] self.contains_key(t) ==> t.prototype_index < n)
            && (forall|t: Tile, o: Orientation, t2: Tile|
            #[trigger] self.allows(t, o, t2) ==> t2.prototype_index < n)
    }

    pub fn new() -> (r: Self)
        ensures
            r.wf(),
            r.entries@.len() == 0,
            forall|t: Tile| !r.contains_key(t),
            forall|t: Tile, o: Orientation, t2: Tile| !r.allows(t, o, t2),
    {
        AdjacencyTable { entries: Vec::new() }
    }

    pub fn len(&self) -> (n: usize)
        ensures
            n == self.entries@.len(),
    {
        self.entries.len()
    }

    pub fn is_empty(&self) -> (b: bool)
        ensures
            b <==> self.entries@.len() == 0,
            b <==> !exists|t: Tile| self.contains_key(t),
    {
        let b = self.entries.len() == 0;
        proof {
            if self.entries@.len() > 0 {
                assert(self.contains_key(self.entries@[0].0));
            }
        }
        b
    }

    /// The position of `t`'s entry, if the table knows `t`.
    pub fn find(&self, t: &Tile) -> (r: Option<usize>)
        ensures
            match r {
                Some(i) => i < self.entries@.len() && self.entries@[i as int].0 == *t,
                None => !self.contains_key(*t),
            },
    {
        let mut i: usize = 0;
        while i < self.entries.len()
            invariant
                i <= self.entries@.len(),
                forall|j: int| 0 <= j < i ==> (#[trigger] self.entries@[j]).0 != *t,
            decreases self.entries@.len() - i,
        {
            if self.entries[i].0 == *t {
                return Some(i);
            }
            i += 1;
        }
        None
    }

    /// The position of `t`'s entry, inserting an empty entry if `t` is new.
    pub fn ensure_key(&mut self, t: Tile) -> (i: usize)
        requires
            old(self).wf(),
        ensures
            final(self).wf(),
            i < final(self).entries@.len(),
            final(self).entries@[i as int].0 == t,
            old(self).entries@.len() <= final(self).entries@.len() <= old(self).entries@.len() + 1,
            forall|j: int|
                0 <= j < old(self).entries@.len() ==> (#[trigger] final(self).entries@[j]) == old(
                    self,
                ).entries@[j],
            forall|x: Tile|
                #[trigger] final(self).contains_key(x) <==> old(self).contains_key(x) || x == t,
            forall|a: Tile, o: Orientation, b: Tile|
                #[trigger] final(self).allows(a, o, b) <==> old(self).allows(a, o, b),
    {
        let found = self.find(&t);
        match found {
            Some(i) => {
                proof {
                    assert forall|x: Tile|
                        final(self).contains_key(x) <==> old(self).contains_key(x) || x
                            == t by {
                        if x == t {
                            assert(self.contains_key(t)) by {
                                assert(self.entries@[i as int].0 == t);
                            }
                        }
                    }
                }
                i
            },
            None => {
                let i = self.entries.len();
                self.entries.push((t, Allowed::new()));
                proof {
                    assert(self.entries@[i as int].0 == t);
                    assert forall|x: Tile|
                        self.contains_key(x) implies old(self).contains_key(x) || x == t by {
                        let j = choose|j: int|
                            0 <= j < self.entries@.len() && self.entries@[j].0 == x;
                        if j < i {
                            assert(old(self).entries@[j].0 == x);
                        }
                    }
                    assert forall|x: Tile|
                        old(self).contains_key(x) implies self.contains_key(x) by {
                        let j = choose|j: int|
                            0 <= j < old(self).entries@.len() && old(self).entries@[j].0 == x;
                        assert(self.entries@[j].0 == x);
                    }
                    assert forall|a: Tile, o: Orientation, b: Tile|
                        self.allows(a, o, b) implies old(self).allows(a, o, b) by {
                        let j = choose|j: int|
                            0 <= j < self.entries@.len() && self.entries@[j].0 == a
                                && self.entries@[j].1.spec_get(o).contains(b);
                        if j < i {
                            assert(old(self).entries@[j].0 == a);
                            assert(old(self).entries@[j].1.spec_get(o).contains(b));
                        } else {
                            assert(self.entries@[j].1.spec_get(o).len() == 0);
                        }
                    }
                    assert forall|a: Tile, o: Orientation, b: Tile|
                        old(self).allows(a, o, b) implies self.allows(a, o, b) by {
                        let j = choose|j: int|
                            0 <= j < old(self).entries@.len() && old(self).entries@[j].0 == a
                                && old(self).entries@[j].1.spec_get(o).contains(b);
                        assert(self.entries@[j].0 == a);
                        assert(self.entries@[j].1.spec_get(o).contains(b));
                    }
                }
                i
            },
        }
    }

    /// Record that the tile of entry `i` allows `t2` in direction `o`.
    pub fn insert_allowed(&mut self, i: usize, o: Orientation, t2: Tile)
        requires
            old(self).wf(),
            i < old(self).entries@.len(),
        ensures
            final(self).wf(),
            final(self).entries@.len() == old(self).entries@.len(),
            forall|j: int|
                0 <= j < final(self).entries@.len() ==> (#[trigger] final(self).entries@[j]).0
                    == old(self).entries@[j].0,
            forall|x: Tile|
                #[trigger] final(self).contains_key(x) <==> old(self).contains_key(x),
            forall|a: Tile, o2: Orientation, b: Tile|
                #[trigger] final(self).allows(a, o2, b) <==> old(self).allows(a, o2, b) || (a
                    == old(self).entries@[i as int].0 && o2 == o && b == t2),
    {
        let entry = &mut self.entries[i];
        entry.1.insert(o, t2);
        proof {
            assert(final(entry).0 == old(self).entries@[i as int].0);
            assert(self.entries@ == old(self).entries@.update(i as int, self.entries@[i as int]));
            assert forall|j: int|
                0 <= j < self.entries@.len() && j != i implies self.entries@[j] == old(
                self,
            ).entries@[j] by {}
            assert forall|x: Tile| self.contains_key(x) implies old(self).contains_key(x) by {
                let j = choose|j: int| 0 <= j < self.entries@.len() && self.entries@[j].0 == x;
                assert(old(self).entries@[j].0 == x);
            }
            assert forall|x: Tile| old(self).contains_key(x) implies self.contains_key(x) by {
                let j = choose|j: int|
                    0 <= j < old(self).entries@.len() && old(self).entries@[j].0 == x;
                assert(self.entries@[j].0 == x);
            }
            let told = old(self).entries@[i as int].0;
            assert forall|a: Tile, o2: Orientation, b: Tile|
                self.allows(a, o2, b) implies old(self).allows(a, o2, b) || (a == told && o2 == o
                && b == t2) by {
                let j = choose|j: int|
                    0 <= j < self.entries@.len() && self.entries@[j].0 == a
                        && self.entries@[j].1.spec_get(o2).contains(b);
                if j != i {
                    assert(old(self).entries@[j].0 == a);
                    assert(old(self).entries@[j].1.spec_get(o2).contains(b));
                } else {
                    if old(self).entries@[j].1.spec_get(o2).contains(b) {
                        assert(old(self).allows(a, o2, b));
                    }
                }
            }
            assert forall|a: Tile, o2: Orientation, b: Tile|
                old(self).allows(a, o2, b) implies self.allows(a, o2, b) by {
                let j = choose|j: int|
                    0 <= j < old(self).entries@.len() && old(self).entries@[j].0 == a
                        && old(self).entries@[j].1.spec_get(o2).contains(b);
                assert(self.entries@[j].0 == a);
                assert(self.entries@[j].1.spec_get(o2).contains(b));
            }
            assert(self.allows(told, o, t2)) by {
                assert(self.entries@[i as int].0 == told);
                assert(self.entries@[i as int].1.spec_get(o).contains(t2));
            }
        }
    }

    /// The universe: every key of the table, as a tile set.
    pub fn keys(&self) -> (r: TileSet)
        requires
            self.wf(),
        ensures
            r.wf(),
            forall|t: Tile| r@.contains(t) <==> self.contains_key(t),
            r@.len() == self.entries@.len(),
    {
        let mut r = TileSet::new();
        let mut i: usize = 0;
        while i < self.entries.len()
            invariant
                i <= self.entries@.len(),
                self.wf(),
                r.wf(),
                r@.len() == i,
                forall|t: Tile|
                    r@.contains(t) <==> exists|j: int|
                        0 <= j < i && (#[trigger] self.entries@[j]).0 == t,
            decreases self.entries@.len() - i,
        {
            let t = self.entries[i].0;
            proof {
                if r@.contains(t) {
                    let j = choose|j: int| 0 <= j < i && self.entries@[j].0 == t;
                    assert(self.entries@[j].0 == self.entries@[i as int].0);
                    assert(false);
                }
            }
            r.insert(t);
            proof {
                assert forall|x: Tile|
                    r@.contains(x) implies exists|j: int|
                    0 <= j < i + 1 && (#[trigger] self.entries@[j]).0 == x by {
                    if x == t {
                        assert(self.entries@[i as int].0 == x);
                    } else {
                        let j = choose|j: int| 0 <= j < i && (#[trigger] self.entries@[j]).0 == x;
                        assert(0 <= j < i + 1 && self.entries@[j].0 == x);
                    }
                }
            }
            i += 1;
        }
        r
    }
}

/// With unique keys, what a table allows next to the tile of entry `ei` is
/// exactly what entry `ei` records.
pub proof fn lemma_allows_at(table: AdjacencyTable, ei: int, o: Orientation)
    requires
        table.wf(),
        0 <= ei < table.entries@.len(),
    ensures
        forall|t2: Tile|
            table.allows(table.entries@[ei].0, o, t2) <==> #[trigger] table.entries@[ei].1.spec_get(
                o,
            ).contains(t2),
{
    let t = table.entries@[ei].0;
    assert forall|t2: Tile|
        table.allows(t, o, t2) <==> table.entries@[ei].1.spec_get(o).contains(t2) by {
        if table.allows(t, o, t2) {
            let j = choose|j: int|
                0 <= j < table.entries@.len() && (#[trigger] table.entries@[j]).0 == t
                    && table.entries@[j].1.spec_get(o).contains(t2);
            if j != ei {
                assert(table.entries@[j].0 != table.entries@[ei].0);
                assert(false);
            }
        }
        if table.entries@[ei].1.spec_get(o).contains(t2) {
            assert(table.entries@[ei].0 == t);
            assert(table.allows(t, o, t2));
        }
    }
}

/// How many prototypes there are, and that each one records its own position
/// in the palette.
pub open spec fn prototypes_wf(ps: Seq<Prototype>) -> bool {
    forall|i: int| 0 <= i < ps.len() ==> (#[trigger] ps[i]).index == i
}

/// The exemplar rule grid: a small board of optional tiles the user paints,
/// from which the adjacency table is read. `changed` stands for the
/// rules-changed signal: it is raised by an edit and cleared by the rebuild.
#[derive(Debug)]
pub struct RuleGrid {
    pub width: usize,
    pub height: usize,
    pub tiles: Vec<OptionalTile>,
    pub changed: bool,
}

impl RuleGrid {
    pub open spec fn wf(self) -> bool {
        self.tiles@.len() == self.width * self.height && self.width * self.height <= usize::MAX
            && self.width < 0x8000_0000 && self.height < 0x8000_0000
    }

    /// The tile at `(x, y)`, `None` when the cell is empty or out of bounds.
    pub open spec fn tile_at(self, x: int, y: int) -> Option<Tile> {
        if 0 <= x < self.width && 0 <= y < self.height {
            self.tiles@[x * self.height + y].tile
        } else {
            None
        }
    }

    /// Every placed tile indexes a prototype below `n`.
    pub open spec fn valid_for(self, n: int) -> bool {
        forall|x: int, y: int|
            (#[trigger] self.tile_at(x, y)) is Some ==> self.tile_at(x, y)->0.prototype_index < n
    }

    /// An empty rule grid of the given size.
    pub fn new(width: usize, height: usize) -> (r: Self)
        requires
            width * height <= usize::MAX,
            width < 0x8000_0000,
            height < 0x8000_0000,
        ensures
            r.wf(),
            r.width == width,
            r.height == height,
            !r.changed,
            forall|x: int, y: int| #[trigger] r.tile_at(x, y) is None,
            r.valid_for(0),
    {
        let n = width * height;
        let mut tiles: Vec<OptionalTile> = Vec::new();
        let mut i: usize = 0;
        while i < n
            invariant
                i <= n,
                tiles@.len() == i,
                forall|j: int| 0 <= j < i ==> (#[trigger] tiles@[j]).tile is None,
            decreases n - i,
        {
            tiles.push(OptionalTile::new(None));
            i += 1;
        }
        let r = RuleGrid { width, height, tiles, changed: false };
        proof {
            assert forall|x: int, y: int| r.tile_at(x, y) is None by {
                if 0 <= x < width && 0 <= y < height {
                    lemma_cell_index(x, y, width as int, height as int);
                }
            }
        }
        r
    }

    /// Write `tile` at `(x, y)`; raise the rules-changed signal when the
    /// write makes a difference.
    pub fn set_tile(&mut self, x: usize, y: usize, tile: OptionalTile)
        requires
            old(self).wf(),
            x < old(self).width,
            y < old(self).height,
        ensures
            final(self).wf(),
            final(self).width == old(self).width,
            final(self).height == old(self).height,
            final(self).tile_at(x as int, y as int) == tile.tile,
            forall|x2: int, y2: int|
                !(x2 == x && y2 == y) ==> #[trigger] final(self).tile_at(x2, y2) == old(
                    self,
                ).tile_at(x2, y2),
            final(self).changed <==> old(self).changed || old(self).tile_at(x as int, y as int)
                != tile.tile,
    {
        proof {
            lemma_cell_index(x as int, y as int, self.width as int, self.height as int);
        }
        let i = x * self.height + y;
        let same = match (&self.tiles[i].tile, &tile.tile) {
            (Some(a), Some(b)) => *a == *b,
            (None, None) => true,
            _ => false,
        };
        if !same {
            self.changed = true;
        }
        let slot = &mut self.tiles[i];
        *slot = tile;
        proof {
            assert forall|x2: int, y2: int|
                !(x2 == x && y2 == y) implies final(self).tile_at(x2, y2) == old(self).tile_at(
                x2,
                y2,
            ) by {
                if 0 <= x2 < self.width && 0 <= y2 < self.height {
                    lemma_cell_index(x2, y2, self.width as int, self.height as int);
                    if x2 * self.height + y2 == x * self.height + y {
                        lemma_cell_index_injective(
                            x2,
                            y2,
                            x as int,
                            y as int,
                            self.height as int,
                        );
                    }
                }
            }
        }
    }

    /// The tile at `coordinates`, read defensively: any coordinate outside
    /// the grid reads as an empty cell.
    pub fn get_tile_prototype(&self, coordinates: &Coordinates) -> (r: Option<Tile>)
        requires
            self.wf(),
        ensures
            r == self.tile_at(coordinates.x as int, coordinates.y as int),
    {
        if coordinates.x < 0 || coordinates.y < 0 {
            return None;
        }
        let x = coordinates.x as usize;
        let y = coordinates.y as usize;
        if x >= self.width || y >= self.height {
            return None;
        }
        proof {
            lemma_cell_index(x as int, y as int, self.width as int, self.height as int);
        }
        self.tiles[x * self.height + y].tile
    }
}

impl RuleGrid {
    /// Some filled cell of the grid holds `t`.
    pub open spec fn has_tile(self, t: Tile) -> bool {
        exists|x: int, y: int| #[trigger] self.tile_at(x, y) == Some(t)
    }

    /// Some filled cell holds `t1` while the neighbouring cell one step in
    /// direction `o` holds `t2`.
    pub open spec fn adjacent(self, t1: Tile, o: Orientation, t2: Tile) -> bool {
        exists|x: int, y: int|
            #[trigger] self.tile_at(x, y) == Some(t1) && self.tile_at(
                o.spec_offset(x, y).0,
                o.spec_offset(x, y).1,
            ) == Some(t2)
    }
}

/// Cell `(x, y)` comes before cell `(x0, y0)` in the column-by-column scan
/// of the rule grid.
pub open spec fn scanned_before(x: int, y: int, x0: int, y0: int) -> bool {
    x < x0 || (x == x0 && y < y0)
}

/// `has_tile`, restricted to the cells already scanned.
spec fn has_tile_before(g: RuleGrid, t: Tile, x0: int, y0: int) -> bool {
    exists|x: int, y: int|
        scanned_before(x, y, x0, y0) && #[trigger] g.tile_at(x, y) == Some(t)
}

/// `adjacent`, restricted to source cells already scanned.
spec fn adjacent_before(g: RuleGrid, t1: Tile, o: Orientation, t2: Tile, x0: int, y0: int) -> bool {
    exists|x: int, y: int|
        scanned_before(x, y, x0, y0) && #[trigger] g.tile_at(x, y) == Some(t1) && g.tile_at(
            o.spec_offset(x, y).0,
            o.spec_offset(x, y).1,
        ) == Some(t2)
}

/// Record in entry `ei` of `r` (which holds the tile of cell `(x, y)`) the
/// neighbour of that cell one step in direction `o`, if it is filled.
fn add_neighbour_rule(r: &mut AdjacencyTable, grid: &RuleGrid, ei: usize, o: Orientation, x: usize, y: usize)
    requires
        grid.wf(),
        old(r).wf(),
        ei < old(r).entries@.len(),
        x < grid.width,
        y < grid.height,
    ensures
        final(r).wf(),
        final(r).entries@.len() == old(r).entries@.len(),
        forall|j: int|
            0 <= j < final(r).entries@.len() ==> (#[trigger] final(r).entries@[j]).0 == old(
                r,
            ).entries@[j].0,
        forall|t: Tile| #[trigger] final(r).contains_key(t) <==> old(r).contains_key(t),
        forall|a: Tile, o2: Orientation, b: Tile|
            #[trigger] final(r).allows(a, o2, b) <==> old(r).allows(a, o2, b) || (a == old(
                r,
            ).entries@[ei as int].0 && o2 == o && grid.tile_at(
                o.spec_offset(x as int, y as int).0,
                o.spec_offset(x as int, y as int).1,
            ) == Some(b)),
{
    let coords = Coordinates::new(x as i32, y as i32);
    let ncoords = o.offset(&coords);
    let neighbour = grid.get_tile_prototype(&ncoords);
    match neighbour {
        Some(t2) => {
            r.insert_allowed(ei, o, t2);
        },
        None => {},
    }
}

/// Read the exemplar rule grid into an adjacency table: for every filled
/// cell and every direction, the filled neighbour one step away becomes an
/// allowed neighbour of the cell's tile. Empty and out-of-bounds neighbours
/// impose nothing; every placed tile becomes a key even when isolated.
pub fn extract_rules(grid: &RuleGrid) -> (r: AdjacencyTable)
    requires
        grid.wf(),
    ensures
        r.wf(),
        forall|t: Tile| #[trigger] r.contains_key(t) <==> grid.has_tile(t),
        forall|t1: Tile, o: Orientation, t2: Tile|
            #[trigger] r.allows(t1, o, t2) <==> grid.adjacent(t1, o, t2),
{
    let mut r = AdjacencyTable::new();
    let mut x: usize = 0;
    while x < grid.width
        invariant
            grid.wf(),
            r.wf(),
            x <= grid.width,
            forall|t: Tile| #[trigger] r.contains_key(t) <==> has_tile_before(*grid, t, x as int, 0),
            forall|t1: Tile, o: Orientation, t2: Tile|
                #[trigger] r.allows(t1, o, t2) <==> adjacent_before(*grid, t1, o, t2, x as int, 0),
        decreases grid.width - x,
    {
        let mut y: usize = 0;
        while y < grid.height
            invariant
                grid.wf(),
                r.wf(),
                x < grid.width,
                y <= grid.height,
                forall|t: Tile|
                    #[trigger] r.contains_key(t) <==> has_tile_before(*grid, t, x as int, y as int),
                forall|t1: Tile, o: Orientation, t2: Tile|
                    #[trigger] r.allows(t1, o, t2) <==> adjacent_before(
                        *grid,
                        t1,
                        o,
                        t2,
                        x as int,
                        y as int,
                    ),
            decreases grid.height - y,
        {
            let coords = Coordinates::new(x as i32, y as i32);
            let cur = grid.get_tile_prototype(&coords);
            match cur {
                Some(t) => {
                    let ei = r.ensure_key(t);
                    let ghost r1 = r;
                    add_neighbour_rule(&mut r, grid, ei, Orientation::North, x, y);
                    add_neighbour_rule(&mut r, grid, ei, Orientation::East, x, y);
                    add_neighbour_rule(&mut r, grid, ei, Orientation::South, x, y);
                    add_neighbour_rule(&mut r, grid, ei, Orientation::West, x, y);
                    proof {
                        assert(r1.entries@[ei as int].0 == t);
                        assert forall|t2: Tile|
                            r.contains_key(t2) <==> has_tile_before(
                                *grid,
                                t2,
                                x as int,
                                y + 1,
                            ) by {
                            if r.contains_key(t2) {
                                if t2 == t {
                                    assert(grid.tile_at(x as int, y as int) == Some(t2));
                                    assert(scanned_before(x as int, y as int, x as int, y + 1));
                                } else {
                                    let (x2, y2) = choose|x2: int, y2: int|
                                        scanned_before(x2, y2, x as int, y as int)
                                            && #[trigger] grid.tile_at(x2, y2) == Some(t2);
                                    assert(scanned_before(x2, y2, x as int, y + 1));
                                }
                            }
                            if has_tile_before(*grid, t2, x as int, y + 1) {
                                let (x2, y2) = choose|x2: int, y2: int|
                                    scanned_before(x2, y2, x as int, y + 1)
                                        && #[trigger] grid.tile_at(x2, y2) == Some(t2);
                                if scanned_before(x2, y2, x as int, y as int) {
                                    assert(has_tile_before(*grid, t2, x as int, y as int));
                                } else {
                                    assert(x2 == x && y2 == y);
                                    assert(t2 == t);
                                }
                            }
                        }
                        assert forall|t1: Tile, o: Orientation, t2: Tile|
                            r.allows(t1, o, t2) <==> adjacent_before(
                                *grid,
                                t1,
                                o,
                                t2,
                                x as int,
                                y + 1,
                            ) by {
                            let (nx, ny) = o.spec_offset(x as int, y as int);
                            if r.allows(t1, o, t2) {
                                if r1.allows(t1, o, t2) {
                                    let (x2, y2) = choose|x2: int, y2: int|
                                        scanned_before(x2, y2, x as int, y as int)
                                            && #[trigger] grid.tile_at(x2, y2) == Some(t1)
                                            && grid.tile_at(
                                            o.spec_offset(x2, y2).0,
                                            o.spec_offset(x2, y2).1,
                                        ) == Some(t2);
                                    assert(scanned_before(x2, y2, x as int, y + 1));
                                    assert(adjacent_before(*grid, t1, o, t2, x as int, y + 1));
                                } else {
                                    assert(t1 == t && grid.tile_at(nx, ny) == Some(t2));
                                    assert(grid.tile_at(x as int, y as int) == Some(t1));
                                    assert(scanned_before(x as int, y as int, x as int, y + 1));
                                    assert(adjacent_before(*grid, t1, o, t2, x as int, y + 1));
                                }
                            }
                            if adjacent_before(*grid, t1, o, t2, x as int, y + 1) {
                                let (x2, y2) = choose|x2: int, y2: int|
                                    scanned_before(x2, y2, x as int, y + 1)
                                        && #[trigger] grid.tile_at(x2, y2) == Some(t1)
                                        && grid.tile_at(
                                        o.spec_offset(x2, y2).0,
                                        o.spec_offset(x2, y2).1,
                                    ) == Some(t2);
                                if scanned_before(x2, y2, x as int, y as int) {
                                    assert(adjacent_before(*grid, t1, o, t2, x as int, y as int));
                                } else {
                                    assert(x2 == x && y2 == y);
                                    assert(t1 == t && grid.tile_at(nx, ny) == Some(t2));
                                    assert(r.allows(t1, o, t2));
                                }
                            }
                        }
                    }
                },
                None => {
                    proof {
                        assert forall|t2: Tile|
                            r.contains_key(t2) <==> has_tile_before(
                                *grid,
                                t2,
                                x as int,
                                y + 1,
                            ) by {
                            if has_tile_before(*grid, t2, x as int, y + 1) {
                                let (x2, y2) = choose|x2: int, y2: int|
                                    scanned_before(x2, y2, x as int, y + 1)
                                        && #[trigger] grid.tile_at(x2, y2) == Some(t2);
                                assert(scanned_before(x2, y2, x as int, y as int));
                            }
                        }
                        assert forall|t1: Tile, o: Orientation, t2: Tile|
                            r.allows(t1, o, t2) <==> adjacent_before(
                                *grid,
                                t1,
                                o,
                                t2,
                                x as int,
                                y + 1,
                            ) by {
                            if adjacent_before(*grid, t1, o, t2, x as int, y + 1) {
                                let (x2, y2) = choose|x2: int, y2: int|
                                    scanned_before(x2, y2, x as int, y + 1)
                                        && #[trigger] grid.tile_at(x2, y2) == Some(t1)
                                        && grid.tile_at(
                                        o.spec_offset(x2, y2).0,
                                        o.spec_offset(x2, y2).1,
                                    ) == Some(t2);
                                assert(scanned_before(x2, y2, x as int, y as int));
                            }
                        }
                    }
                },
            }
            y += 1;
        }
        proof {
            assert forall|t: Tile|
                has_tile_before(*grid, t, x + 1, 0) <==> has_tile_before(
                    *grid,
                    t,
                    x as int,
                    grid.height as int,
                ) by {
                if has_tile_before(*grid, t, x + 1, 0) {
                    let (x2, y2) = choose|x2: int, y2: int|
                        scanned_before(x2, y2, x + 1, 0) && #[trigger] grid.tile_at(x2, y2)
                            == Some(t);
                    assert(0 <= y2 < grid.height);
                    assert(scanned_before(x2, y2, x as int, grid.height as int));
                }
                if has_tile_before(*grid, t, x as int, grid.height as int) {
                    let (x2, y2) = choose|x2: int, y2: int|
                        scanned_before(x2, y2, x as int, grid.height as int)
                            && #[trigger] grid.tile_at(x2, y2) == Some(t);
                    assert(scanned_before(x2, y2, x + 1, 0));
                }
            }
            assert forall|t1: Tile, o: Orientation, t2: Tile|
                adjacent_before(*grid, t1, o, t2, x + 1, 0) <==> adjacent_before(
                    *grid,
                    t1,
                    o,
                    t2,
                    x as int,
                    grid.height as int,
                ) by {
                if adjacent_before(*grid, t1, o, t2, x + 1, 0) {
                    let (x2, y2) = choose|x2: int, y2: int|
                        scanned_before(x2, y2, x + 1, 0) && #[trigger] grid.tile_at(x2, y2)
                            == Some(t1) && grid.tile_at(
                            o.spec_offset(x2, y2).0,
                            o.spec_offset(x2, y2).1,
                        ) == Some(t2);
                    assert(0 <= y2 < grid.height);
                    assert(scanned_before(x2, y2, x as int, grid.height as int));
                }
                if adjacent_before(*grid, t1, o, t2, x as int, grid.height as int) {
                    let (x2, y2) = choose|x2: int, y2: int|
                        scanned_before(x2, y2, x as int, grid.height as int)
                            && #[trigger] grid.tile_at(x2, y2) == Some(t1) && grid.tile_at(
                            o.spec_offset(x2, y2).0,
                            o.spec_offset(x2, y2).1,
                        ) == Some(t2);
                    assert(scanned_before(x2, y2, x + 1, 0));
                }
            }
        }
        x += 1;
    }
    proof {
        assert forall|t: Tile| r.contains_key(t) <==> grid.has_tile(t) by {
            if grid.has_tile(t) {
                let (x2, y2) = choose|x2: int, y2: int| #[trigger] grid.tile_at(x2, y2) == Some(t);
                assert(0 <= x2 < grid.width);
                assert(scanned_before(x2, y2, grid.width as int, 0));
                assert(has_tile_before(*grid, t, grid.width as int, 0));
            }
        }
        assert forall|t1: Tile, o: Orientation, t2: Tile|
            r.allows(t1, o, t2) <==> grid.adjacent(t1, o, t2) by {
            if grid.adjacent(t1, o, t2) {
                let (x2, y2) = choose|x2: int, y2: int|
                    #[trigger] grid.tile_at(x2, y2) == Some(t1) && grid.tile_at(
                        o.spec_offset(x2, y2).0,
                        o.spec_offset(x2, y2).1,
                    ) == Some(t2);
                assert(0 <= x2 < grid.width);
                assert(scanned_before(x2, y2, grid.width as int, 0));
                assert(adjacent_before(*grid, t1, o, t2, grid.width as int, 0));
            }
        }
    }
    r
}

/// The tile `ps[t.prototype_index]` produces when `t`'s orientation is
/// advanced by `k` quarter turns and canonicalized.
pub open spec fn rotated_tile(ps: Seq<Prototype>, t: Tile, k: int) -> Tile {
    ps[t.prototype_index as int].spec_make_rotated_tile(t.orientation, k)
}

/// `a` is a rotation of some key of `base`.
pub open spec fn rotation_of_key(base: AdjacencyTable, ps: Seq<Prototype>, a: Tile) -> bool {
    exists|t: Tile, k: int|
        #![trigger rotated_tile(ps, t, k)]
        0 <= k < 4 && base.contains_key(t) && a == rotated_tile(ps, t, k)
}

/// `(a, o2, b)` is a rotation of some rule of `base`: both tiles rotated by
/// the same amount, and the direction advanced by it.
pub open spec fn rotation_of_rule(
    base: AdjacencyTable,
    ps: Seq<Prototype>,
    a: Tile,
    o2: Orientation,
    b: Tile,
) -> bool {
    exists|t1: Tile, o: Orientation, t2: Tile, k: int|
        #![trigger base.allows(t1, o, t2), rotated_tile(ps, t2, k)]
        0 <= k < 4 && base.allows(t1, o, t2) && a == rotated_tile(ps, t1, k) && o2
            == o.spec_rotated(k) && b == rotated_tile(ps, t2, k)
}

/// `rotation_of_key`, restricted to base entries before `(ei0, k0)` in the
/// entry-by-entry, rotation-by-rotation expansion order.
spec fn keys_upto(base: AdjacencyTable, ps: Seq<Prototype>, a: Tile, ei0: int, k0: int) -> bool {
    exists|ei: int, k: int|
        #![trigger rotated_tile(ps, base.entries@[ei].0, k)]
        0 <= ei < base.entries@.len() && 0 <= k < 4 && (ei < ei0 || (ei == ei0 && k < k0)) && a
            == rotated_tile(ps, base.entries@[ei].0, k)
}

/// `rotation_of_rule`, restricted to base entries before `(ei0, k0)`.
spec fn allows_upto(
    base: AdjacencyTable,
    ps: Seq<Prototype>,
    a: Tile,
    o2: Orientation,
    b: Tile,
    ei0: int,
    k0: int,
) -> bool {
    exists|ei: int, o: Orientation, j: int, k: int|
        #![trigger rotated_tile(ps, base.entries@[ei].1.spec_get(o)[j], k)]
        0 <= ei < base.entries@.len() && 0 <= k < 4 && (ei < ei0 || (ei == ei0 && k < k0)) && 0
            <= j < base.entries@[ei].1.spec_get(o).len() && a == rotated_tile(
            ps,
            base.entries@[ei].0,
            k,
        ) && o2 == o.spec_rotated(k) && b == rotated_tile(
            ps,
            base.entries@[ei].1.spec_get(o)[j],
            k,
        )
}

/// Insert into entry `ki` of `r`, under direction `o2`, the rotation by `k`
/// quarter turns of every tile of `set`.
fn add_rotated_set(
    r: &mut AdjacencyTable,
    ki: usize,
    o2: Orientation,
    set: &TileSet,
    k: usize,
    prototypes: &Vec<Prototype>,
)
    requires
        old(r).wf(),
        ki < old(r).entries@.len(),
        k < 4,
        prototypes_wf(prototypes@),
        forall|j: int| 0 <= j < set@.len() ==> (#[trigger] set@[j]).prototype_index
            < prototypes@.len(),
    ensures
        final(r).wf(),
        final(r).entries@.len() == old(r).entries@.len(),
        forall|j: int|
            0 <= j < final(r).entries@.len() ==> (#[trigger] final(r).entries@[j]).0 == old(
                r,
            ).entries@[j].0,
        forall|x: Tile| #[trigger] final(r).contains_key(x) <==> old(r).contains_key(x),
        forall|a: Tile, oo: Orientation, b: Tile|
            #[trigger] final(r).allows(a, oo, b) <==> old(r).allows(a, oo, b) || (a == old(
                r,
            ).entries@[ki as int].0 && oo == o2 && exists|j: int|
                0 <= j < set@.len() && b == rotated_tile(prototypes@, #[trigger] set@[j], k as int)),
{
    let ghost key = old(r).entries@[ki as int].0;
    let mut j: usize = 0;
    while j < set.len()
        invariant
            r.wf(),
            ki < r.entries@.len(),
            r.entries@[ki as int].0 == key,
            k < 4,
            j <= set@.len(),
            prototypes_wf(prototypes@),
            forall|j2: int| 0 <= j2 < set@.len() ==> (#[trigger] set@[j2]).prototype_index
                < prototypes@.len(),
            r.entries@.len() == old(r).entries@.len(),
            forall|j2: int|
                0 <= j2 < r.entries@.len() ==> (#[trigger] r.entries@[j2]).0 == old(
                    r,
                ).entries@[j2].0,
            forall|x: Tile| #[trigger] r.contains_key(x) <==> old(r).contains_key(x),
            forall|a: Tile, oo: Orientation, b: Tile|
                #[trigger] r.allows(a, oo, b) <==> old(r).allows(a, oo, b) || (a == key && oo == o2
                    && exists|j2: int|
                    0 <= j2 < j && b == rotated_tile(prototypes@, #[trigger] set@[j2], k as int)),
        decreases set@.len() - j,
    {
        let bt = set.index(j);
        let rb = prototypes[bt.prototype_index].make_rotated_tile(bt.orientation, k as i32);
        proof {
            assert(rb == rotated_tile(prototypes@, set@[j as int], k as int));
        }
        let ghost before = *r;
        r.insert_allowed(ki, o2, rb);
        proof {
            assert(before.entries@[ki as int].0 == key);
            assert forall|a: Tile, oo: Orientation, b: Tile|
                r.allows(a, oo, b) <==> old(r).allows(a, oo, b) || (a == key && oo == o2
                    && exists|j2: int|
                    0 <= j2 < j + 1 && b == rotated_tile(
                        prototypes@,
                        #[trigger] set@[j2],
                        k as int,
                    )) by {
                if r.allows(a, oo, b) {
                    if before.allows(a, oo, b) {
                        if !old(r).allows(a, oo, b) {
                            let j2 = choose|j2: int|
                                0 <= j2 < j && b == rotated_tile(
                                    prototypes@,
                                    #[trigger] set@[j2],
                                    k as int,
                                );
                            assert(0 <= j2 < j + 1 && b == rotated_tile(
                                prototypes@,
                                set@[j2],
                                k as int,
                            ));
                        }
                    } else {
                        assert(a == key && oo == o2 && b == rb);
                        assert(b == rotated_tile(prototypes@, set@[j as int], k as int));
                    }
                }
                if old(r).allows(a, oo, b) {
                    assert(before.allows(a, oo, b));
                    assert(r.allows(a, oo, b));
                }
                if a == key && oo == o2 && exists|j2: int|
                    0 <= j2 < j + 1 && b == rotated_tile(
                        prototypes@,
                        #[trigger] set@[j2],
                        k as int,
                    ) {
                    let j2 = choose|j2: int|
                        0 <= j2 < j + 1 && b == rotated_tile(
                            prototypes@,
                            #[trigger] set@[j2],
                            k as int,
                        );
                    if j2 < j {
                        assert(before.allows(a, oo, b));
                    } else {
                        assert(b == rb);
                    }
                    assert(r.allows(a, oo, b));
                }
            }
        }
        j += 1;
    }
}
/// One entry's contribution to the expanded table for a single rotation
/// amount `k`: direction `oo` and tile `b` arise from some authored
/// direction and allowed tile of `al`, both advanced by `k`.
spec fn rotation_contribution(
    al: Allowed,
    ps: Seq<Prototype>,
    oo: Orientation,
    b: Tile,
    k: int,
) -> bool {
    exists|o: Orientation, j: int|
        #![trigger rotated_tile(ps, al.spec_get(o)[j], k)]
        oo == o.spec_rotated(k) && 0 <= j < al.spec_get(o).len() && b == rotated_tile(
            ps,
            al.spec_get(o)[j],
            k,
        )
}

/// Insert into entry `ki` of `r` the whole of `al` rotated by `k` quarter
/// turns: each direction advanced by `k`, each allowed tile rotated by `k`.
fn expand_entry_rotation(
    r: &mut AdjacencyTable,
    al: &Allowed,
    ki: usize,
    k: usize,
    prototypes: &Vec<Prototype>,
)
    requires
        old(r).wf(),
        ki < old(r).entries@.len(),
        k < 4,
        prototypes_wf(prototypes@),
        forall|o: Orientation, j: int|
            0 <= j < al.spec_get(o).len() ==> (#[trigger] al.spec_get(o)[j]).prototype_index
                < prototypes@.len(),
    ensures
        final(r).wf(),
        final(r).entries@.len() == old(r).entries@.len(),
        forall|j: int|
            0 <= j < final(r).entries@.len() ==> (#[trigger] final(r).entries@[j]).0 == old(
                r,
            ).entries@[j].0,
        forall|x: Tile| #[trigger] final(r).contains_key(x) <==> old(r).contains_key(x),
        forall|a: Tile, oo: Orientation, b: Tile|
            #[trigger] final(r).allows(a, oo, b) <==> old(r).allows(a, oo, b) || (a == old(
                r,
            ).entries@[ki as int].0 && rotation_contribution(*al, prototypes@, oo, b, k as int)),
{
    let ghost ps = prototypes@;
    let ghost key = old(r).entries@[ki as int].0;
    let ghost s0 = *r;
    add_rotated_set(
        r,
        ki,
        Orientation::North.rotated(k as i32),
        al.get(Orientation::North),
        k,
        prototypes,
    );
    let ghost s1 = *r;
    add_rotated_set(
        r,
        ki,
        Orientation::East.rotated(k as i32),
        al.get(Orientation::East),
        k,
        prototypes,
    );
    let ghost s2 = *r;
    add_rotated_set(
        r,
        ki,
        Orientation::South.rotated(k as i32),
        al.get(Orientation::South),
        k,
        prototypes,
    );
    let ghost s3 = *r;
    add_rotated_set(
        r,
        ki,
        Orientation::West.rotated(k as i32),
        al.get(Orientation::West),
        k,
        prototypes,
    );
    proof {
        assert(s1.entries@[ki as int].0 == key);
        assert(s2.entries@[ki as int].0 == key);
        assert(s3.entries@[ki as int].0 == key);
        let setn = al.spec_get(Orientation::North);
        let sete = al.spec_get(Orientation::East);
        let sets = al.spec_get(Orientation::South);
        let setw = al.spec_get(Orientation::West);
        assert forall|a: Tile, oo: Orientation, b: Tile|
            r.allows(a, oo, b) <==> s0.allows(a, oo, b) || (a == key && rotation_contribution(
                *al,
                ps,
                oo,
                b,
                k as int,
            )) by {
            if r.allows(a, oo, b) {
                if s3.allows(a, oo, b) {
                    if s2.allows(a, oo, b) {
                        if s1.allows(a, oo, b) {
                            if !s0.allows(a, oo, b) {
                                let j = choose|j: int|
                                    #![auto]
                                    0 <= j < setn.len() && b == rotated_tile(ps, setn[j], k as int);
                                assert(b == rotated_tile(
                                    ps,
                                    al.spec_get(Orientation::North)[j],
                                    k as int,
                                ));
                                assert(rotation_contribution(*al, ps, oo, b, k as int));
                            }
                        } else {
                            let j = choose|j: int|
                                #![auto]
                                0 <= j < sete.len() && b == rotated_tile(ps, sete[j], k as int);
                            assert(b == rotated_tile(
                                ps,
                                al.spec_get(Orientation::East)[j],
                                k as int,
                            ));
                            assert(rotation_contribution(*al, ps, oo, b, k as int));
                        }
                    } else {
                        let j = choose|j: int|
                            #![auto]
                            0 <= j < sets.len() && b == rotated_tile(ps, sets[j], k as int);
                        assert(b == rotated_tile(ps, al.spec_get(Orientation::South)[j], k as int));
                        assert(rotation_contribution(*al, ps, oo, b, k as int));
                    }
                } else {
                    let j = choose|j: int|
                        #![auto]
                        0 <= j < setw.len() && b == rotated_tile(ps, setw[j], k as int);
                    assert(b == rotated_tile(ps, al.spec_get(Orientation::West)[j], k as int));
                    assert(rotation_contribution(*al, ps, oo, b, k as int));
                }
            }
            if s0.allows(a, oo, b) {
                assert(s1.allows(a, oo, b));
                assert(s2.allows(a, oo, b));
                assert(s3.allows(a, oo, b));
                assert(r.allows(a, oo, b));
            }
            if a == key && rotation_contribution(*al, ps, oo, b, k as int) {
                let (o, j) = choose|o: Orientation, j: int|
                    #![auto]
                    oo == o.spec_rotated(k as int) && 0 <= j < al.spec_get(o).len() && b
                        == rotated_tile(ps, al.spec_get(o)[j], k as int);
                match o {
                    Orientation::North => {
                        assert(b == rotated_tile(ps, setn[j], k as int));
                        assert(s1.allows(a, oo, b));
                        assert(s2.allows(a, oo, b));
                        assert(s3.allows(a, oo, b));
                    },
                    Orientation::East => {
                        assert(b == rotated_tile(ps, sete[j], k as int));
                        assert(s2.allows(a, oo, b));
                        assert(s3.allows(a, oo, b));
                    },
                    Orientation::South => {
                        assert(b == rotated_tile(ps, sets[j], k as int));
                        assert(s3.allows(a, oo, b));
                    },
                    Orientation::West => {
                        assert(b == rotated_tile(ps, setw[j], k as int));
                    },
                }
                assert(r.allows(a, oo, b));
            }
        }
    }
}

/// After entry `ei` is expanded for rotation `k`, the keys recorded so far
/// are exactly those up to `(ei, k + 1)`.
proof fn lemma_keys_upto_step(
    base: AdjacencyTable,
    ps: Seq<Prototype>,
    r0: AdjacencyTable,
    r: AdjacencyTable,
    ei: int,
    k: int,
    rt: Tile,
)
    requires
        0 <= ei < base.entries@.len(),
        0 <= k < 4,
        rt == rotated_tile(ps, base.entries@[ei].0, k),
        forall|a: Tile| #[trigger] r0.contains_key(a) <==> keys_upto(base, ps, a, ei, k),
        forall|a: Tile| #[trigger] r.contains_key(a) <==> r0.contains_key(a) || a == rt,
    ensures
        forall|a: Tile| #[trigger] r.contains_key(a) <==> keys_upto(base, ps, a, ei, k + 1),
{
    assert forall|a: Tile| r.contains_key(a) <==> keys_upto(base, ps, a, ei, k + 1) by {
        if r.contains_key(a) {
            if r0.contains_key(a) {
                let (ei2, k2) = choose|ei2: int, k2: int|
                    #![auto]
                    0 <= ei2 < base.entries@.len() && 0 <= k2 < 4 && (ei2 < ei || (ei2 == ei && k2
                        < k)) && a == rotated_tile(ps, base.entries@[ei2].0, k2);
                assert(a == rotated_tile(ps, base.entries@[ei2].0, k2));
                assert(keys_upto(base, ps, a, ei, k + 1));
            } else {
                assert(a == rotated_tile(ps, base.entries@[ei].0, k));
                assert(keys_upto(base, ps, a, ei, k + 1));
            }
        }
        if keys_upto(base, ps, a, ei, k + 1) {
            let (ei2, k2) = choose|ei2: int, k2: int|
                #![auto]
                0 <= ei2 < base.entries@.len() && 0 <= k2 < 4 && (ei2 < ei || (ei2 == ei && k2 < k
                    + 1)) && a == rotated_tile(ps, base.entries@[ei2].0, k2);
            if ei2 < ei || k2 < k {
                assert(a == rotated_tile(ps, base.entries@[ei2].0, k2));
                assert(keys_upto(base, ps, a, ei, k));
                assert(r0.contains_key(a));
            } else {
                assert(a == rt);
            }
            assert(r.contains_key(a));
        }
    }
}

/// After entry `ei` is expanded for rotation `k`, the rules recorded so far
/// are exactly those up to `(ei, k + 1)`.
#[verifier::rlimit(100)]
#[verifier::spinoff_prover]
proof fn lemma_allows_upto_step(
    base: AdjacencyTable,
    ps: Seq<Prototype>,
    r1: AdjacencyTable,
    r: AdjacencyTable,
    ei: int,
    k: int,
    rt: Tile,
)
    requires
        0 <= ei < base.entries@.len(),
        0 <= k < 4,
        rt == rotated_tile(ps, base.entries@[ei].0, k),
        forall|a: Tile, o2: Orientation, b: Tile|
            #[trigger] r1.allows(a, o2, b) <==> allows_upto(base, ps, a, o2, b, ei, k),
        forall|a: Tile, o2: Orientation, b: Tile|
            #[trigger] r.allows(a, o2, b) <==> r1.allows(a, o2, b) || (a == rt
                && rotation_contribution(base.entries@[ei].1, ps, o2, b, k)),
    ensures
        forall|a: Tile, o2: Orientation, b: Tile|
            #[trigger] r.allows(a, o2, b) <==> allows_upto(base, ps, a, o2, b, ei, k + 1),
{
    let al = base.entries@[ei].1;
    assert forall|a: Tile, o2: Orientation, b: Tile|
        r.allows(a, o2, b) <==> allows_upto(base, ps, a, o2, b, ei, k + 1) by {
        if r.allows(a, o2, b) {
            if r1.allows(a, o2, b) {
                let (ei2, o, j, k2) = choose|ei2: int, o: Orientation, j: int, k2: int|
                    #![auto]
                    0 <= ei2 < base.entries@.len() && 0 <= k2 < 4 && (ei2 < ei || (ei2 == ei && k2
                        < k)) && 0 <= j < base.entries@[ei2].1.spec_get(o).len() && a
                        == rotated_tile(ps, base.entries@[ei2].0, k2) && o2 == o.spec_rotated(k2)
                        && b == rotated_tile(ps, base.entries@[ei2].1.spec_get(o)[j], k2);
                assert(b == rotated_tile(ps, base.entries@[ei2].1.spec_get(o)[j], k2));
                assert(allows_upto(base, ps, a, o2, b, ei, k + 1));
            } else {
                let (o, j) = choose|o: Orientation, j: int|
                    #![auto]
                    o2 == o.spec_rotated(k) && 0 <= j < al.spec_get(o).len() && b == rotated_tile(
                        ps,
                        al.spec_get(o)[j],
                        k,
                    );
                assert(a == rotated_tile(ps, base.entries@[ei].0, k));
                assert(b == rotated_tile(ps, base.entries@[ei].1.spec_get(o)[j], k));
                assert(allows_upto(base, ps, a, o2, b, ei, k + 1));
            }
        }
        if allows_upto(base, ps, a, o2, b, ei, k + 1) {
            let (ei2, o, j, k2) = choose|ei2: int, o: Orientation, j: int, k2: int|
                #![auto]
                0 <= ei2 < base.entries@.len() && 0 <= k2 < 4 && (ei2 < ei || (ei2 == ei && k2 < k
                    + 1)) && 0 <= j < base.entries@[ei2].1.spec_get(o).len() && a == rotated_tile(
                    ps,
                    base.entries@[ei2].0,
                    k2,
                ) && o2 == o.spec_rotated(k2) && b == rotated_tile(
                    ps,
                    base.entries@[ei2].1.spec_get(o)[j],
                    k2,
                );
            if ei2 < ei || k2 < k {
                assert(b == rotated_tile(ps, base.entries@[ei2].1.spec_get(o)[j], k2));
                assert(allows_upto(base, ps, a, o2, b, ei, k));
                assert(r1.allows(a, o2, b));
            } else {
                assert(ei2 == ei && k2 == k);
                assert(a == rt);
                assert(b == rotated_tile(ps, al.spec_get(o)[j], k));
                assert(rotation_contribution(al, ps, o2, b, k));
            }
            assert(r.allows(a, o2, b));
        }
    }
}

/// Finishing the four rotations of entry `ei` is the same as standing at the
/// start of entry `ei + 1`.
proof fn lemma_upto_next_entry(base: AdjacencyTable, ps: Seq<Prototype>, ei: int)
    requires
        0 <= ei < base.entries@.len(),
    ensures
        forall|a: Tile| keys_upto(base, ps, a, ei, 4) <==> keys_upto(base, ps, a, ei + 1, 0),
        forall|a: Tile, o2: Orientation, b: Tile|
            allows_upto(base, ps, a, o2, b, ei, 4) <==> allows_upto(base, ps, a, o2, b, ei + 1, 0),
{
    assert forall|a: Tile| keys_upto(base, ps, a, ei, 4) <==> keys_upto(base, ps, a, ei + 1, 0) by {
        if keys_upto(base, ps, a, ei, 4) {
            let (ei2, k2) = choose|ei2: int, k2: int|
                #![auto]
                0 <= ei2 < base.entries@.len() && 0 <= k2 < 4 && (ei2 < ei || (ei2 == ei && k2 < 4))
                    && a == rotated_tile(ps, base.entries@[ei2].0, k2);
            assert(a == rotated_tile(ps, base.entries@[ei2].0, k2));
            assert(keys_upto(base, ps, a, ei + 1, 0));
        }
        if keys_upto(base, ps, a, ei + 1, 0) {
            let (ei2, k2) = choose|ei2: int, k2: int|
                #![auto]
                0 <= ei2 < base.entries@.len() && 0 <= k2 < 4 && ei2 < ei + 1 && a == rotated_tile(
                    ps,
                    base.entries@[ei2].0,
                    k2,
                );
            assert(a == rotated_tile(ps, base.entries@[ei2].0, k2));
            assert(keys_upto(base, ps, a, ei, 4));
        }
    }
    assert forall|a: Tile, o2: Orientation, b: Tile|
        allows_upto(base, ps, a, o2, b, ei, 4) <==> allows_upto(base, ps, a, o2, b, ei + 1, 0) by {
        if allows_upto(base, ps, a, o2, b, ei, 4) {
            let (ei2, o, j, k2) = choose|ei2: int, o: Orientation, j: int, k2: int|
                #![auto]
                0 <= ei2 < base.entries@.len() && 0 <= k2 < 4 && (ei2 < ei || (ei2 == ei && k2 < 4))
                    && 0 <= j < base.entries@[ei2].1.spec_get(o).len() && a == rotated_tile(
                    ps,
                    base.entries@[ei2].0,
                    k2,
                ) && o2 == o.spec_rotated(k2) && b == rotated_tile(
                    ps,
                    base.entries@[ei2].1.spec_get(o)[j],
                    k2,
                );
            assert(b == rotated_tile(ps, base.entries@[ei2].1.spec_get(o)[j], k2));
            assert(allows_upto(base, ps, a, o2, b, ei + 1, 0));
        }
        if allows_upto(base, ps, a, o2, b, ei + 1, 0) {
            let (ei2, o, j, k2) = choose|ei2: int, o: Orientation, j: int, k2: int|
                #![auto]
                0 <= ei2 < base.entries@.len() && 0 <= k2 < 4 && ei2 < ei + 1 && 0 <= j
                    < base.entries@[ei2].1.spec_get(o).len() && a == rotated_tile(
                    ps,
                    base.entries@[ei2].0,
                    k2,
                ) && o2 == o.spec_rotated(k2) && b == rotated_tile(
                    ps,
                    base.entries@[ei2].1.spec_get(o)[j],
                    k2,
                );
            assert(b == rotated_tile(ps, base.entries@[ei2].1.spec_get(o)[j], k2));
            assert(allows_upto(base, ps, a, o2, b, ei, 4));
        }
    }
}

/// Having expanded every entry is the same as holding every rotation of a
/// key and every rotation of a rule.
proof fn lemma_upto_complete(base: AdjacencyTable, ps: Seq<Prototype>)
    ensures
        forall|a: Tile|
            keys_upto(base, ps, a, base.entries@.len() as int, 0) <==> rotation_of_key(
                base,
                ps,
                a,
            ),
        forall|a: Tile, o2: Orientation, b: Tile|
            allows_upto(base, ps, a, o2, b, base.entries@.len() as int, 0) <==> rotation_of_rule(
                base,
                ps,
                a,
                o2,
                b,
            ),
{
    let n = base.entries@.len() as int;
    assert forall|a: Tile| keys_upto(base, ps, a, n, 0) <==> rotation_of_key(base, ps, a) by {
        if keys_upto(base, ps, a, n, 0) {
            let (ei2, k2) = choose|ei2: int, k2: int|
                #![auto]
                0 <= ei2 < base.entries@.len() && 0 <= k2 < 4 && ei2 < n && a == rotated_tile(
                    ps,
                    base.entries@[ei2].0,
                    k2,
                );
            let t = base.entries@[ei2].0;
            assert(base.contains_key(t)) by {
                assert(base.entries@[ei2].0 == t);
            }
            assert(a == rotated_tile(ps, t, k2));
            assert(rotation_of_key(base, ps, a));
        }
        if rotation_of_key(base, ps, a) {
            let (t, k2) = choose|t: Tile, k2: int|
                #![trigger rotated_tile(ps, t, k2)]
                0 <= k2 < 4 && base.contains_key(t) && a == rotated_tile(ps, t, k2);
            let ei2 = choose|ei2: int|
                0 <= ei2 < base.entries@.len() && (#[trigger] base.entries@[ei2]).0 == t;
            assert(a == rotated_tile(ps, base.entries@[ei2].0, k2));
            assert(keys_upto(base, ps, a, n, 0));
        }
    }
    assert forall|a: Tile, o2: Orientation, b: Tile|
        allows_upto(base, ps, a, o2, b, n, 0) <==> rotation_of_rule(base, ps, a, o2, b) by {
        if allows_upto(base, ps, a, o2, b, n, 0) {
            let (ei2, o, j, k2) = choose|ei2: int, o: Orientation, j: int, k2: int|
                #![auto]
                0 <= ei2 < base.entries@.len() && 0 <= k2 < 4 && ei2 < n && 0 <= j
                    < base.entries@[ei2].1.spec_get(o).len() && a == rotated_tile(
                    ps,
                    base.entries@[ei2].0,
                    k2,
                ) && o2 == o.spec_rotated(k2) && b == rotated_tile(
                    ps,
                    base.entries@[ei2].1.spec_get(o)[j],
                    k2,
                );
            let t1 = base.entries@[ei2].0;
            let t2 = base.entries@[ei2].1.spec_get(o)[j];
            assert(base.allows(t1, o, t2)) by {
                assert(base.entries@[ei2].0 == t1);
                assert(base.entries@[ei2].1.spec_get(o).contains(t2));
            }
            assert(b == rotated_tile(ps, t2, k2));
            assert(rotation_of_rule(base, ps, a, o2, b));
        }
        if rotation_of_rule(base, ps, a, o2, b) {
            let (t1, o, t2, k2) = choose|t1: Tile, o: Orientation, t2: Tile, k2: int|
                #![trigger base.allows(t1, o, t2), rotated_tile(ps, t2, k2)]
                0 <= k2 < 4 && base.allows(t1, o, t2) && a == rotated_tile(ps, t1, k2) && o2
                    == o.spec_rotated(k2) && b == rotated_tile(ps, t2, k2);
            let ei2 = choose|ei2: int|
                0 <= ei2 < base.entries@.len() && (#[trigger] base.entries@[ei2]).0 == t1
                    && base.entries@[ei2].1.spec_get(o).contains(t2);
            let j = choose|j: int|
                0 <= j < base.entries@[ei2].1.spec_get(o).len() && base.entries@[ei2].1.spec_get(
                    o,
                )[j] == t2;
            assert(b == rotated_tile(ps, base.entries@[ei2].1.spec_get(o)[j], k2));
            assert(allows_upto(base, ps, a, o2, b, n, 0));
        }
    }
}

/// Expand an adjacency table over the rotation group: every rule is copied
/// for each of the four rotation amounts, with both tiles rotated through
/// their prototypes' symmetry classes and the direction advanced alongside.
/// Symmetric prototypes collapse onto fewer keys, and repeated insertions
/// into one set are idempotent.
pub fn expand_with_rotations(constraints: &AdjacencyTable, prototypes: &Vec<Prototype>) -> (r:
    AdjacencyTable)
    requires
        constraints.wf(),
        prototypes_wf(prototypes@),
        constraints.valid_for(prototypes@.len() as int),
    ensures
        r.wf(),
        forall|a: Tile|
            #[trigger] r.contains_key(a) <==> rotation_of_key(*constraints, prototypes@, a),
        forall|a: Tile, o2: Orientation, b: Tile|
            #[trigger] r.allows(a, o2, b) <==> rotation_of_rule(*constraints, prototypes@, a, o2, b),
{
    let ghost ps = prototypes@;
    let mut r = AdjacencyTable::new();
    let mut ei: usize = 0;
    while ei < constraints.entries.len()
        invariant
            constraints.wf(),
            prototypes_wf(ps),
            ps == prototypes@,
            constraints.valid_for(ps.len() as int),
            r.wf(),
            ei <= constraints.entries@.len(),
            forall|a: Tile|
                #[trigger] r.contains_key(a) <==> keys_upto(*constraints, ps, a, ei as int, 0),
            forall|a: Tile, o2: Orientation, b: Tile|
                #[trigger] r.allows(a, o2, b) <==> allows_upto(
                    *constraints,
                    ps,
                    a,
                    o2,
                    b,
                    ei as int,
                    0,
                ),
        decreases constraints.entries@.len() - ei,
    {
        let tile = constraints.entries[ei].0;
        proof {
            assert(constraints.contains_key(tile)) by {
                assert(constraints.entries@[ei as int].0 == tile);
            }
            assert forall|o: Orientation, j: int|
                0 <= j < constraints.entries@[ei as int].1.spec_get(o).len() implies (
            #[trigger] constraints.entries@[ei as int].1.spec_get(o)[j]).prototype_index
                < ps.len() by {
                let b = constraints.entries@[ei as int].1.spec_get(o)[j];
                assert(constraints.allows(tile, o, b)) by {
                    assert(constraints.entries@[ei as int].0 == tile);
                    assert(constraints.entries@[ei as int].1.spec_get(o).contains(b));
                }
            }
        }
        let mut k: usize = 0;
        while k < 4
            invariant
                constraints.wf(),
                prototypes_wf(ps),
                ps == prototypes@,
                constraints.valid_for(ps.len() as int),
                r.wf(),
                ei < constraints.entries@.len(),
                k <= 4,
                tile == constraints.entries@[ei as int].0,
                tile.prototype_index < ps.len(),
                forall|o: Orientation, j: int|
                    0 <= j < constraints.entries@[ei as int].1.spec_get(o).len() ==> (
                #[trigger] constraints.entries@[ei as int].1.spec_get(o)[j]).prototype_index
                    < ps.len(),
                forall|a: Tile|
                    #[trigger] r.contains_key(a) <==> keys_upto(
                        *constraints,
                        ps,
                        a,
                        ei as int,
                        k as int,
                    ),
                forall|a: Tile, o2: Orientation, b: Tile|
                    #[trigger] r.allows(a, o2, b) <==> allows_upto(
                        *constraints,
                        ps,
                        a,
                        o2,
                        b,
                        ei as int,
                        k as int,
                    ),
            decreases 4 - k,
        {
            let rt = prototypes[tile.prototype_index].make_rotated_tile(tile.orientation, k as i32);
            proof {
                assert(rt == rotated_tile(ps, tile, k as int));
            }
            let ghost r0 = r;
            let ki = r.ensure_key(rt);
            proof {
                lemma_keys_upto_step(*constraints, ps, r0, r, ei as int, k as int, rt);
            }
            let ghost r1 = r;
            expand_entry_rotation(&mut r, &constraints.entries[ei].1, ki, k, prototypes);
            proof {
                assert(r1.entries@[ki as int].0 == rt);
                lemma_allows_upto_step(*constraints, ps, r1, r, ei as int, k as int, rt);
                assert forall|a: Tile|
                    r.contains_key(a) <==> keys_upto(
                        *constraints,
                        ps,
                        a,
                        ei as int,
                        k + 1,
                    ) by {}
            }
            k += 1;
        }
        proof {
            lemma_upto_next_entry(*constraints, ps, ei as int);
        }
        ei += 1;
    }
    proof {
        lemma_upto_complete(*constraints, ps);
    }
    r
}
/// The rule set of a solve: the size of the output grid, the prototype
/// palette, and the adjacency table currently in force.
#[derive(Debug)]
pub struct Rules {
    pub width: usize,
    pub height: usize,
    pub prototypes: Vec<Prototype>,
    pub alloweds: AdjacencyTable,
}

impl Rules {
    pub open spec fn wf(self) -> bool {
        prototypes_wf(self.prototypes@) && self.alloweds.wf() && self.alloweds.valid_for(
            self.prototypes@.len() as int,
        )
    }

    /// A rule set with no adjacency rules yet.
    pub fn new(width: usize, height: usize, prototypes: Vec<Prototype>) -> (r: Self)
        requires
            prototypes_wf(prototypes@),
        ensures
            r.wf(),
            r.width == width,
            r.height == height,
            r.prototypes@ == prototypes@,
            r.alloweds.entries@.len() == 0,
    {
        Rules { width, height, prototypes, alloweds: AdjacencyTable::new() }
    }
}

/// `a` is a rotation of some tile placed on the rule grid: what the key set
/// of the rebuilt adjacency table holds.
pub open spec fn expanded_has(g: RuleGrid, ps: Seq<Prototype>, a: Tile) -> bool {
    exists|t: Tile, k: int|
        #![trigger rotated_tile(ps, t, k)]
        0 <= k < 4 && g.has_tile(t) && a == rotated_tile(ps, t, k)
}

/// `(a, o2, b)` is a rotation of some neighbour relation of the rule grid:
/// what the rebuilt adjacency table allows.
pub open spec fn expanded_adjacent(
    g: RuleGrid,
    ps: Seq<Prototype>,
    a: Tile,
    o2: Orientation,
    b: Tile,
) -> bool {
    exists|t1: Tile, o: Orientation, t2: Tile, k: int|
        #![trigger g.adjacent(t1, o, t2), rotated_tile(ps, t2, k)]
        0 <= k < 4 && g.adjacent(t1, o, t2) && a == rotated_tile(ps, t1, k) && o2
            == o.spec_rotated(k) && b == rotated_tile(ps, t2, k)
}

/// Adjacency symmetry after expansion: whenever the extracted and expanded
/// rules allow `b` next to `a` in some direction, they also allow `a` next
/// to `b` in the opposite direction.
pub proof fn lemma_adjacency_symmetry(
    g: RuleGrid,
    ps: Seq<Prototype>,
    a: Tile,
    o2: Orientation,
    b: Tile,
)
    requires
        expanded_adjacent(g, ps, a, o2, b),
    ensures
        expanded_adjacent(g, ps, b, o2.spec_opposite(), a),
{
    let (t1, o, t2, k) = choose|t1: Tile, o: Orientation, t2: Tile, k: int|
        #![trigger g.adjacent(t1, o, t2), rotated_tile(ps, t2, k)]
        0 <= k < 4 && g.adjacent(t1, o, t2) && a == rotated_tile(ps, t1, k) && o2
            == o.spec_rotated(k) && b == rotated_tile(ps, t2, k);
    let (x, y) = choose|x: int, y: int|
        #![auto]
        g.tile_at(x, y) == Some(t1) && g.tile_at(o.spec_offset(x, y).0, o.spec_offset(x, y).1)
            == Some(t2);
    let (nx, ny) = o.spec_offset(x, y);
    assert(o.spec_opposite().spec_offset(nx, ny) == (x, y));
    assert(g.adjacent(t2, o.spec_opposite(), t1)) by {
        assert(g.tile_at(nx, ny) == Some(t2));
        assert(g.tile_at(
            o.spec_opposite().spec_offset(nx, ny).0,
            o.spec_opposite().spec_offset(nx, ny).1,
        ) == Some(t1));
    }
    crate::tile::lemma_opposite_is_half_turn(o);
    crate::tile::lemma_opposite_is_half_turn(o2);
    crate::tile::lemma_rotated_twice(o, 2, k);
    crate::tile::lemma_rotated_twice(o, k, 2);
    assert(o.spec_opposite().spec_rotated(k) == o2.spec_opposite());
    assert(expanded_adjacent(g, ps, b, o2.spec_opposite(), a)) by {
        assert(g.adjacent(t2, o.spec_opposite(), t1));
        assert(a == rotated_tile(ps, t1, k));
    }
}

/// Rebuild the adjacency table from the rule grid: extract every authored
/// neighbour relation, expand the result over the rotation group, and put
/// the new table in force whole. The grid's rotational closure makes the
/// table symmetric: an allowed pair read one way is allowed the other way
/// round in the opposite direction.
pub fn rebuild_rules(rules: &mut Rules, grid: &RuleGrid)
    requires
        old(rules).wf(),
        grid.wf(),
        grid.valid_for(old(rules).prototypes@.len() as int),
    ensures
        final(rules).wf(),
        final(rules).width == old(rules).width,
        final(rules).height == old(rules).height,
        final(rules).prototypes == old(rules).prototypes,
        forall|a: Tile|
            #[trigger] final(rules).alloweds.contains_key(a) <==> expanded_has(
                *grid,
                old(rules).prototypes@,
                a,
            ),
        forall|a: Tile, o2: Orientation, b: Tile|
            #[trigger] final(rules).alloweds.allows(a, o2, b) <==> expanded_adjacent(
                *grid,
                old(rules).prototypes@,
                a,
                o2,
                b,
            ),
        forall|a: Tile, o2: Orientation, b: Tile|
            #[trigger] final(rules).alloweds.allows(a, o2, b) ==> final(rules).alloweds.allows(
                b,
                o2.spec_opposite(),
                a,
            ),
{
    let ghost ps = rules.prototypes@;
    let ghost n = ps.len() as int;
    let base = extract_rules(grid);
    proof {
        assert forall|t: Tile| #[trigger] base.contains_key(t) implies t.prototype_index < n by {
            let (x, y) = choose|x: int, y: int| #[trigger] grid.tile_at(x, y) == Some(t);
            assert(grid.tile_at(x, y) is Some);
        }
        assert forall|t1: Tile, o: Orientation, t2: Tile|
            #[trigger] base.allows(t1, o, t2) implies t2.prototype_index < n by {
            let (x, y) = choose|x: int, y: int|
                #![auto]
                grid.tile_at(x, y) == Some(t1) && grid.tile_at(
                    o.spec_offset(x, y).0,
                    o.spec_offset(x, y).1,
                ) == Some(t2);
            assert(grid.tile_at(o.spec_offset(x, y).0, o.spec_offset(x, y).1) is Some);
        }
    }
    let expanded = expand_with_rotations(&base, &rules.prototypes);
    proof {
        assert forall|a: Tile|
            expanded.contains_key(a) <==> expanded_has(*grid, ps, a) by {
            if expanded.contains_key(a) {
                let (t, k) = choose|t: Tile, k: int|
                    #![trigger rotated_tile(ps, t, k)]
                    0 <= k < 4 && base.contains_key(t) && a == rotated_tile(ps, t, k);
                assert(grid.has_tile(t));
                assert(expanded_has(*grid, ps, a));
            }
            if expanded_has(*grid, ps, a) {
                let (t, k) = choose|t: Tile, k: int|
                    #![trigger rotated_tile(ps, t, k)]
                    0 <= k < 4 && grid.has_tile(t) && a == rotated_tile(ps, t, k);
                assert(base.contains_key(t));
                assert(rotation_of_key(base, ps, a));
            }
        }
        assert forall|a: Tile, o2: Orientation, b: Tile|
            expanded.allows(a, o2, b) <==> expanded_adjacent(*grid, ps, a, o2, b) by {
            if expanded.allows(a, o2, b) {
                let (t1, o, t2, k) = choose|t1: Tile, o: Orientation, t2: Tile, k: int|
                    #![trigger base.allows(t1, o, t2), rotated_tile(ps, t2, k)]
                    0 <= k < 4 && base.allows(t1, o, t2) && a == rotated_tile(ps, t1, k) && o2
                        == o.spec_rotated(k) && b == rotated_tile(ps, t2, k);
                assert(grid.adjacent(t1, o, t2));
                assert(expanded_adjacent(*grid, ps, a, o2, b));
            }
            if expanded_adjacent(*grid, ps, a, o2, b) {
                let (t1, o, t2, k) = choose|t1: Tile, o: Orientation, t2: Tile, k: int|
                    #![trigger grid.adjacent(t1, o, t2), rotated_tile(ps, t2, k)]
                    0 <= k < 4 && grid.adjacent(t1, o, t2) && a == rotated_tile(ps, t1, k) && o2
                        == o.spec_rotated(k) && b == rotated_tile(ps, t2, k);
                assert(base.allows(t1, o, t2));
                assert(rotation_of_rule(base, ps, a, o2, b));
            }
        }
        assert forall|a: Tile| #[trigger] expanded.contains_key(a) implies a.prototype_index
            < n by {
            let (t, k) = choose|t: Tile, k: int|
                #![trigger rotated_tile(ps, t, k)]
                0 <= k < 4 && grid.has_tile(t) && a == rotated_tile(ps, t, k);
            let (x, y) = choose|x: int, y: int| #[trigger] grid.tile_at(x, y) == Some(t);
            assert(grid.tile_at(x, y) is Some);
            assert(a.prototype_index == ps[t.prototype_index as int].index);
        }
        assert forall|a: Tile, o2: Orientation, b: Tile|
            #[trigger] expanded.allows(a, o2, b) implies b.prototype_index < n by {
            let (t1, o, t2, k) = choose|t1: Tile, o: Orientation, t2: Tile, k: int|
                #![trigger grid.adjacent(t1, o, t2), rotated_tile(ps, t2, k)]
                0 <= k < 4 && grid.adjacent(t1, o, t2) && a == rotated_tile(ps, t1, k) && o2
                    == o.spec_rotated(k) && b == rotated_tile(ps, t2, k);
            let (x, y) = choose|x: int, y: int|
                #![auto]
                grid.tile_at(x, y) == Some(t1) && grid.tile_at(
                    o.spec_offset(x, y).0,
                    o.spec_offset(x, y).1,
                ) == Some(t2);
            assert(grid.tile_at(o.spec_offset(x, y).0, o.spec_offset(x, y).1) is Some);
            assert(b.prototype_index == ps[t2.prototype_index as int].index);
        }
    }
    rules.alloweds = expanded;
    proof {
        assert forall|a: Tile, o2: Orientation, b: Tile|
            #[trigger] rules.alloweds.allows(a, o2, b) implies rules.alloweds.allows(
            b,
            o2.spec_opposite(),
            a,
        ) by {
            lemma_adjacency_symmetry(*grid, ps, a, o2, b);
        }
    }
}

/// The prototype list for a palette: entry `i` of the palette becomes the
/// prototype with index `i` and the palette entry's symmetry class.
pub fn prototypes_from_palette(palette: &Vec<crate::tile::PaletteElement>) -> (r: Vec<Prototype>)
    ensures
        prototypes_wf(r@),
        r@.len() == palette@.len(),
        forall|i: int|
            0 <= i < r@.len() ==> (#[trigger] r@[i]).equivalences == palette@[i].equivalences,
{
    let mut r: Vec<Prototype> = Vec::new();
    let mut i: usize = 0;
    while i < palette.len()
        invariant
            i <= palette@.len(),
            r@.len() == i,
            forall|j: int| 0 <= j < i ==> (#[trigger] r@[j]).index == j,
            forall|j: int| 0 <= j < i ==> (#[trigger] r@[j]).equivalences == palette@[j].equivalences,
        decreases palette@.len() - i,
    {
        r.push(Prototype::new(i, palette[i].equivalences));
        i += 1;
    }
    r
}

} // verus!
