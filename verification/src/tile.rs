//! Oriented tiles, their rotational symmetry classes, and the prototypes that
//! produce them.

use vstd::arithmetic::div_mod::{
    lemma_add_mod_noop, lemma_add_mod_noop_right, lemma_fundamental_div_mod,
    lemma_fundamental_div_mod_converse, lemma_mod_add_multiples_vanish, lemma_mod_bound,
};
use vstd::prelude::*;

verus! {

/// Rotational symmetry class of a prototype's visual asset.
///
/// It decides how many distinct oriented tiles the prototype produces:
/// `FullTurn` keeps all four rotations apart (the tile repeats only after a full turn), `HalfTurn` identifies opposite
/// rotations, and `QuarterTurn` identifies all four.
#[derive(Clone, Copy, PartialEq, Eq, Structural, Hash, Debug)]
pub enum Equivalences {
    FullTurn,
    HalfTurn,
    QuarterTurn,
}

impl Default for Equivalences {
    fn default() -> (r: Self)
        ensures
            r == Equivalences::FullTurn,
    {
        Equivalences::FullTurn
    }
}

/// One of the four cardinal directions; also the orientation of a tile.
#[derive(Clone, Copy, PartialEq, Eq, Structural, Hash, Debug)]
pub enum Orientation {
    North,
    East,
    South,
    West,
}

impl Default for Orientation {
    fn default() -> (r: Self)
        ensures
            r == Orientation::North,
    {
        Orientation::North
    }
}

/// The orientation whose position in the rotation cycle is `i`, for `i` in
/// `[0, 4)`; out-of-range arguments are mapped to `West`.
pub open spec fn orientation_of_index(i: int) -> Orientation {
    if i == 0 {
        Orientation::North
    } else if i == 1 {
        Orientation::East
    } else if i == 2 {
        Orientation::South
    } else {
        Orientation::West
    }
}

impl Orientation {
    /// Position of this orientation in the clockwise rotation cycle.
    pub open spec fn as_int(self) -> int {
        match self {
            Orientation::North => 0,
            Orientation::East => 1,
            Orientation::South => 2,
            Orientation::West => 3,
        }
    }

    /// This orientation advanced by `amount` quarter turns (negative amounts
    /// turn the other way).
    pub open spec fn spec_rotated(self, amount: int) -> Orientation {
        orientation_of_index((self.as_int() + amount) % 4)
    }

    /// The direction pointing the opposite way.
    pub open spec fn spec_opposite(self) -> Orientation {
        match self {
            Orientation::North => Orientation::South,
            Orientation::East => Orientation::West,
            Orientation::South => Orientation::North,
            Orientation::West => Orientation::East,
        }
    }

    /// The four orientations, in rotation-cycle order.
    pub fn values() -> (r: [Orientation; 4])
        ensures
            r@ == seq![
                Orientation::North,
                Orientation::East,
                Orientation::South,
                Orientation::West,
            ],
            forall|i: int| 0 <= i < 4 ==> (#[trigger] r@[i]) == orientation_of_index(i),
    {
        let r = [Orientation::North, Orientation::East, Orientation::South, Orientation::West];
        proof {
            assert(r@ =~= seq![
                Orientation::North,
                Orientation::East,
                Orientation::South,
                Orientation::West,
            ]);
        }
        r
    }

    fn index(&self) -> (r: i32)
        ensures
            r == self.as_int(),
    {
        match self {
            Orientation::North => 0,
            Orientation::East => 1,
            Orientation::South => 2,
            Orientation::West => 3,
        }
    }

    fn from_index(i: i32) -> (r: Orientation)
        requires
            0 <= i < 4,
        ensures
            r == orientation_of_index(i as int),
    {
        if i == 0 {
            Orientation::North
        } else if i == 1 {
            Orientation::East
        } else if i == 2 {
            Orientation::South
        } else {
            Orientation::West
        }
    }

    /// Advance this orientation in place by `amount` quarter turns.
    pub fn rotate(&mut self, amount: i32)
        ensures
            *final(self) == old(self).spec_rotated(amount as int),
    {
        let m: i32 = if amount >= 0 {
            amount % 4
        } else {
            3 - ((-(amount + 1)) % 4)
        };
        proof {
            lemma_amount_mod(amount as int, m as int);
        }
        let i: i32 = self.index();
        proof {
            lemma_add_mod_noop(i as int, amount as int, 4);
            assert((i as int) % 4 == i as int) by {
                lemma_mod_bound(i as int, 4);
                lemma_fundamental_div_mod_converse(i as int, 4, 0, i as int);
            }
        }
        *self = Orientation::from_index((i + m) % 4);
    }

    /// A copy of this orientation advanced by `amount` quarter turns.
    pub fn rotated(&self, amount: i32) -> (r: Self)
        ensures
            r == self.spec_rotated(amount as int),
    {
        let mut ret = *self;
        ret.rotate(amount);
        ret
    }

    /// The grid coordinate one step away from `coordinate` in this direction.
    /// Only the component that moves must have room to do so.
    pub fn offset(&self, coordinate: &Coordinates) -> (r: Coordinates)
        requires
            match self {
                Orientation::North => coordinate.y < i32::MAX,
                Orientation::East => coordinate.x > i32::MIN,
                Orientation::South => coordinate.y > i32::MIN,
                Orientation::West => coordinate.x < i32::MAX,
            },
        ensures
            (r.x as int, r.y as int) == self.spec_offset(coordinate.x as int, coordinate.y as int),
    {
        match self {
            Orientation::North => Coordinates::new(coordinate.x, coordinate.y + 1),
            Orientation::East => Coordinates::new(coordinate.x - 1, coordinate.y),
            Orientation::South => Coordinates::new(coordinate.x, coordinate.y - 1),
            Orientation::West => Coordinates::new(coordinate.x + 1, coordinate.y),
        }
    }

    /// The coordinate one step away from `(x, y)` in this direction.
    pub open spec fn spec_offset(self, x: int, y: int) -> (int, int) {
        match self {
            Orientation::North => (x, y + 1),
            Orientation::East => (x - 1, y),
            Orientation::South => (x, y - 1),
            Orientation::West => (x + 1, y),
        }
    }
}

/// Successive rotations add their amounts.
pub proof fn lemma_rotated_twice(o: Orientation, i: int, j: int)
    ensures
        o.spec_rotated(i).spec_rotated(j) == o.spec_rotated(i + j),
{
    let a = o.as_int();
    lemma_mod_bound(a + i, 4);
    assert(o.spec_rotated(i).as_int() == (a + i) % 4);
    lemma_add_mod_noop(a + i, j, 4);
    lemma_add_mod_noop_right((a + i) % 4, j, 4);
}

/// The opposite direction is a half turn away.
pub proof fn lemma_opposite_is_half_turn(o: Orientation)
    ensures
        o.spec_opposite() == o.spec_rotated(2),
{
    lemma_mod4_small(o.as_int() + 2);
}

/// A remainder by 4 of a value already in `[0, 8)` needs no modulus at all.
pub(crate) proof fn lemma_mod4_small(x: int)
    requires
        0 <= x < 8,
    ensures
        x % 4 == if x < 4 {
            x
        } else {
            x - 4
        },
{
    if x < 4 {
        lemma_fundamental_div_mod_converse(x, 4, 0, x);
    } else {
        lemma_fundamental_div_mod_converse(x, 4, 1, x - 4);
    }
}

/// `m` is the Euclidean remainder of `amount` by 4, as computed by
/// `Orientation::rotate` without leaving the `i32` range.
proof fn lemma_amount_mod(amount: int, m: int)
    requires
        amount >= 0 ==> m == amount % 4,
        amount < 0 ==> m == 3 - ((-(amount + 1)) % 4),
    ensures
        m == amount % 4,
{
    if amount < 0 {
        let n = -(amount + 1);
        lemma_fundamental_div_mod(n, 4);
        lemma_mod_bound(n, 4);
        let q = n / 4;
        let r = n % 4;
        assert(amount == 4 * (-q - 1) + (3 - r));
        lemma_fundamental_div_mod_converse(amount, 4, -q - 1, 3 - r);
    }
}

/// An integer grid position.
#[derive(Clone, Copy, PartialEq, Eq, Structural, Hash, Debug)]
pub struct Coordinates {
    pub x: i32,
    pub y: i32,
}

impl Default for Coordinates {
    fn default() -> (r: Self)
        ensures
            r.x == 0 && r.y == 0,
    {
        Coordinates { x: 0, y: 0 }
    }
}

impl Coordinates {
    pub fn new(x: i32, y: i32) -> (r: Self)
        ensures
            r.x == x && r.y == y,
    {
        Self { x, y }
    }
}

/// An oriented tile: the domain element of the constraint problem.
#[derive(Clone, Copy, PartialEq, Eq, Structural, Hash, Debug)]
pub struct Tile {
    pub prototype_index: usize,
    pub orientation: Orientation,
}

impl Tile {
    pub fn new(prototype_index: usize, orientation: Orientation) -> (t: Self)
        ensures
            t.prototype_index == prototype_index && t.orientation == orientation,
    {
        Self { prototype_index, orientation }
    }
}

/// The representative that a symmetry class assigns to an orientation: two
/// orientations that the class identifies are mapped to the same one.
pub open spec fn canonical_orientation(e: Equivalences, o: Orientation) -> Orientation {
    match e {
        Equivalences::FullTurn => o,
        Equivalences::HalfTurn => match o {
            Orientation::North | Orientation::South => Orientation::North,
            Orientation::East | Orientation::West => Orientation::East,
        },
        Equivalences::QuarterTurn => Orientation::North,
    }
}

/// A tile kind: an index into the (externally held) asset table, together
/// with the rotational symmetry class of that asset.
#[derive(Clone, Copy, PartialEq, Eq, Structural, Hash, Debug)]
pub struct Prototype {
    pub index: usize,
    pub equivalences: Equivalences,
}

impl Prototype {
    pub fn new(index: usize, equivalences: Equivalences) -> (p: Self)
        ensures
            p.index == index && p.equivalences == equivalences,
    {
        Self { index, equivalences }
    }

    pub open spec fn spec_make_tile(self, orientation: Orientation) -> Tile {
        Tile { prototype_index: self.index, orientation }
    }

    /// The tile of this prototype with the given orientation, as placed.
    pub fn make_tile(&self, orientation: Orientation) -> (t: Tile)
        ensures
            t == self.spec_make_tile(orientation),
    {
        Tile::new(self.index, orientation)
    }

    /// The tile this prototype produces when `original` is advanced by
    /// `rotation` quarter turns and the result is canonicalized through the
    /// prototype's symmetry class.
    pub open spec fn spec_make_rotated_tile(self, original: Orientation, rotation: int) -> Tile {
        self.spec_make_tile(
            canonical_orientation(self.equivalences, original.spec_rotated(rotation)),
        )
    }

    /// Rotate `original_orientation` by `rotation` quarter turns, then
    /// canonicalize through this prototype's symmetry class.
    ///
    /// Distinct rotation amounts may produce the same tile: a symmetric asset
    /// looks identical under some rotations, and every set operation on tiles
    /// relies on this canonical value.
    pub fn make_rotated_tile(&self, original_orientation: Orientation, rotation: i32) -> (t: Tile)
        ensures
            t == self.spec_make_rotated_tile(original_orientation, rotation as int),
    {
        let orientation = original_orientation.rotated(rotation);
        let orientation = match self.equivalences {
            Equivalences::FullTurn => orientation,
            Equivalences::HalfTurn => match orientation {
                Orientation::North | Orientation::South => Orientation::North,
                Orientation::East | Orientation::West => Orientation::East,
            },
            Equivalences::QuarterTurn => Orientation::North,
        };
        self.make_tile(orientation)
    }
}

/// A cell of the exemplar rule grid: either empty or a concrete tile.
#[derive(Clone, PartialEq, Debug)]
pub struct OptionalTile {
    pub tile: Option<Tile>,
}

impl OptionalTile {
    pub fn new(tile: Option<Tile>) -> (r: Self)
        ensures
            r.tile == tile,
    {
        Self { tile }
    }
}

impl Default for OptionalTile {
    fn default() -> (r: Self)
        ensures
            r.tile is None,
    {
        OptionalTile { tile: None }
    }
}

impl From<Tile> for OptionalTile {
    fn from(tile: Tile) -> (r: Self)
        ensures
            r.tile == Some(tile),
    {
        Self { tile: Some(tile) }
    }
}

impl vstd::std_specs::convert::FromSpecImpl<Tile> for OptionalTile {
    open spec fn obeys_from_spec() -> bool {
        true
    }

    open spec fn from_spec(tile: Tile) -> Self {
        OptionalTile { tile: Some(tile) }
    }
}

/// A tile to draw in place of a rule-grid cell, as the editor shows it.
#[derive(Clone, PartialEq, Debug)]
pub struct DrawTile {
    pub tile: OptionalTile,
}

impl Default for DrawTile {
    fn default() -> (r: Self)
        ensures
            r.tile.tile is None,
    {
        DrawTile { tile: OptionalTile { tile: None } }
    }
}

/// The prototype currently picked in the palette, together with the rotation
/// amount accumulated from the user's scroll input.
#[derive(Clone, Debug)]
pub struct TileSelection {
    pub rotation: i32,
    pub prototype: Option<Prototype>,
}

impl Default for TileSelection {
    fn default() -> (r: Self)
        ensures
            r.rotation == 0 && r.prototype is None,
    {
        TileSelection { rotation: 0, prototype: None }
    }
}

impl TileSelection {
    /// The concrete tile this selection stands for: the picked prototype
    /// rotated from north by the accumulated amount, if any is picked.
    pub fn make_tile(&self) -> (r: Option<Tile>)
        ensures
            match self.prototype {
                Some(p) => r == Some(
                    p.spec_make_rotated_tile(Orientation::North, self.rotation as int),
                ),
                None => r is None,
            },
    {
        match &self.prototype {
            Some(prototype) => Some(
                prototype.make_rotated_tile(Orientation::North, self.rotation),
            ),
            None => None,
        }
    }
}

/// One entry of the palette the editor offers: the name of the model asset
/// to draw, and the symmetry class of that model.
#[derive(Clone, PartialEq, Debug)]
pub struct PaletteElement {
    pub tile_model: String,
    pub equivalences: Equivalences,
}

impl PaletteElement {
    pub fn new(tile_model: &str, symmetry: Equivalences) -> (r: Self)
        ensures
            r.tile_model@ == tile_model@ && r.equivalences == symmetry,
    {
        broadcast use vstd::string::to_string_from_display_ensures_for_str;

        Self { tile_model: tile_model.to_string(), equivalences: symmetry }
    }
}

/// Rotation closure: rotation amounts act on a prototype's tiles modulo
/// four, so four quarter turns bring any canonical tile back to itself,
/// whatever the symmetry class.
pub proof fn lemma_rotation_closure(p: Prototype, t: Tile, k: int)
    requires
        t == p.spec_make_rotated_tile(t.orientation, 0),
    ensures
        p.spec_make_rotated_tile(t.orientation, 4) == t,
        p.spec_make_rotated_tile(t.orientation, k + 4) == p.spec_make_rotated_tile(t.orientation, k),
{
    let a = t.orientation.as_int();
    lemma_mod_add_multiples_vanish(a, 4);
    lemma_mod_add_multiples_vanish(a + k, 4);
    lemma_mod4_small(a);
}

/// The distinct tiles a prototype produces from base orientation `o` over
/// the four rotation amounts.
pub open spec fn rotation_variants(p: Prototype, o: Orientation) -> Set<Tile> {
    Set::new(|t: Tile| exists|k: int| 0 <= k < 4 && t == p.spec_make_rotated_tile(o, k))
}

/// Equivalence cardinality: over the four rotation amounts, a prototype
/// whose symmetry class is `FullTurn` produces exactly four distinct tiles,
/// `HalfTurn` exactly two, and `QuarterTurn` exactly one.
pub proof fn lemma_equivalence_cardinality(p: Prototype, o: Orientation)
    ensures
        p.equivalences == Equivalences::FullTurn ==> rotation_variants(p, o).len() == 4,
        p.equivalences == Equivalences::HalfTurn ==> rotation_variants(p, o).len() == 2,
        p.equivalences == Equivalences::QuarterTurn ==> rotation_variants(p, o).len() == 1,
{
    let t0 = p.spec_make_rotated_tile(o, 0);
    let t1 = p.spec_make_rotated_tile(o, 1);
    let t2 = p.spec_make_rotated_tile(o, 2);
    let t3 = p.spec_make_rotated_tile(o, 3);
    let a = o.as_int();
    lemma_mod4_small(a);
    lemma_mod4_small(a + 1);
    lemma_mod4_small(a + 2);
    lemma_mod4_small(a + 3);
    assert(rotation_variants(p, o).contains(t0));
    assert(rotation_variants(p, o).contains(t1));
    assert(rotation_variants(p, o).contains(t2));
    assert(rotation_variants(p, o).contains(t3));
    assert forall|t: Tile| rotation_variants(p, o).contains(t) implies t == t0 || t == t1 || t == t2
        || t == t3 by {
        let k = choose|k: int| 0 <= k < 4 && t == p.spec_make_rotated_tile(o, k);
        assert(k == 0 || k == 1 || k == 2 || k == 3);
    }
    match p.equivalences {
        Equivalences::FullTurn => {
            assert(rotation_variants(p, o) =~= set![t0, t1, t2, t3]);
            assert(set![t0, t1, t2, t3].len() == 4);
        },
        Equivalences::HalfTurn => {
            assert(t2 == t0 && t3 == t1 && t1 != t0);
            assert(rotation_variants(p, o) =~= set![t0, t1]);
            assert(set![t0, t1].len() == 2);
        },
        Equivalences::QuarterTurn => {
            assert(t1 == t0 && t2 == t0 && t3 == t0);
            assert(rotation_variants(p, o) =~= set![t0]);
            assert(set![t0].len() == 1);
        },
    }
}

} // verus!
