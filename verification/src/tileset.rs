//! Executable sets of tiles, stored as duplicate-free vectors.

use crate::tile::Tile;
use vstd::prelude::*;
use vstd::seq_lib::seq_to_set_is_finite;
use vstd::set_lib::lemma_subset_equality;

verus! {

/// A finite set of tiles: the candidate universe of the rules, a cell's
/// superposition, and every intermediate set the solver computes.
///
/// The items are kept free of duplicates, so the stored length is the
/// cardinality of the set the vector denotes.
#[derive(Debug)]
pub struct TileSet {
    pub items: Vec<Tile>,
}

impl View for TileSet {
    type V = Seq<Tile>;

    open spec fn view(&self) -> Seq<Tile> {
        self.items@
    }
}

impl TileSet {
    /// No tile occurs twice.
    pub open spec fn wf(self) -> bool {
        self@.no_duplicates()
    }

    pub fn new() -> (r: Self)
        ensures
            r@ == Seq::<Tile>::empty(),
            r.wf(),
    {
        TileSet { items: Vec::new() }
    }

    /// The number of tiles held: the entropy, when this is a cell's wave.
    pub fn len(&self) -> (n: usize)
        ensures
            n == self@.len(),
    {
        self.items.len()
    }

    pub fn is_empty(&self) -> (b: bool)
        ensures
            b <==> self@.len() == 0,
    {
        self.items.len() == 0
    }

    /// The tile at position `i` of the underlying vector.
    pub fn index(&self, i: usize) -> (t: Tile)
        requires
            i < self@.len(),
        ensures
            t == self@[i as int],
            self@.contains(t),
    {
        self.items[i]
    }

    pub fn contains(&self, t: &Tile) -> (b: bool)
        ensures
            b == self@.contains(*t),
    {
        let mut i: usize = 0;
        while i < self.items.len()
            invariant
                i <= self.items@.len(),
                forall|j: int| 0 <= j < i ==> self.items@[j] != *t,
            decreases self.items@.len() - i,
        {
            if self.items[i] == *t {
                assert(self@.contains(*t)) by {
                    assert(self@[i as int] == *t);
                }
                return true;
            }
            i += 1;
        }
        false
    }

    /// Add `t` unless it is already present.
    pub fn insert(&mut self, t: Tile)
        requires
            old(self).wf(),
        ensures
            final(self).wf(),
            final(self)@ == if old(self)@.contains(t) {
                old(self)@
            } else {
                old(self)@.push(t)
            },
            final(self)@.len() <= old(self)@.len() + 1,
            forall|x: Tile| final(self)@.contains(x) <==> old(self)@.contains(x) || x == t,
    {
        if !self.contains(&t) {
            self.items.push(t);
            assert(self@.no_duplicates()) by {
                assert(forall|j: int| 0 <= j < self@.len() - 1 ==> self@[j] == old(self)@[j]);
            }
        }
        proof {
            let prev = old(self)@;
            assert forall|x: Tile| self@.contains(x) implies prev.contains(x) || x == t by {
                let k = choose|k: int| 0 <= k < self@.len() && self@[k] == x;
                if !prev.contains(t) && k < self@.len() - 1 {
                    assert(prev[k] == x);
                }
            }
            assert forall|x: Tile| prev.contains(x) implies self@.contains(x) by {
                let k = choose|k: int| 0 <= k < prev.len() && prev[k] == x;
                assert(self@[k] == x);
            }
            assert(self@.contains(t)) by {
                if !prev.contains(t) {
                    assert(self@[self@.len() - 1] == t);
                }
            }
        }
    }

    /// Add every tile of `other`.
    pub fn union_with(&mut self, other: &TileSet)
        requires
            old(self).wf(),
        ensures
            final(self).wf(),
            forall|t: Tile|
                final(self)@.contains(t) <==> old(self)@.contains(t) || other@.contains(t),
            final(self)@.len() <= old(self)@.len() + other@.len(),
    {
        let mut i: usize = 0;
        while i < other.items.len()
            invariant
                i <= other.items@.len(),
                self.wf(),
                forall|t: Tile|
                    self@.contains(t) <==> old(self)@.contains(t) || (exists|j: int|
                        0 <= j < i && other.items@[j] == t),
                self@.len() <= old(self)@.len() + i,
            decreases other.items@.len() - i,
        {
            let t = other.items[i];
            let ghost prev = self@;
            self.insert(t);
            proof {
                assert forall|x: Tile| self@.contains(x) implies prev.contains(x) || x == t by {
                    let k = choose|k: int| 0 <= k < self@.len() && self@[k] == x;
                    if !prev.contains(t) && k < self@.len() - 1 {
                        assert(prev[k] == x);
                    }
                }
                assert forall|x: Tile| prev.contains(x) implies self@.contains(x) by {
                    let k = choose|k: int| 0 <= k < prev.len() && prev[k] == x;
                    assert(self@[k] == x);
                }
                assert(self@.contains(t)) by {
                    if !prev.contains(t) {
                        assert(self@[self@.len() - 1] == t);
                    }
                }
                assert forall|x: Tile|
                    (exists|j: int| 0 <= j < i + 1 && other.items@[j] == x) implies self@.contains(
                    x,
                ) by {
                    let j = choose|j: int| 0 <= j < i + 1 && other.items@[j] == x;
                    if j < i {
                        assert(prev.contains(x));
                    } else {
                        assert(x == t);
                    }
                }
                assert forall|x: Tile|
                    self@.contains(x) && !old(self)@.contains(x) implies (exists|j: int|
                    0 <= j < i + 1 && other.items@[j] == x) by {
                    if prev.contains(x) {
                        let j = choose|j: int| 0 <= j < i && other.items@[j] == x;
                        assert(0 <= j < i + 1 && other.items@[j] == x);
                    } else {
                        assert(x == t);
                        assert(other.items@[i as int] == x);
                    }
                }
            }
            i += 1;
        }
    }

    /// An identical copy, built element by element.
    fn duplicate(&self) -> (r: Self)
        ensures
            r@ == self@,
    {
        let mut items: Vec<Tile> = Vec::new();
        let mut i: usize = 0;
        while i < self.items.len()
            invariant
                i <= self.items@.len(),
                items@ == self.items@.take(i as int),
            decreases self.items@.len() - i,
        {
            items.push(self.items[i]);
            proof {
                assert(items@ =~= self.items@.take(i + 1));
            }
            i += 1;
        }
        proof {
            assert(items@ =~= self.items@);
        }
        TileSet { items }
    }
}

impl Clone for TileSet {
    fn clone(&self) -> (r: Self)
        ensures
            r@ == self@,
    {
        self.duplicate()
    }
}

/// The tiles of `a` that `b` also contains, in the order they stand in `a`.
pub fn intersection(a: &TileSet, b: &TileSet) -> (r: TileSet)
    requires
        a.wf(),
    ensures
        r.wf(),
        forall|t: Tile| r@.contains(t) <==> a@.contains(t) && b@.contains(t),
        r@.len() <= a@.len(),
{
    let mut r = TileSet::new();
    let mut i: usize = 0;
    while i < a.items.len()
        invariant
            i <= a.items@.len(),
            a.wf(),
            r.wf(),
            forall|t: Tile|
                r@.contains(t) <==> (exists|j: int| 0 <= j < i && a.items@[j] == t)
                    && b@.contains(t),
            r@.len() <= i,
        decreases a.items@.len() - i,
    {
        let t = a.items[i];
        if b.contains(&t) {
            assert(!r@.contains(t)) by {
                if r@.contains(t) {
                    let j = choose|j: int| 0 <= j < i && a.items@[j] == t;
                    assert(a.items@[j] == a.items@[i as int]);
                }
            }
            let ghost prev = r@;
            r.insert(t);
            proof {
                assert(r@ == prev.push(t));
                assert forall|x: Tile| r@.contains(x) implies prev.contains(x) || x == t by {
                    let k = choose|k: int| 0 <= k < r@.len() && r@[k] == x;
                    if k < r@.len() - 1 {
                        assert(prev[k] == x);
                    }
                }
                assert forall|x: Tile| prev.contains(x) implies r@.contains(x) by {
                    let k = choose|k: int| 0 <= k < prev.len() && prev[k] == x;
                    assert(r@[k] == x);
                }
                assert(r@[r@.len() - 1] == t);
                assert forall|x: Tile|
                    r@.contains(x) implies (exists|j: int| 0 <= j < i + 1 && a.items@[j] == x)
                    && b@.contains(x) by {
                    if prev.contains(x) {
                        let j = choose|j: int| 0 <= j < i && a.items@[j] == x;
                        assert(0 <= j < i + 1 && a.items@[j] == x);
                    } else {
                        assert(x == t);
                        assert(a.items@[i as int] == x);
                    }
                }
                assert forall|x: Tile|
                    (exists|j: int| 0 <= j < i + 1 && a.items@[j] == x) && b@.contains(
                    x,
                ) implies r@.contains(x) by {
                    let j = choose|j: int| 0 <= j < i + 1 && a.items@[j] == x;
                    if j < i {
                        assert(prev.contains(x));
                    } else {
                        assert(x == t);
                        assert(r@[r@.len() - 1] == t);
                    }
                }
            }
        } else {
            proof {
                assert forall|x: Tile|
                    (exists|j: int| 0 <= j < i + 1 && a.items@[j] == x) && b@.contains(
                    x,
                ) implies r@.contains(x) by {
                    let j = choose|j: int| 0 <= j < i + 1 && a.items@[j] == x;
                    assert(j < i || x == t);
                }
            }
        }
        i += 1;
    }
    r
}

/// Two duplicate-free tile vectors of the same length, one contained in the
/// other, hold exactly the same tiles.
pub proof fn lemma_same_len_subset_equal(a: Seq<Tile>, b: Seq<Tile>)
    requires
        a.no_duplicates(),
        b.no_duplicates(),
        a.len() == b.len(),
        forall|t: Tile| a.contains(t) ==> b.contains(t),
    ensures
        forall|t: Tile| a.contains(t) <==> b.contains(t),
{
    broadcast use seq_to_set_is_finite;

    a.unique_seq_to_set();
    b.unique_seq_to_set();
    assert(a.to_set().subset_of(b.to_set())) by {
        assert forall|t: Tile| a.to_set().contains(t) implies b.to_set().contains(t) by {
            assert(a.contains(t));
        }
    }
    lemma_subset_equality(a.to_set(), b.to_set());
    assert forall|t: Tile| b.contains(t) implies a.contains(t) by {
        assert(b.to_set().contains(t));
        assert(a.to_set().contains(t));
    }
}

} // verus!
