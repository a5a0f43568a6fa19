//! Bounded logs of solver decisions: the guesses made so far and earlier
//! per-cell superpositions, kept for a backtracking recovery that would roll
//! the grid back past a contradiction. The solver records into them; nothing
//! pops them yet.

use crate::tile::Tile;
use crate::tileset::TileSet;
use std::collections::VecDeque;
use vstd::prelude::*;

verus! {

/// The most recent `(cell, chosen tile)` observation decisions, oldest
/// first, capped at a retention limit.
#[derive(Debug)]
pub struct GuessHistory {
    pub history: VecDeque<(usize, Tile)>,
}

impl GuessHistory {
    pub fn new() -> (r: Self)
        ensures
            r.history@.len() == 0,
    {
        GuessHistory { history: VecDeque::new() }
    }

    /// Append one guess and drop the oldest entries beyond `limit`.
    pub fn record(&mut self, cell: usize, tile: Tile, limit: usize)
        ensures
            ({
                let s = old(self).history@.push((cell, tile));
                final(self).history@ == if s.len() <= limit {
                    s
                } else {
                    s.skip(s.len() - limit)
                }
            }),
            final(self).history@.len() <= limit || final(self).history@.len() == old(
                self,
            ).history@.len() + 1,
    {
        let ghost s = self.history@.push((cell, tile));
        self.history.push_back((cell, tile));
        while self.history.len() > limit
            invariant
                self.history@ == s.skip(s.len() - self.history@.len()),
                self.history@.len() <= s.len(),
                self.history@.len() >= limit || self.history@.len() == s.len(),
            decreases self.history@.len(),
        {
            let popped = self.history.pop_front();
            proof {
                let k = s.len() - old(self).history@.len();
                assert(self.history@ =~= s.skip(s.len() - self.history@.len()));
            }
        }
        proof {
            assert(s.skip(0) =~= s);
        }
    }
}

impl Default for GuessHistory {
    fn default() -> (r: Self)
        ensures
            r.history@.len() == 0,
    {
        GuessHistory { history: VecDeque::new() }
    }
}

/// Earlier superpositions of one cell, oldest first, capped at a retention
/// limit.
#[derive(Debug)]
pub struct TileSuperpositionHistory {
    pub history: VecDeque<TileSet>,
}

impl TileSuperpositionHistory {
    pub fn new() -> (r: Self)
        ensures
            r.history@.len() == 0,
    {
        TileSuperpositionHistory { history: VecDeque::new() }
    }

    /// Append one snapshot and drop the oldest entries beyond `limit`.
    pub fn record(&mut self, snapshot: TileSet, limit: usize)
        ensures
            ({
                let s = old(self).history@.push(snapshot);
                final(self).history@ == if s.len() <= limit {
                    s
                } else {
                    s.skip(s.len() - limit)
                }
            }),
    {
        let ghost s = self.history@.push(snapshot);
        self.history.push_back(snapshot);
        while self.history.len() > limit
            invariant
                self.history@ == s.skip(s.len() - self.history@.len()),
                self.history@.len() <= s.len(),
                self.history@.len() >= limit || self.history@.len() == s.len(),
            decreases self.history@.len(),
        {
            let popped = self.history.pop_front();
            proof {
                assert(self.history@ =~= s.skip(s.len() - self.history@.len()));
            }
        }
        proof {
            assert(s.skip(0) =~= s);
        }
    }
}

impl Default for TileSuperpositionHistory {
    fn default() -> (r: Self)
        ensures
            r.history@.len() == 0,
    {
        TileSuperpositionHistory { history: VecDeque::new() }
    }
}

} // verus!
