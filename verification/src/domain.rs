//! The puzzle domain: configuration and well-formedness of peg sequences.

use vstd::prelude::*;

verus! {

/// Number of pegs in the standard puzzle.
pub const NUM_PEGS: usize = 4;

/// Smallest peg value of the standard puzzle.
pub const MIN_PEG_VALUE: i8 = 1;

/// Largest peg value of the standard puzzle.
pub const MAX_PEG_VALUE: i8 = 6;

/// Puzzle configuration, shared by every component: the number of pegs in a
/// sequence and the inclusive range of values a peg may hold.
#[derive(Clone, Copy, PartialEq, Eq, Structural, Debug)]
pub struct Config {
    pub num_pegs: usize,
    pub min_value: i8,
    pub max_value: i8,
}

impl Config {
    /// A configuration is usable when it has at least one peg, the value range
    /// is non-empty, and counts of pegs fit in the feedback type `i8`.
    pub open spec fn wf(self) -> bool {
        &&& 1 <= self.num_pegs <= 127
        &&& 0 <= self.min_value <= self.max_value
    }

    /// How many distinct values a peg may hold.
    pub open spec fn num_values(self) -> int {
        self.max_value - self.min_value + 1
    }

    /// The standard puzzle: four pegs, values one through six.
    pub fn standard() -> (cfg: Config)
        ensures
            cfg == (Config { num_pegs: 4, min_value: 1, max_value: 6 }),
            cfg.wf(),
    {
        Config { num_pegs: NUM_PEGS, min_value: MIN_PEG_VALUE, max_value: MAX_PEG_VALUE }
    }
}

/// A single peg value lies within the configured range.
pub open spec fn peg_in_range(cfg: Config, v: i8) -> bool {
    cfg.min_value <= v <= cfg.max_value
}

/// A peg sequence is well formed: configured length, every value in range.
pub open spec fn pegs_wf(cfg: Config, s: Seq<i8>) -> bool {
    &&& s.len() == cfg.num_pegs
    &&& forall|i: int| 0 <= i < s.len() ==> peg_in_range(cfg, s[i])
}

/// No value occurs at two positions of the sequence.
pub open spec fn no_repeats(s: Seq<i8>) -> bool {
    forall|i: int, j: int| 0 <= i < j < s.len() ==> s[i] != s[j]
}

/// The mathematical contents of a list of peg sequences.
pub open spec fn views_of(cands: Seq<Vec<i8>>) -> Seq<Seq<i8>> {
    cands.map_values(|c: Vec<i8>| c@)
}

/// Every sequence in the collection is well formed.
pub open spec fn all_pegs_wf(cfg: Config, cs: Seq<Seq<i8>>) -> bool {
    forall|i: int| 0 <= i < cs.len() ==> pegs_wf(cfg, #[trigger] cs[i])
}

/// Copies a peg sequence.
pub fn copy_pegs(x: &Vec<i8>) -> (r: Vec<i8>)
    ensures
        r@ == x@,
{
    let mut r: Vec<i8> = Vec::new();
    let mut i: usize = 0;
    while i < x.len()
        invariant
            i <= x.len(),
            r@ == x@.take(i as int),
        decreases x.len() - i,
    {
        r.push(x[i]);
        proof {
            assert(x@.take(i + 1 as int) =~= x@.take(i as int).push(x@[i as int]));
        }
        i = i + 1;
    }
    proof {
        assert(x@.take(x@.len() as int) =~= x@);
    }
    r
}

} // verus!
