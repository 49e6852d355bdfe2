//! Precomputation library for optimal play of a dice-scoring game.
//!
//! The library builds, stage by stage, tables of the optimal decision and
//! expected remaining score for every reachable game state of a Yatzy-style
//! game played with five or six dice.  It provides the combinatorial index
//! spaces, the bit-packed record format, the recurrence engine and the pure
//! decision logic of the stage orchestrator; file handling and threads live
//! outside the library.

use vstd::prelude::*;

pub mod dice;
pub mod scoring;
pub mod cells;
pub mod names;
pub mod offsets;
pub mod bitstore;
pub mod enumerate;
pub mod space;
pub mod engine;
pub mod unit;
pub mod orchestrator;
pub mod query;

verus! {

/// The two supported game variants, identified by their dice count.
#[derive(Clone, Copy, Debug, PartialEq, Eq, Structural)]
pub enum Variant {
    /// Five dice, fifteen scoring categories.
    Five,
    /// Six dice, twenty scoring categories.
    Six,
}

impl Variant {
    /// Number of dice thrown in this variant.
    pub open spec fn spec_num_dice(self) -> u64 {
        match self {
            Variant::Five => 5,
            Variant::Six => 6,
        }
    }

    /// Number of dice thrown in this variant.
    pub fn num_dice(self) -> (r: u64)
        ensures
            r == self.spec_num_dice(),
    {
        match self {
            Variant::Five => 5,
            Variant::Six => 6,
        }
    }

    /// The variant for a given dice count, if one exists.
    pub fn from_num_dice(n: u64) -> (r: Option<Variant>)
        ensures
            n == 5 ==> r == Some(Variant::Five),
            n == 6 ==> r == Some(Variant::Six),
            n != 5 && n != 6 ==> r is None,
    {
        if n == 5 {
            Some(Variant::Five)
        } else if n == 6 {
            Some(Variant::Six)
        } else {
            None
        }
    }

    /// Number of scoring categories of this variant.
    pub open spec fn spec_num_cells(self) -> u64 {
        match self {
            Variant::Five => 15,
            Variant::Six => 20,
        }
    }

    /// Number of scoring categories of this variant.
    pub fn num_cells(self) -> (r: u64)
        ensures
            r == self.spec_num_cells(),
    {
        match self {
            Variant::Five => 15,
            Variant::Six => 20,
        }
    }

    /// Upper-section points needed for the bonus.
    pub open spec fn spec_bonus_threshold(self) -> u64 {
        match self {
            Variant::Five => 63,
            Variant::Six => 84,
        }
    }

    /// Upper-section points needed for the bonus.
    pub fn bonus_threshold(self) -> (r: u64)
        ensures
            r == self.spec_bonus_threshold(),
    {
        match self {
            Variant::Five => 63,
            Variant::Six => 84,
        }
    }

    /// Points awarded when the bonus threshold is reached.
    pub open spec fn spec_bonus_award(self) -> u64 {
        match self {
            Variant::Five => 50,
            Variant::Six => 100,
        }
    }

    /// Points awarded when the bonus threshold is reached.
    pub fn bonus_award(self) -> (r: u64)
        ensures
            r == self.spec_bonus_award(),
    {
        match self {
            Variant::Five => 50,
            Variant::Six => 100,
        }
    }

    /// Number of bonus-progress buckets: the clipped progress values
    /// `0 ..= threshold`, where the last bucket means "threshold reached,
    /// bonus awarded".
    pub open spec fn spec_num_buckets(self) -> u64 {
        (self.spec_bonus_threshold() + 1) as u64
    }

    /// Number of bonus-progress buckets.
    pub fn num_buckets(self) -> (r: u64)
        ensures
            r == self.spec_num_buckets(),
    {
        self.bonus_threshold() + 1
    }

    /// Number of distinct dice multisets of a full throw of this variant.
    pub open spec fn spec_num_multisets(self) -> u64 {
        match self {
            Variant::Five => 252,
            Variant::Six => 462,
        }
    }

    /// Number of distinct dice multisets of a full throw of this variant.
    pub fn num_multisets(self) -> (r: u64)
        ensures
            r == self.spec_num_multisets(),
    {
        match self {
            Variant::Five => 252,
            Variant::Six => 462,
        }
    }

    /// Bit width of a stored category-choice record: the smallest width that
    /// can hold any category index of the variant.
    pub open spec fn spec_cell_bits(self) -> u64 {
        match self {
            Variant::Five => 4,
            Variant::Six => 5,
        }
    }

    /// Bit width of a stored category-choice record.
    pub fn cell_bits(self) -> (r: u64)
        ensures
            r == self.spec_cell_bits(),
    {
        match self {
            Variant::Five => 4,
            Variant::Six => 5,
        }
    }

    /// Bit width of a stored reroll-mask record: one bit per die.
    pub open spec fn spec_mask_bits(self) -> u64 {
        self.spec_num_dice()
    }

    /// Bit width of a stored reroll-mask record.
    pub fn mask_bits(self) -> (r: u64)
        ensures
            r == self.spec_mask_bits(),
    {
        self.num_dice()
    }
}

/// Number of dice multisets a full throw of `n` dice can form.
pub fn amt_dice_index(n: u64) -> (r: usize)
    requires
        n == 5 || n == 6,
    ensures
        n == 5 ==> r == 252,
        n == 6 ==> r == 462,
{
    if n == 5 {
        252
    } else {
        462
    }
}

/// Number of scoring categories of the `n`-dice variant.
pub fn amt_cells(n: u64) -> (r: usize)
    requires
        n == 5 || n == 6,
    ensures
        n == 5 ==> r == 15,
        n == 6 ==> r == 20,
{
    if n == 5 {
        15
    } else {
        20
    }
}

/// Number of bonus-progress buckets of the `n`-dice variant.
pub fn amt_points_above(n: u64) -> (r: usize)
    requires
        n == 5 || n == 6,
    ensures
        n == 5 ==> r == 64,
        n == 6 ==> r == 85,
{
    if n == 5 {
        64
    } else {
        85
    }
}

/// Position of the `n`-dice variant in tables indexed by variant.
pub fn n_to_ind(n: u64) -> (r: usize)
    requires
        n == 5 || n == 6,
    ensures
        n == 5 ==> r == 0,
        n == 6 ==> r == 1,
{
    if n == 5 {
        0
    } else {
        1
    }
}

/// Entry point reserved for ad-hoc experiments; it takes the raw command
/// words and currently does nothing.
pub fn test(_commands: &[&str]) {
}

} // verus!
