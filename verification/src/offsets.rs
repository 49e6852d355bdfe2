//! Flat state offsets.
//!
//! Within a stage of fixed category count, a state is addressed by its dice
//! index, its bonus bucket and its category rank.  The flat offset
//! `dice + (bucket + rank * B) * D` is a bijection onto
//! `[0, D * B * number_of_subsets)`; every stage file's layout depends on
//! this invariant.  The bucket-sliced files of one stage use the same order
//! restricted to one bucket: `dice + rank * D`.

use vstd::prelude::*;

use vstd::arithmetic::div_mod::{lemma_fundamental_div_mod, lemma_fundamental_div_mod_converse};

verus! {

/// The flat offset of state `(dice, bucket, rank)` in a stage whose dice
/// index space has `dd` entries and whose bonus space has `bb` buckets.
pub open spec fn spec_flat_offset(dice: int, bucket: int, rank: int, dd: int, bb: int) -> int {
    dice + (bucket + rank * bb) * dd
}

/// The within-file offset of `(dice, rank)` in one bucket's file.
pub open spec fn spec_file_offset(dice: int, rank: int, dd: int) -> int {
    dice + rank * dd
}

/// The flat offset decomposes uniquely: its remainders by `dd` and then by
/// `bb` return the dice index, the bucket and the rank.
pub proof fn lemma_flat_offset_decompose(dice: int, bucket: int, rank: int, dd: int, bb: int)
    requires
        0 <= dice < dd,
        0 <= bucket < bb,
        0 <= rank,
    ensures
        spec_flat_offset(dice, bucket, rank, dd, bb) % dd == dice,
        spec_flat_offset(dice, bucket, rank, dd, bb) / dd == bucket + rank * bb,
        (bucket + rank * bb) % bb == bucket,
        (bucket + rank * bb) / bb == rank,
        spec_flat_offset(dice, bucket, rank, dd, bb) >= 0,
{
    let q = bucket + rank * bb;
    assert(rank * bb >= 0) by (nonlinear_arith)
        requires
            rank >= 0 && bb > 0,
    ;
    assert(spec_flat_offset(dice, bucket, rank, dd, bb) == q * dd + dice);
    lemma_fundamental_div_mod_converse(spec_flat_offset(dice, bucket, rank, dd, bb), dd, q, dice);
    lemma_fundamental_div_mod_converse(q, bb, rank, bucket);
}

/// Indexing bijectivity, one direction: two states with the same flat
/// offset are the same state.
pub proof fn lemma_flat_offset_injective(
    dice1: int,
    bucket1: int,
    rank1: int,
    dice2: int,
    bucket2: int,
    rank2: int,
    dd: int,
    bb: int,
)
    requires
        0 <= dice1 < dd,
        0 <= bucket1 < bb,
        0 <= rank1,
        0 <= dice2 < dd,
        0 <= bucket2 < bb,
        0 <= rank2,
        spec_flat_offset(dice1, bucket1, rank1, dd, bb) == spec_flat_offset(
            dice2,
            bucket2,
            rank2,
            dd,
            bb,
        ),
    ensures
        dice1 == dice2,
        bucket1 == bucket2,
        rank1 == rank2,
{
    lemma_flat_offset_decompose(dice1, bucket1, rank1, dd, bb);
    lemma_flat_offset_decompose(dice2, bucket2, rank2, dd, bb);
}

/// Indexing bijectivity, the other direction: every state's offset lies in
/// `[0, dd * bb * ranks)`, so the map is onto that interval by counting.
pub proof fn lemma_flat_offset_in_range(
    dice: int,
    bucket: int,
    rank: int,
    dd: int,
    bb: int,
    ranks: int,
)
    requires
        0 <= dice < dd,
        0 <= bucket < bb,
        0 <= rank < ranks,
    ensures
        0 <= spec_flat_offset(dice, bucket, rank, dd, bb) < dd * bb * ranks,
{
    lemma_flat_offset_decompose(dice, bucket, rank, dd, bb);
    assert(dice + (bucket + rank * bb) * dd < dd * bb * ranks) by (nonlinear_arith)
        requires
            0 <= dice < dd && 0 <= bucket < bb && 0 <= rank <= ranks - 1,
    ;
}

/// The flat offset of state `(dice_ind, bucket, rank)`.
pub fn flat_offset(dice_ind: u64, bucket: u64, rank: u64, dd: u64, bb: u64) -> (r: u64)
    requires
        dice_ind < dd,
        bucket < bb,
        dd <= 0x1000,
        bb <= 0x1000,
        rank <= 0x10_0000,
    ensures
        r == spec_flat_offset(dice_ind as int, bucket as int, rank as int, dd as int, bb as int),
{
    assert(rank * bb <= 0x10_0000 * 0x1000) by (nonlinear_arith)
        requires
            rank <= 0x10_0000 && bb <= 0x1000,
    ;
    let q = bucket + rank * bb;
    assert(q * dd <= (0x10_0000 * 0x1000 + 0x1000) * 0x1000) by (nonlinear_arith)
        requires
            q <= 0x10_0000 * 0x1000 + 0x1000 && dd <= 0x1000,
    ;
    dice_ind + q * dd
}

/// The within-file offset of `(dice_ind, rank)` in one bucket's file.
pub fn get_index(dice_ind: u64, rank: u64, dd: u64) -> (r: u64)
    requires
        dice_ind < dd,
        dd <= 0x1000,
        rank <= 0x10_0000,
    ensures
        r == spec_file_offset(dice_ind as int, rank as int, dd as int),
{
    assert(rank * dd <= 0x10_0000 * 0x1000) by (nonlinear_arith)
        requires
            rank <= 0x10_0000 && dd <= 0x1000,
    ;
    dice_ind + rank * dd
}

/// Recover `(dice index, bucket, rank)` from a flat offset: the exact
/// inverse of `flat_offset`.
pub fn offset_to_state(offset: u64, dd: u64, bb: u64) -> (r: (u64, u64, u64))
    requires
        1 <= dd,
        1 <= bb,
    ensures
        r.0 < dd,
        r.1 < bb,
        offset == spec_flat_offset(r.0 as int, r.1 as int, r.2 as int, dd as int, bb as int),
{
    let dice = offset % dd;
    let rest = offset / dd;
    let bucket = rest % bb;
    let rank = rest / bb;
    proof {
        lemma_fundamental_div_mod(offset as int, dd as int);
        lemma_fundamental_div_mod(rest as int, bb as int);
        assert((bucket + (rank as int) * (bb as int)) * (dd as int) == (dd as int) * (
        rest as int)) by (nonlinear_arith)
            requires
                rest == (bb as int) * (rank as int) + bucket,
        ;
    }
    (dice, bucket, rank)
}

/// Bonus points clipped to the last bucket, as done both at build time and
/// at query time.
pub fn clip_bucket(points_above: u64, bb: u64) -> (r: u64)
    requires
        1 <= bb,
    ensures
        r == if points_above < bb {
            points_above as int
        } else {
            bb - 1
        },
        r < bb,
{
    if points_above < bb {
        points_above
    } else {
        bb - 1
    }
}

} // verus!
