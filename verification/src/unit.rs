//! Units of checkpointed work: one bonus bucket of one stage.
//!
//! A unit's output is a full score table and a full decision table over
//! every `(category rank, dice index)` state of the stage, in flat offset
//! order.  Each output is pinned, record by record, to a function of the
//! unit's inputs alone, so recomputing a unit that already exists yields
//! byte-identical files.

use vstd::prelude::*;

use crate::Variant;
use crate::cells::{spec_binom, spec_popcnt, spec_subset_rank, subset_from_rank};
use crate::dice::DiceThrow;
use crate::engine::{
    DepWindow, SCORE_SCALE, best_cell, best_reroll, spec_cell_value, spec_dice_index,
    spec_rethrow_value, table_wf,
};
use crate::enumerate::{dice_le, in_list};
use crate::space::{IndexSpace, multiset_count, multiset_count_exec, rolls_wf};
use crate::bitstore::bits_to_num;

verus! {

broadcast use crate::dice::lemma_dice_len;

/// The fixed-point score of the base stage (one open category, no throws
/// left) at flat offset `o`: the effective points of scoring the one open
/// category, which for rank `r` is category `r` itself.
pub open spec fn spec_base_score(v: Variant, space: IndexSpace, bucket: int, o: int) -> int {
    let dd = multiset_count(space.n as int);
    (SCORE_SCALE as int) * crate::scoring::spec_effective_cell_points(
        v,
        o / dd,
        space.rolls@[space.n as int]@[o % dd]@,
        bucket,
    )
}

/// The decision of the base stage at flat offset `o`: the single open
/// category, whose index equals the category rank.
pub open spec fn spec_base_decision(space: IndexSpace, o: int) -> int {
    o / multiset_count(space.n as int)
}

/// Compute the base-stage unit of bonus bucket `bucket`: for every
/// category rank and dice index, the effective points of scoring that
/// category now, and the category index as the decision.
pub fn compute_base_unit(v: Variant, space: &IndexSpace, bucket: u64) -> (r: (Vec<u32>, Vec<u64>))
    requires
        space.wf(),
        space.n == v.spec_num_dice(),
        bucket < v.spec_num_buckets(),
    ensures
        r.0@.len() == v.spec_num_cells() * multiset_count(space.n as int),
        r.1@.len() == r.0@.len(),
        forall|o: int|
            0 <= o < r.0@.len() ==> (#[trigger] r.0@[o]) == spec_base_score(v, *space, bucket as int, o),
        forall|o: int|
            0 <= o < r.1@.len() ==> (#[trigger] r.1@[o]) == spec_base_decision(*space, o),
{
    let dd = multiset_count_exec(space.n) as u64;
    let ncells = v.num_cells();
    let mut scores: Vec<u32> = Vec::new();
    let mut decisions: Vec<u64> = Vec::new();
    let mut rank: u64 = 0;
    while rank < ncells
        invariant
            space.wf(),
            space.n == v.spec_num_dice(),
            bucket < v.spec_num_buckets(),
            dd == multiset_count(space.n as int),
            ncells == v.spec_num_cells(),
            rank <= ncells,
            scores@.len() == rank * dd,
            decisions@.len() == rank * dd,
            forall|o: int|
                0 <= o < scores@.len() ==> (#[trigger] scores@[o]) == spec_base_score(
                    v,
                    *space,
                    bucket as int,
                    o,
                ),
            forall|o: int|
                0 <= o < decisions@.len() ==> (#[trigger] decisions@[o]) == spec_base_decision(
                    *space,
                    o,
                ),
        decreases ncells - rank,
    {
        let mut di: u64 = 0;
        while di < dd
            invariant
                space.wf(),
                space.n == v.spec_num_dice(),
                bucket < v.spec_num_buckets(),
                dd == multiset_count(space.n as int),
                ncells == v.spec_num_cells(),
                rank < ncells,
                di <= dd,
                scores@.len() == rank * dd + di,
                decisions@.len() == rank * dd + di,
                forall|o: int|
                    0 <= o < scores@.len() ==> (#[trigger] scores@[o]) == spec_base_score(
                        v,
                        *space,
                        bucket as int,
                        o,
                    ),
                forall|o: int|
                    0 <= o < decisions@.len() ==> (#[trigger] decisions@[o])
                        == spec_base_decision(*space, o),
            decreases dd - di,
        {
            let dice = space.rolls[space.n as usize][di as usize];
            let p = crate::scoring::points_for_single_cell(v, rank, &dice, bucket);
            proof {
                let o = rank * dd + di;
                vstd::arithmetic::div_mod::lemma_fundamental_div_mod_converse(
                    o as int,
                    dd as int,
                    rank as int,
                    di as int,
                );
                assert((rank as int) * (dd as int) + dd <= (ncells as int) * (dd as int))
                    by (nonlinear_arith)
                    requires
                        rank < ncells && 0 < dd,
                ;
            }
            proof {
                assert(SCORE_SCALE == 65536);
            }
            scores.push((p * SCORE_SCALE) as u32);
            decisions.push(rank);
            di = di + 1;
        }
        rank = rank + 1;
    }
    proof {
        assert(scores@.len() == (ncells as int) * (dd as int));
    }
    (scores, decisions)
}

/// The reroll mask of rethrowing `rt` out of `orig`: one bit per die, dice
/// ordered by face, set exactly on the dice that are kept; the complement
/// is rerolled.  Within a face's block the rethrown dice come first.
pub open spec fn spec_mask_bits(orig: Seq<u64>, rt: Seq<u64>, f: int) -> Seq<bool>
    decreases 6 - f,
{
    if f < 0 || f >= 6 {
        Seq::empty()
    } else {
        Seq::new(orig[f] as nat, |j: int| j >= rt[f]) + spec_mask_bits(orig, rt, f + 1)
    }
}

/// The reroll mask of rethrowing `rt` out of `orig`, as a bit vector of
/// one bit per die, marking the kept dice.
pub fn rethrow_bits(orig: &DiceThrow, rt: &DiceThrow) -> (r: Vec<bool>)
    requires
        orig.total() <= 6,
        dice_le(rt@, orig@),
    ensures
        r@ =~= spec_mask_bits(orig@, rt@, 0),
        r@.len() == orig.total(),
{
    let mut bits: Vec<bool> = Vec::new();
    let mut f: u64 = 1;
    while f <= 6
        invariant
            1 <= f <= 7,
            orig.total() <= 6,
            dice_le(rt@, orig@),
            bits@ + spec_mask_bits(orig@, rt@, f - 1) =~= spec_mask_bits(orig@, rt@, 0),
        decreases 7 - f,
    {
        proof {
            crate::dice::lemma_count_le_total(*orig, f - 1);
        }
        let cnt = orig.cnt(f);
        let rethrown = rt.cnt(f);
        let ghost tail = spec_mask_bits(orig@, rt@, f - 1);
        proof {
            assert(tail == Seq::new(orig@[f - 1] as nat, |j: int| j >= rt@[f - 1]) + spec_mask_bits(
                orig@,
                rt@,
                f as int,
            ));
        }
        let ghost block = tail.take(orig@[f - 1] as int);
        let mut j: u64 = 0;
        let ghost bits0 = bits@;
        while j < cnt
            invariant
                j <= cnt,
                cnt == orig@[f - 1],
                rethrown == rt@[f - 1],
                1 <= f <= 6,
                tail == spec_mask_bits(orig@, rt@, f - 1),
                tail == Seq::new(orig@[f - 1] as nat, |j: int| j >= rt@[f - 1]) + spec_mask_bits(
                    orig@,
                    rt@,
                    f as int,
                ),
                block == tail.take(orig@[f - 1] as int),
                bits@ =~= bits0 + block.take(j as int),
            decreases cnt - j,
        {
            proof {
                assert(block[j as int] == (j >= rethrown));
                assert(block.take(j + 1) =~= block.take(j as int).push(block[j as int]));
            }
            bits.push(j >= rethrown);
            j = j + 1;
        }
        proof {
            assert(block.take(cnt as int) =~= block);
            assert(block + spec_mask_bits(orig@, rt@, f as int) =~= tail);
            assert(bits@ + spec_mask_bits(orig@, rt@, f as int) =~= spec_mask_bits(orig@, rt@, 0));
        }
        f = f + 1;
    }
    proof {
        assert(spec_mask_bits(orig@, rt@, 6) =~= Seq::<bool>::empty());
        assert(bits@ + spec_mask_bits(orig@, rt@, 6) =~= bits@);
        lemma_mask_bits_len(orig@, rt@, 0);
        crate::enumerate::lemma_sum_from_total(orig@);
    }
    bits
}

/// The reroll mask has one bit per die of the original throw.
pub proof fn lemma_mask_bits_len(orig: Seq<u64>, rt: Seq<u64>, f: int)
    requires
        orig.len() == 6,
        0 <= f <= 6,
    ensures
        spec_mask_bits(orig, rt, f).len() == crate::enumerate::sum_from(orig, f),
    decreases 6 - f,
{
    if f < 6 {
        lemma_mask_bits_len(orig, rt, f + 1);
    }
    crate::enumerate::lemma_sum_from_total(orig);
}

/// The first-encountered optimal rethrow for `dice` at rank `rank`: it is a
/// sub-multiset of the dice, no choice beats it, and every candidate that
/// the canonical enumeration visits earlier is strictly worse.
pub open spec fn is_first_best_rethrow(
    space: IndexSpace,
    dice: Seq<u64>,
    rank: int,
    table: Seq<u32>,
    rt: Seq<u64>,
) -> bool {
    &&& rt.len() == 6
    &&& dice_le(rt, dice)
    &&& in_list(space.rolls@[crate::dice::dice_total(rt)]@, rt)
    &&& forall|s: Seq<u64>|
        s.len() == 6 && #[trigger] dice_le(s, dice) ==> spec_rethrow_value(
            space,
            dice,
            s,
            rank,
            table,
        ) <= spec_rethrow_value(space, dice, rt, rank, table)
    &&& forall|q: int, j: int|
        0 <= q <= space.n && 0 <= j < space.rolls@[q]@.len() && dice_le(
            (#[trigger] space.rolls@[q]@[j])@,
            dice,
        ) && crate::engine::candidate_before(
            q,
            j,
            crate::dice::dice_total(rt),
            spec_dice_index(space.rolls@[crate::dice::dice_total(rt)]@, rt),
        ) ==> spec_rethrow_value(space, dice, space.rolls@[q]@[j]@, rank, table)
            < spec_rethrow_value(space, dice, rt, rank, table)
}

/// There is exactly one first-encountered optimal rethrow.
pub proof fn lemma_first_best_rethrow_unique(
    space: IndexSpace,
    dice: Seq<u64>,
    rank: int,
    table: Seq<u32>,
    rt1: Seq<u64>,
    rt2: Seq<u64>,
)
    requires
        space.wf(),
        dice.len() == 6,
        crate::dice::dice_total(dice) == space.n,
        is_first_best_rethrow(space, dice, rank, table, rt1),
        is_first_best_rethrow(space, dice, rank, table, rt2),
    ensures
        rt1 == rt2,
{
    let t1 = crate::dice::dice_total(rt1);
    let t2 = crate::dice::dice_total(rt2);
    crate::enumerate::lemma_dice_le_total(rt1, dice);
    crate::enumerate::lemma_dice_le_total(rt2, dice);
    let l1 = space.rolls@[t1]@;
    let l2 = space.rolls@[t2]@;
    let i1 = spec_dice_index(l1, rt1);
    let i2 = spec_dice_index(l2, rt2);
    assert(0 <= i1 < l1.len() && l1[i1]@ == rt1) by {
        let w = choose|i: int| 0 <= i < l1.len() && (#[trigger] l1[i])@ == rt1;
        assert(l1[w]@ == rt1);
    }
    assert(0 <= i2 < l2.len() && l2[i2]@ == rt2) by {
        let w = choose|i: int| 0 <= i < l2.len() && (#[trigger] l2[i])@ == rt2;
        assert(l2[w]@ == rt2);
    }
    if t1 == t2 && i1 == i2 {
        assert(rt1 == rt2);
    } else if crate::engine::candidate_before(t1, i1, t2, i2) {
        assert(spec_rethrow_value(space, dice, l1[i1]@, rank, table) < spec_rethrow_value(
            space,
            dice,
            rt2,
            rank,
            table,
        ));
        assert(spec_rethrow_value(space, dice, rt2, rank, table) <= spec_rethrow_value(
            space,
            dice,
            rt1,
            rank,
            table,
        ));
        assert(false);
    } else {
        assert(crate::engine::candidate_before(t2, i2, t1, i1));
        assert(spec_rethrow_value(space, dice, l2[i2]@, rank, table) < spec_rethrow_value(
            space,
            dice,
            rt1,
            rank,
            table,
        ));
        assert(spec_rethrow_value(space, dice, rt1, rank, table) <= spec_rethrow_value(
            space,
            dice,
            rt2,
            rank,
            table,
        ));
        assert(false);
    }
}

/// The first-encountered optimal rethrow, as a value.
#[verifier::opaque]
pub open spec fn spec_best_rethrow(
    space: IndexSpace,
    dice: Seq<u64>,
    rank: int,
    table: Seq<u32>,
) -> Seq<u64> {
    choose|rt: Seq<u64>| is_first_best_rethrow(space, dice, rank, table, rt)
}

/// A witness pins the chosen rethrow down.
pub proof fn lemma_best_rethrow_is(
    space: IndexSpace,
    dice: Seq<u64>,
    rank: int,
    table: Seq<u32>,
    rt: Seq<u64>,
)
    requires
        space.wf(),
        dice.len() == 6,
        crate::dice::dice_total(dice) == space.n,
        is_first_best_rethrow(space, dice, rank, table, rt),
    ensures
        spec_best_rethrow(space, dice, rank, table) == rt,
{
    reveal(spec_best_rethrow);
    let w = choose|w: Seq<u64>| is_first_best_rethrow(space, dice, rank, table, w);
    lemma_first_best_rethrow_unique(space, dice, rank, table, w, rt);
}

/// The score record of a reroll-stage unit at flat offset `o`.
pub open spec fn spec_reroll_score(space: IndexSpace, table: Seq<u32>, o: int) -> int {
    let dd = multiset_count(space.n as int);
    let dice = space.rolls@[space.n as int]@[o % dd]@;
    spec_rethrow_value(space, dice, spec_best_rethrow(space, dice, o / dd, table), o / dd, table)
}

/// The decision record of a reroll-stage unit at flat offset `o`: the
/// kept-dice mask of the first-encountered optimal rethrow.
pub open spec fn spec_reroll_mask(space: IndexSpace, table: Seq<u32>, o: int) -> int {
    let dd = multiset_count(space.n as int);
    let dice = space.rolls@[space.n as int]@[o % dd]@;
    bits_to_num(spec_mask_bits(dice, spec_best_rethrow(space, dice, o / dd, table), 0))
}

/// Compute a reroll-stage unit: for every category rank and dice index,
/// the optimal expected score and the kept-dice mask of the optimal
/// rethrow, against the completed same-bucket table of the stage with one
/// throw less.
pub fn compute_reroll_unit(
    space: &IndexSpace,
    ranks: u64,
    dep: &Vec<u32>,
) -> (r: (Vec<u32>, Vec<u64>))
    requires
        space.wf(),
        1 <= space.n,
        1 <= ranks <= 0x10_0000,
        table_wf(dep@, ranks as int, multiset_count(space.n as int)),
    ensures
        r.0@.len() == ranks * multiset_count(space.n as int),
        r.1@.len() == r.0@.len(),
        forall|o: int|
            0 <= o < r.0@.len() ==> (#[trigger] r.0@[o]) == spec_reroll_score(*space, dep@, o),
        forall|o: int|
            0 <= o < r.1@.len() ==> (#[trigger] r.1@[o]) == spec_reroll_mask(*space, dep@, o),
{
    let dd = multiset_count_exec(space.n) as u64;
    let mut scores: Vec<u32> = Vec::new();
    let mut masks: Vec<u64> = Vec::new();
    let mut rank: u64 = 0;
    while rank < ranks
        invariant
            space.wf(),
            1 <= space.n,
            1 <= ranks <= 0x10_0000,
            dd == multiset_count(space.n as int),
            table_wf(dep@, ranks as int, dd as int),
            rank <= ranks,
            scores@.len() == rank * dd,
            masks@.len() == rank * dd,
            forall|o: int|
                0 <= o < scores@.len() ==> (#[trigger] scores@[o]) == spec_reroll_score(
                    *space,
                    dep@,
                    o,
                ),
            forall|o: int|
                0 <= o < masks@.len() ==> (#[trigger] masks@[o]) == spec_reroll_mask(
                    *space,
                    dep@,
                    o,
                ),
        decreases ranks - rank,
    {
        let mut di: u64 = 0;
        while di < dd
            invariant
                space.wf(),
                1 <= space.n,
                1 <= ranks <= 0x10_0000,
                dd == multiset_count(space.n as int),
                table_wf(dep@, ranks as int, dd as int),
                rank < ranks,
                di <= dd,
                scores@.len() == rank * dd + di,
                masks@.len() == rank * dd + di,
                forall|o: int|
                    0 <= o < scores@.len() ==> (#[trigger] scores@[o]) == spec_reroll_score(
                        *space,
                        dep@,
                        o,
                    ),
                forall|o: int|
                    0 <= o < masks@.len() ==> (#[trigger] masks@[o]) == spec_reroll_mask(
                        *space,
                        dep@,
                        o,
                    ),
            decreases dd - di,
        {
            let dice = space.rolls[space.n as usize][di as usize];
            let (rt, v) = best_reroll(space, &dice, rank, dep, ranks);
            proof {
                crate::enumerate::lemma_dice_le_total(rt@, dice@);
                assert(in_list(space.rolls@[rt.total()]@, rt@)) by {
                    let bl = space.rolls@[rt.total()]@;
                    assert(rolls_wf(bl, rt.total()));
                }
                assert(is_first_best_rethrow(*space, dice@, rank as int, dep@, rt@));
                lemma_best_rethrow_is(*space, dice@, rank as int, dep@, rt@);
                let o = rank * dd + di;
                vstd::arithmetic::div_mod::lemma_fundamental_div_mod_converse(
                    o as int,
                    dd as int,
                    rank as int,
                    di as int,
                );
                assert((rank as int) * (dd as int) + dd <= (ranks as int) * (dd as int))
                    by (nonlinear_arith)
                    requires
                        rank < ranks && 0 < dd,
                ;
            }
            let bits = rethrow_bits(&dice, &rt);
            let mask = crate::bitstore::get_ind_from_bits(bits.as_slice());
            scores.push(v);
            masks.push(mask as u64);
            di = di + 1;
        }
        rank = rank + 1;
    }
    (scores, masks)
}

/// The category subset of `c` categories with `k` open whose rank is
/// `rank`, as a value.
#[verifier::opaque]
pub open spec fn spec_subset_of_rank(c: int, k: int, rank: int) -> Seq<bool> {
    choose|s: Seq<bool>| s.len() == c && spec_popcnt(s) == k && spec_subset_rank(s) == rank
}

/// A witness pins the subset of a rank down.
pub proof fn lemma_subset_of_rank_is(s: Seq<bool>)
    ensures
        spec_subset_of_rank(s.len() as int, spec_popcnt(s), spec_subset_rank(s)) == s,
{
    reveal(spec_subset_of_rank);
    let w = choose|w: Seq<bool>|
        w.len() == s.len() && spec_popcnt(w) == spec_popcnt(s) && spec_subset_rank(w)
            == spec_subset_rank(s);
    assert(w.len() == s.len() && spec_popcnt(w) == spec_popcnt(s) && spec_subset_rank(w)
        == spec_subset_rank(s)) by {
        assert(s.len() == s.len() && spec_popcnt(s) == spec_popcnt(s) && spec_subset_rank(s)
            == spec_subset_rank(s));
    }
    crate::cells::lemma_rank_injective(w, s);
}

/// The first-encountered optimal category for the given state: it is open,
/// no open category beats it, and every open category with a lower index is
/// strictly worse.
pub open spec fn is_first_best_cell(
    v: Variant,
    space: IndexSpace,
    dice: Seq<u64>,
    cells: Seq<bool>,
    bucket: int,
    base: int,
    tables: Seq<Seq<u32>>,
    c: int,
) -> bool {
    &&& 0 <= c < v.spec_num_cells()
    &&& cells[c]
    &&& forall|d: int|
        0 <= d < v.spec_num_cells() && (#[trigger] cells[d]) ==> spec_cell_value(
            v,
            space,
            dice,
            cells,
            bucket,
            base,
            tables,
            d,
        ) <= spec_cell_value(v, space, dice, cells, bucket, base, tables, c)
    &&& forall|d: int|
        0 <= d < c && (#[trigger] cells[d]) ==> spec_cell_value(
            v,
            space,
            dice,
            cells,
            bucket,
            base,
            tables,
            d,
        ) < spec_cell_value(v, space, dice, cells, bucket, base, tables, c)
}

/// There is exactly one first-encountered optimal category.
pub proof fn lemma_first_best_cell_unique(
    v: Variant,
    space: IndexSpace,
    dice: Seq<u64>,
    cells: Seq<bool>,
    bucket: int,
    base: int,
    tables: Seq<Seq<u32>>,
    c1: int,
    c2: int,
)
    requires
        is_first_best_cell(v, space, dice, cells, bucket, base, tables, c1),
        is_first_best_cell(v, space, dice, cells, bucket, base, tables, c2),
    ensures
        c1 == c2,
{
}

/// The first-encountered optimal category, as a value.
#[verifier::opaque]
pub open spec fn spec_best_cell(
    v: Variant,
    space: IndexSpace,
    dice: Seq<u64>,
    cells: Seq<bool>,
    bucket: int,
    base: int,
    tables: Seq<Seq<u32>>,
) -> int {
    choose|c: int| is_first_best_cell(v, space, dice, cells, bucket, base, tables, c)
}

/// A witness pins the chosen category down.
pub proof fn lemma_best_cell_is(
    v: Variant,
    space: IndexSpace,
    dice: Seq<u64>,
    cells: Seq<bool>,
    bucket: int,
    base: int,
    tables: Seq<Seq<u32>>,
    c: int,
)
    requires
        is_first_best_cell(v, space, dice, cells, bucket, base, tables, c),
    ensures
        spec_best_cell(v, space, dice, cells, bucket, base, tables) == c,
{
    reveal(spec_best_cell);
    let w = choose|w: int| is_first_best_cell(v, space, dice, cells, bucket, base, tables, w);
    lemma_first_best_cell_unique(v, space, dice, cells, bucket, base, tables, w, c);
}

/// The score record of a category-choice unit at flat offset `o`.
pub open spec fn spec_cell_unit_score(
    v: Variant,
    space: IndexSpace,
    k: int,
    bucket: int,
    base: int,
    tables: Seq<Seq<u32>>,
    o: int,
) -> int {
    let dd = multiset_count(space.n as int);
    let dice = space.rolls@[space.n as int]@[o % dd]@;
    let cells = spec_subset_of_rank(v.spec_num_cells() as int, k, o / dd);
    spec_cell_value(
        v,
        space,
        dice,
        cells,
        bucket,
        base,
        tables,
        spec_best_cell(v, space, dice, cells, bucket, base, tables),
    )
}

/// The decision record of a category-choice unit at flat offset `o`: the
/// index of the first-encountered optimal category.
pub open spec fn spec_cell_unit_decision(
    v: Variant,
    space: IndexSpace,
    k: int,
    bucket: int,
    base: int,
    tables: Seq<Seq<u32>>,
    o: int,
) -> int {
    let dd = multiset_count(space.n as int);
    let dice = space.rolls@[space.n as int]@[o % dd]@;
    let cells = spec_subset_of_rank(v.spec_num_cells() as int, k, o / dd);
    spec_best_cell(v, space, dice, cells, bucket, base, tables)
}

/// Compute a category-choice unit for the stage with `k` open categories at
/// bonus bucket `bucket`: for every category rank and dice index, the
/// optimal category and its value, against the dependency window of the
/// completed stage with `k - 1` open categories and two throws left.
#[verifier::rlimit(100)]
pub fn compute_cell_unit(
    v: Variant,
    space: &IndexSpace,
    k: u64,
    bucket: u64,
    dep: &DepWindow,
) -> (r: (Vec<u32>, Vec<u64>))
    requires
        space.wf(),
        space.n == v.spec_num_dice(),
        1 <= k <= v.spec_num_cells(),
        bucket == dep.bucket_base < v.spec_num_buckets(),
        dep.wf(v, k as int, multiset_count(space.n as int)),
    ensures
        r.0@.len() == spec_binom(v.spec_num_cells() as int, k as int) * multiset_count(
            space.n as int,
        ),
        r.1@.len() == r.0@.len(),
        forall|o: int|
            0 <= o < r.0@.len() ==> (#[trigger] r.0@[o]) == spec_cell_unit_score(
                v,
                *space,
                k as int,
                bucket as int,
                dep.bucket_base as int,
                dep.tables.deep_view(),
                o,
            ),
        forall|o: int|
            0 <= o < r.1@.len() ==> (#[trigger] r.1@[o]) == spec_cell_unit_decision(
                v,
                *space,
                k as int,
                bucket as int,
                dep.bucket_base as int,
                dep.tables.deep_view(),
                o,
            ),
{
    let dd = multiset_count_exec(space.n) as u64;
    let ncells = v.num_cells();
    let ranks = crate::cells::binomial(ncells, k);
    proof {
        crate::cells::lemma_binom_pos(ncells as int, k as int);
    }
    let mut scores: Vec<u32> = Vec::new();
    let mut decisions: Vec<u64> = Vec::new();
    let mut rank: u64 = 0;
    while rank < ranks
        invariant
            space.wf(),
            space.n == v.spec_num_dice(),
            1 <= k <= v.spec_num_cells(),
            bucket == dep.bucket_base < v.spec_num_buckets(),
            dep.wf(v, k as int, multiset_count(space.n as int)),
            dd == multiset_count(space.n as int),
            ncells == v.spec_num_cells(),
            ranks == spec_binom(ncells as int, k as int),
            rank <= ranks,
            scores@.len() == rank * dd,
            decisions@.len() == rank * dd,
            forall|o: int|
                0 <= o < scores@.len() ==> (#[trigger] scores@[o]) == spec_cell_unit_score(
                    v,
                    *space,
                    k as int,
                    bucket as int,
                    dep.bucket_base as int,
                    dep.tables.deep_view(),
                    o,
                ),
            forall|o: int|
                0 <= o < decisions@.len() ==> (#[trigger] decisions@[o])
                    == spec_cell_unit_decision(
                    v,
                    *space,
                    k as int,
                    bucket as int,
                    dep.bucket_base as int,
                    dep.tables.deep_view(),
                    o,
                ),
        decreases ranks - rank,
    {
        let cells = subset_from_rank(ncells as usize, k as usize, rank);
        proof {
            lemma_subset_of_rank_is(cells@);
        }
        let mut di: u64 = 0;
        while di < dd
            invariant
                space.wf(),
                space.n == v.spec_num_dice(),
                1 <= k <= v.spec_num_cells(),
                bucket == dep.bucket_base < v.spec_num_buckets(),
                dep.wf(v, k as int, multiset_count(space.n as int)),
                dd == multiset_count(space.n as int),
                ncells == v.spec_num_cells(),
                ranks == spec_binom(ncells as int, k as int),
                rank < ranks,
                di <= dd,
                cells@.len() == ncells,
                spec_popcnt(cells@) == k,
                spec_subset_rank(cells@) == rank,
                cells@ == spec_subset_of_rank(ncells as int, k as int, rank as int),
                scores@.len() == rank * dd + di,
                decisions@.len() == rank * dd + di,
                forall|o: int|
                    0 <= o < scores@.len() ==> (#[trigger] scores@[o]) == spec_cell_unit_score(
                        v,
                        *space,
                        k as int,
                        bucket as int,
                        dep.bucket_base as int,
                        dep.tables.deep_view(),
                        o,
                    ),
                forall|o: int|
                    0 <= o < decisions@.len() ==> (#[trigger] decisions@[o])
                        == spec_cell_unit_decision(
                        v,
                        *space,
                        k as int,
                        bucket as int,
                        dep.bucket_base as int,
                        dep.tables.deep_view(),
                        o,
                    ),
            decreases dd - di,
        {
            let dice = space.rolls[space.n as usize][di as usize];
            let (c, val) = best_cell(v, space, &dice, &cells, bucket, dep);
            proof {
                assert(is_first_best_cell(
                    v,
                    *space,
                    dice@,
                    cells@,
                    bucket as int,
                    dep.bucket_base as int,
                    dep.tables.deep_view(),
                    c as int,
                ));
                lemma_best_cell_is(
                    v,
                    *space,
                    dice@,
                    cells@,
                    bucket as int,
                    dep.bucket_base as int,
                    dep.tables.deep_view(),
                    c as int,
                );
                let o = rank * dd + di;
                vstd::arithmetic::div_mod::lemma_fundamental_div_mod_converse(
                    o as int,
                    dd as int,
                    rank as int,
                    di as int,
                );
                assert((rank as int) * (dd as int) + dd <= (ranks as int) * (dd as int))
                    by (nonlinear_arith)
                    requires
                        rank < ranks && 0 < dd,
                ;
            }
            scores.push(val);
            decisions.push(c);
            di = di + 1;
        }
        rank = rank + 1;
    }
    (scores, decisions)
}

/// Idempotence of recomputation: the records of every unit are a function
/// of the unit's inputs alone, so computing the same unit twice yields
/// identical tables, and identical files once serialised.
pub proof fn lemma_unit_recompute_identical(
    s1: Seq<u32>,
    d1: Seq<u64>,
    s2: Seq<u32>,
    d2: Seq<u64>,
    len: int,
    score_of: spec_fn(int) -> int,
    decision_of: spec_fn(int) -> int,
)
    requires
        s1.len() == len && s2.len() == len && d1.len() == len && d2.len() == len,
        forall|o: int| 0 <= o < len ==> (#[trigger] s1[o]) == score_of(o) && (#[trigger] s2[o])
            == score_of(o),
        forall|o: int| 0 <= o < len ==> (#[trigger] d1[o]) == decision_of(o) && (#[trigger] d2[o])
            == decision_of(o),
    ensures
        s1 == s2,
        d1 == d2,
{
    assert(s1 =~= s2);
    assert(d1 =~= d2);
}

} // verus!
