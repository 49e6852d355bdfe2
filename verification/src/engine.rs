//! The recurrence engine: for one state it enumerates every legal choice,
//! integrates over the exact outcome distribution of a completed dependency
//! stage, and returns the first choice of maximal expected score.
//!
//! Scores are fixed-point numbers: points times `SCORE_SCALE`, stored in 32
//! bits.  A weighted sum over outcomes is divided by the exact outcome count
//! `6^rerolled`; the quotient is clipped to the 32-bit range (the clip can
//! never engage on tables whose entries are themselves weighted averages of
//! scores, but the arithmetic does not depend on that).

use vstd::prelude::*;

use crate::dice::{DiceThrow, dice_total, lemma_count_le_total};
use crate::enumerate::{dice_le, in_list, new_throw, spec_ways, ways};
use crate::offsets::spec_file_offset;
use crate::space::{IndexSpace, lemma_dice_index_unique, multiset_count, multiset_count_exec, rolls_wf};

verus! {

broadcast use crate::dice::lemma_dice_len;

/// Fixed-point scale of stored scores: points times this constant.
pub const SCORE_SCALE: u64 = 65536;

/// Six to the power `e`: the number of ordered rolls of `e` dice.
pub open spec fn spec_pow6(e: int) -> int
    decreases e,
{
    if e <= 0 {
        1
    } else {
        6 * spec_pow6(e - 1)
    }
}

/// Six to the power `e`, for up to six rerolled dice.
pub fn pow6(e: u64) -> (r: u64)
    requires
        e <= 6,
    ensures
        r == spec_pow6(e as int),
        1 <= r <= 46656,
{
    proof {
        assert(spec_pow6(0) == 1 && spec_pow6(1) == 6 && spec_pow6(2) == 36 && spec_pow6(3) == 216
            && spec_pow6(4) == 1296 && spec_pow6(5) == 7776 && spec_pow6(6) == 46656) by {
            reveal_with_fuel(spec_pow6, 8);
        }
    }
    if e == 0 {
        1
    } else if e == 1 {
        6
    } else if e == 2 {
        36
    } else if e == 3 {
        216
    } else if e == 4 {
        1296
    } else if e == 5 {
        7776
    } else {
        46656
    }
}

/// The throw left after taking the rethrown dice `rt` out of `dice` and
/// rolling the outcome `o` in their place.
pub open spec fn spec_succ(dice: Seq<u64>, rt: Seq<u64>, o: Seq<u64>) -> Seq<u64> {
    seq![
        (dice[0] - rt[0] + o[0]) as u64,
        (dice[1] - rt[1] + o[1]) as u64,
        (dice[2] - rt[2] + o[2]) as u64,
        (dice[3] - rt[3] + o[3]) as u64,
        (dice[4] - rt[4] + o[4]) as u64,
        (dice[5] - rt[5] + o[5]) as u64,
    ]
}

/// The position of the dice `d` in the multiset list `l`.
pub open spec fn spec_dice_index(l: Seq<DiceThrow>, d: Seq<u64>) -> int {
    choose|i: int| 0 <= i < l.len() && (#[trigger] l[i])@ == d
}

/// A found position is the position: lookups into a well-formed list are
/// unique.
pub proof fn lemma_spec_dice_index(l: Seq<DiceThrow>, r: int, i: int, d: Seq<u64>)
    requires
        rolls_wf(l, r),
        0 <= i < l.len(),
        l[i]@ == d,
    ensures
        spec_dice_index(l, d) == i,
        in_list(l, d),
{
    assert(in_list(l, d));
    let j = spec_dice_index(l, d);
    assert(0 <= j < l.len() && l[j]@ == d);
    lemma_dice_index_unique(l, r, i, j);
}

/// The weighted score sum of the first `upto` reroll outcomes of keeping
/// `dice` minus `rt`: each outcome's successor score, weighted by the
/// number of ordered rolls that produce the outcome.
pub open spec fn spec_out_sum(
    full: Seq<DiceThrow>,
    outs: Seq<DiceThrow>,
    dice: Seq<u64>,
    rt: Seq<u64>,
    rank: int,
    dd: int,
    table: Seq<u32>,
    upto: int,
) -> int
    decreases upto,
{
    if upto <= 0 {
        0
    } else {
        spec_out_sum(full, outs, dice, rt, rank, dd, table, upto - 1) + spec_ways(
            outs[upto - 1]@,
        ) * table[spec_file_offset(
            spec_dice_index(full, spec_succ(dice, rt, outs[upto - 1]@)),
            rank,
            dd,
        )]
    }
}

/// The expected score of rethrowing the dice `rt` out of `dice`, in fixed
/// point: the weighted sum over all reroll outcomes, divided by the exact
/// number `6^|rt|` of ordered rolls, clipped to 32 bits.
#[verifier::opaque]
pub open spec fn spec_rethrow_value(
    space: IndexSpace,
    dice: Seq<u64>,
    rt: Seq<u64>,
    rank: int,
    table: Seq<u32>,
) -> int {
    let rr = dice_total(rt);
    let full = space.rolls@[space.n as int]@;
    let outs = space.rolls@[rr]@;
    let q = spec_out_sum(full, outs, dice, rt, rank, multiset_count(space.n as int), table, outs.len() as int)
        / spec_pow6(rr);
    if q > 0xFFFF_FFFF {
        0xFFFF_FFFF
    } else {
        q
    }
}

/// The score table of one bucket of a dependency stage is large enough for
/// every state of `ranks` category ranks, and indexable by machine words.
pub open spec fn table_wf(table: Seq<u32>, ranks: int, dd: int) -> bool {
    &&& table.len() == ranks * dd
    &&& table.len() <= 0x1000_0000
}

impl DiceThrow {
    /// Whether every face of this throw shows at most as often as in `b`.
    pub fn le(&self, b: &DiceThrow) -> (r: bool)
        ensures
            r == dice_le(self@, b@),
    {
        self.cnt(1) <= b.cnt(1) && self.cnt(2) <= b.cnt(2) && self.cnt(3) <= b.cnt(3) && self.cnt(
            4,
        ) <= b.cnt(4) && self.cnt(5) <= b.cnt(5) && self.cnt(6) <= b.cnt(6)
    }
}

/// The expected fixed-point score of rethrowing `rt` out of `dice`, read
/// against the dependency table `table` at category rank `rank`.
#[verifier::rlimit(60)]
pub fn rethrow_value(
    space: &IndexSpace,
    dice: &DiceThrow,
    rt: &DiceThrow,
    rank: u64,
    table: &Vec<u32>,
    ranks: u64,
) -> (r: u32)
    requires
        space.wf(),
        dice.total() == space.n,
        dice_le(rt@, dice@),
        rank < ranks,
        ranks <= 0x10_0000,
        table_wf(table@, ranks as int, multiset_count(space.n as int)),
    ensures
        r == spec_rethrow_value(*space, dice@, rt@, rank as int, table@),
{
    proof {
        crate::enumerate::lemma_dice_le_total(rt@, dice@);
    }
    let rr = rt.amt_dice();
    let dd = multiset_count_exec(space.n) as u64;
    let outs = &space.rolls[rr as usize];
    let ghost full = space.rolls@[space.n as int]@;
    let mut sum: u64 = 0;
    let mut oi: usize = 0;
    while oi < outs.len()
        invariant
            space.wf(),
            dice.total() == space.n,
            dice_le(rt@, dice@),
            rr == rt.total() <= space.n,
            dd == multiset_count(space.n as int),
            rank < ranks <= 0x10_0000,
            table_wf(table@, ranks as int, dd as int),
            outs == &space.rolls@[rr as int],
            full == space.rolls@[space.n as int]@,
            oi <= outs@.len(),
            sum == spec_out_sum(full, outs@, dice@, rt@, rank as int, dd as int, table@, oi as int),
            sum <= (oi as int) * 720 * 0xFFFF_FFFF,
        decreases outs@.len() - oi,
    {
        let o = &outs[oi];
        assert(o.total() == rr);
        proof {
            lemma_count_le_total(*o, 0);
            lemma_count_le_total(*o, 1);
            lemma_count_le_total(*o, 2);
            lemma_count_le_total(*o, 3);
            lemma_count_le_total(*o, 4);
            lemma_count_le_total(*o, 5);
        }
        let succ = new_throw(dice, rt, o);
        proof {
            assert(succ@ =~= spec_succ(dice@, rt@, o@));
        }
        let idx = match space.dice_index(space.n, &succ) {
            Some(i) => i,
            None => {
                proof {
                    assert(succ.total() == space.n);
                    assert(false);
                }
                0
            },
        };
        proof {
            lemma_spec_dice_index(full, space.n as int, idx as int, succ@);
        }
        let w = ways(o);
        let offset = (idx as u64) + rank * dd;
        proof {
            assert((rank as int) * (dd as int) + dd <= (ranks as int) * (dd as int))
                by (nonlinear_arith)
                requires
                    rank < ranks && 0 < dd,
            ;
            assert((ranks as int) * (dd as int) == table@.len());
        }
        let entry = table[offset as usize];
        assert(w * (entry as u64) <= 720 * 0xFFFF_FFFF) by (nonlinear_arith)
            requires
                w <= 720 && entry <= 0xFFFF_FFFF,
        ;
        sum = sum + w * (entry as u64);
        oi = oi + 1;
        proof {
            assert(outs@.len() <= 462);
        }
    }
    let q = sum / pow6(rr);
    proof {
        vstd::arithmetic::div_mod::lemma_div_is_ordered_by_denominator(sum as int, 1, spec_pow6(rr as int));
        reveal(spec_rethrow_value);
    }
    if q > 0xFFFF_FFFF {
        0xFFFF_FFFF
    } else {
        q as u32
    }
}

/// Candidate `(a_rr, a_i)` is enumerated before `(b_rr, b_i)`: fewer
/// rethrown dice first, then canonical multiset order.
pub open spec fn candidate_before(a_rr: int, a_i: int, b_rr: int, b_i: int) -> bool {
    a_rr < b_rr || (a_rr == b_rr && a_i < b_i)
}

/// The optimal reroll decision for `dice` at category rank `rank`, against
/// the completed dependency table `table`: the rethrow multiset of maximal
/// expected score, ties broken by the first candidate in enumeration order,
/// and that score.  Every sub-multiset of the dice is a candidate.
#[verifier::rlimit(100)]
pub fn best_reroll(
    space: &IndexSpace,
    dice: &DiceThrow,
    rank: u64,
    table: &Vec<u32>,
    ranks: u64,
) -> (r: (DiceThrow, u32))
    requires
        space.wf(),
        dice.total() == space.n,
        rank < ranks,
        ranks <= 0x10_0000,
        table_wf(table@, ranks as int, multiset_count(space.n as int)),
    ensures
        dice_le(r.0@, dice@),
        r.0.total() <= space.n,
        r.1 == spec_rethrow_value(*space, dice@, r.0@, rank as int, table@),
        forall|s: Seq<u64>|
            s.len() == 6 && #[trigger] dice_le(s, dice@) ==> spec_rethrow_value(
                *space,
                dice@,
                s,
                rank as int,
                table@,
            ) <= r.1,
        forall|q: int, j: int|
            0 <= q <= space.n && 0 <= j < space.rolls@[q]@.len() && dice_le(
                (#[trigger] space.rolls@[q]@[j])@,
                dice@,
            ) && candidate_before(
                q,
                j,
                r.0.total(),
                spec_dice_index(space.rolls@[r.0.total()]@, r.0@),
            ) ==> spec_rethrow_value(*space, dice@, space.rolls@[q]@[j]@, rank as int, table@)
                < r.1,
{
    let n = space.n;
    let first = space.rolls[0][0];
    proof {
        assert(first.total() == 0);
        lemma_count_le_total(first, 0);
        lemma_count_le_total(first, 1);
        lemma_count_le_total(first, 2);
        lemma_count_le_total(first, 3);
        lemma_count_le_total(first, 4);
        lemma_count_le_total(first, 5);
        assert(dice_le(first@, dice@));
        lemma_spec_dice_index(space.rolls@[0]@, 0, 0, first@);
    }
    let mut best_rt = first;
    let mut best_v = rethrow_value(space, dice, &best_rt, rank, table, ranks);
    let ghost mut best_rr: int = 0;
    let ghost mut best_i: int = 0;
    let mut rr: u64 = 1;
    while rr <= n
        invariant
            space.wf(),
            dice.total() == space.n,
            n == space.n,
            rank < ranks <= 0x10_0000,
            table_wf(table@, ranks as int, multiset_count(space.n as int)),
            1 <= rr <= n + 1,
            dice_le(best_rt@, dice@),
            best_rt.total() == best_rr,
            0 <= best_rr < rr,
            0 <= best_i < space.rolls@[best_rr]@.len(),
            space.rolls@[best_rr]@[best_i]@ == best_rt@,
            best_i == spec_dice_index(space.rolls@[best_rr]@, best_rt@),
            best_v == spec_rethrow_value(*space, dice@, best_rt@, rank as int, table@),
            forall|q: int, j: int|
                0 <= q < rr && 0 <= j < space.rolls@[q]@.len() && dice_le(
                    (#[trigger] space.rolls@[q]@[j])@,
                    dice@,
                ) ==> spec_rethrow_value(*space, dice@, space.rolls@[q]@[j]@, rank as int, table@)
                    <= best_v,
            forall|q: int, j: int|
                0 <= q < rr && 0 <= j < space.rolls@[q]@.len() && dice_le(
                    (#[trigger] space.rolls@[q]@[j])@,
                    dice@,
                ) && candidate_before(q, j, best_rr, best_i) ==> spec_rethrow_value(
                    *space,
                    dice@,
                    space.rolls@[q]@[j]@,
                    rank as int,
                    table@,
                ) < best_v,
        decreases n + 1 - rr,
    {
        let row_len = space.rolls[rr as usize].len();
        let mut i: usize = 0;
        while i < row_len
            invariant
                space.wf(),
                dice.total() == space.n,
                n == space.n,
                rank < ranks <= 0x10_0000,
                table_wf(table@, ranks as int, multiset_count(space.n as int)),
                1 <= rr <= n,
                row_len == space.rolls@[rr as int]@.len(),
                i <= row_len,
                dice_le(best_rt@, dice@),
                best_rt.total() == best_rr,
                0 <= best_rr <= rr,
                0 <= best_i < space.rolls@[best_rr]@.len(),
                best_rr == rr ==> best_i < i,
                space.rolls@[best_rr]@[best_i]@ == best_rt@,
                best_i == spec_dice_index(space.rolls@[best_rr]@, best_rt@),
                best_v == spec_rethrow_value(*space, dice@, best_rt@, rank as int, table@),
                forall|q: int, j: int|
                    0 <= q <= rr && 0 <= j < space.rolls@[q]@.len() && (q < rr || j < i)
                        && dice_le((#[trigger] space.rolls@[q]@[j])@, dice@)
                        ==> spec_rethrow_value(
                        *space,
                        dice@,
                        space.rolls@[q]@[j]@,
                        rank as int,
                        table@,
                    ) <= best_v,
                forall|q: int, j: int|
                    0 <= q <= rr && 0 <= j < space.rolls@[q]@.len() && (q < rr || j < i)
                        && dice_le((#[trigger] space.rolls@[q]@[j])@, dice@)
                        && candidate_before(q, j, best_rr, best_i) ==> spec_rethrow_value(
                        *space,
                        dice@,
                        space.rolls@[q]@[j]@,
                        rank as int,
                        table@,
                    ) < best_v,
            decreases row_len - i,
        {
            let cand = space.rolls[rr as usize][i];
            if cand.le(dice) {
                let v = rethrow_value(space, dice, &cand, rank, table, ranks);
                if v > best_v {
                    best_rt = cand;
                    best_v = v;
                    proof {
                        best_rr = rr as int;
                        best_i = i as int;
                        lemma_spec_dice_index(
                            space.rolls@[rr as int]@,
                            rr as int,
                            i as int,
                            cand@,
                        );
                    }
                }
            }
            i = i + 1;
        }
        rr = rr + 1;
    }
    proof {
        assert forall|s: Seq<u64>|
            s.len() == 6 && #[trigger] dice_le(s, dice@) implies spec_rethrow_value(
            *space,
            dice@,
            s,
            rank as int,
            table@,
        ) <= best_v by {
            crate::enumerate::lemma_dice_le_total(s, dice@);
            let ts = dice_total(s);
            assert(in_list(space.rolls@[ts]@, s));
            let j = choose|j: int|
                0 <= j < space.rolls@[ts]@.len() && (#[trigger] space.rolls@[ts]@[j])@ == s;
            assert(spec_rethrow_value(*space, dice@, space.rolls@[ts]@[j]@, rank as int, table@)
                <= best_v);
        }
    }
    (best_rt, best_v)
}

/// The dependency window of a category-choice stage: the score tables of
/// the one-fewer-categories stage, for the bonus buckets from
/// `bucket_base` on.  Only upper-section points move the bucket, by at most
/// six dice of face six, so a window that reaches either the last bucket or
/// more than thirty-six buckets ahead covers every successor.
pub struct DepWindow {
    /// The bucket of the first table in the window.
    pub bucket_base: u64,
    /// `tables[t]` is the completed score table of bucket
    /// `bucket_base + t`.
    pub tables: Vec<Vec<u32>>,
}

impl DepWindow {
    /// The window invariant for a stage with `open_count` open categories
    /// of variant `v`, whose dice index space has `dd` entries.
    pub open spec fn wf(&self, v: crate::Variant, open_count: int, dd: int) -> bool {
        &&& 1 <= self.tables@.len()
        &&& self.bucket_base + self.tables@.len() <= v.spec_num_buckets()
        &&& (self.bucket_base + self.tables@.len() == v.spec_num_buckets() || self.tables@.len()
            > 36)
        &&& forall|t: int|
            0 <= t < self.tables@.len() ==> table_wf(
                (#[trigger] self.tables@[t])@,
                crate::cells::spec_binom(v.spec_num_cells() as int, open_count - 1),
                dd,
            )
    }
}

/// The value of scoring the open category `cell` now: its effective points
/// (bonus included when crossed), plus the completed successor score of the
/// reduced category subset at the advanced bucket, clipped to 32 bits.
#[verifier::opaque]
pub open spec fn spec_cell_value(
    v: crate::Variant,
    space: IndexSpace,
    dice: Seq<u64>,
    cells: Seq<bool>,
    bucket: int,
    base: int,
    tables: Seq<Seq<u32>>,
    cell: int,
) -> int {
    let s = crate::scoring::spec_cell_score(v, cell, dice);
    let imm = crate::scoring::spec_effective_cell_points(v, cell, dice, bucket);
    let nb = crate::scoring::spec_next_bucket(v, bucket, cell, s);
    let rank2 = crate::cells::spec_subset_rank(cells.update(cell, false));
    let dice_idx = spec_dice_index(space.rolls@[space.n as int]@, dice);
    let q = imm * SCORE_SCALE + tables[nb - base][spec_file_offset(
        dice_idx,
        rank2,
        multiset_count(space.n as int),
    )];
    if q > 0xFFFF_FFFF {
        0xFFFF_FFFF
    } else {
        q
    }
}

/// The value of scoring the open category `cell` from the given state,
/// read against the dependency window `dep`.
#[verifier::rlimit(100)]
pub fn cell_value(
    v: crate::Variant,
    space: &IndexSpace,
    dice: &DiceThrow,
    cells: &Vec<bool>,
    bucket: u64,
    dep: &DepWindow,
    cell: u64,
) -> (r: u32)
    requires
        space.wf(),
        space.n == v.spec_num_dice(),
        dice.total() == space.n,
        cells@.len() == v.spec_num_cells(),
        cell < v.spec_num_cells(),
        cells@[cell as int],
        bucket == dep.bucket_base < v.spec_num_buckets(),
        dep.wf(v, crate::cells::spec_popcnt(cells@), multiset_count(space.n as int)),
    ensures
        r == spec_cell_value(
            v,
            *space,
            dice@,
            cells@,
            bucket as int,
            dep.bucket_base as int,
            dep.tables.deep_view(),
            cell as int,
        ),
{
    let ghost k = crate::cells::spec_popcnt(cells@);
    let score = dice.cell_score(v, cell);
    let imm = crate::scoring::points_for_single_cell(v, cell, dice, bucket);
    let (nb, _crossed) = crate::scoring::advance_bucket(v, bucket, cell, score);
    let mut cl = crate::cells::copy_cells(cells);
    cl.set(cell as usize, false);
    proof {
        crate::cells::lemma_popcnt_update(cells@, cell as int);
    }
    let rk = crate::cells::subset_rank(&cl);
    proof {
        crate::cells::lemma_binom_le_pow2(cells@.len() as int, k - 1);
        crate::cells::lemma_pow2_mono(cells@.len() as int, 20);
        assert(crate::cells::spec_pow2(20) == 0x100000) by {
            reveal_with_fuel(crate::cells::spec_pow2, 21);
        }
    }
    let ti = nb - bucket;
    proof {
        if dep.bucket_base + dep.tables@.len() < v.spec_num_buckets() {
            assert(dep.tables@.len() > 36);
            if cell < 6 {
                crate::dice::lemma_count_le_total(*dice, cell as int);
                assert(score == crate::scoring::spec_amount_of(dice@, cell + 1));
                assert(dice@[cell as int] * (cell + 1) <= 36) by (nonlinear_arith)
                    requires
                        dice@[cell as int] <= 6 && cell + 1 <= 6,
                ;
                assert(nb - bucket <= 36);
            } else {
                assert(nb == bucket);
            }
        } else {
            assert(nb < v.spec_num_buckets());
        }
        assert(ti < dep.tables@.len());
    }
    let table = &dep.tables[ti as usize];
    let dd = multiset_count_exec(space.n) as u64;
    let dice_idx = match space.dice_index(space.n, dice) {
        Some(i) => i,
        None => {
            proof {
                assert(false);
            }
            0
        },
    };
    proof {
        lemma_spec_dice_index(space.rolls@[space.n as int]@, space.n as int, dice_idx as int, dice@);
        assert((rk as int) * (dd as int) + dd <= crate::cells::spec_binom(
            v.spec_num_cells() as int,
            k - 1,
        ) * (dd as int)) by (nonlinear_arith)
            requires
                rk < crate::cells::spec_binom(v.spec_num_cells() as int, k - 1) && 0 < dd,
        ;
    }
    let offset = (dice_idx as u64) + rk * dd;
    let entry = table[offset as usize];
    let q: u64 = (imm as u64) * SCORE_SCALE + (entry as u64);
    proof {
        reveal(spec_cell_value);
        assert(dep.tables.deep_view()[ti as int] =~= table@);
        assert(cl@ =~= cells@.update(cell as int, false));
    }
    if q > 0xFFFF_FFFF {
        0xFFFF_FFFF
    } else {
        q as u32
    }
}

/// The optimal category choice for `dice` with the open set `cells` at
/// bonus bucket `bucket`: the open category of maximal value, ties broken
/// by the lowest category index, and that value.
#[verifier::rlimit(100)]
pub fn best_cell(
    v: crate::Variant,
    space: &IndexSpace,
    dice: &DiceThrow,
    cells: &Vec<bool>,
    bucket: u64,
    dep: &DepWindow,
) -> (r: (u64, u32))
    requires
        space.wf(),
        space.n == v.spec_num_dice(),
        dice.total() == space.n,
        cells@.len() == v.spec_num_cells(),
        crate::cells::spec_popcnt(cells@) >= 1,
        bucket == dep.bucket_base < v.spec_num_buckets(),
        dep.wf(v, crate::cells::spec_popcnt(cells@), multiset_count(space.n as int)),
    ensures
        r.0 < v.spec_num_cells(),
        cells@[r.0 as int],
        r.1 == spec_cell_value(
            v,
            *space,
            dice@,
            cells@,
            bucket as int,
            dep.bucket_base as int,
            dep.tables.deep_view(),
            r.0 as int,
        ),
        forall|c: int|
            0 <= c < v.spec_num_cells() && (#[trigger] cells@[c]) ==> spec_cell_value(
                v,
                *space,
                dice@,
                cells@,
                bucket as int,
                dep.bucket_base as int,
                dep.tables.deep_view(),
                c,
            ) <= r.1,
        forall|c: int|
            0 <= c < r.0 && (#[trigger] cells@[c]) ==> spec_cell_value(
                v,
                *space,
                dice@,
                cells@,
                bucket as int,
                dep.bucket_base as int,
                dep.tables.deep_view(),
                c,
            ) < r.1,
{
    let ncells = v.num_cells();
    let mut best: Option<(u64, u32)> = None;
    let mut c: u64 = 0;
    while c < ncells
        invariant
            space.wf(),
            space.n == v.spec_num_dice(),
            dice.total() == space.n,
            cells@.len() == v.spec_num_cells(),
            crate::cells::spec_popcnt(cells@) >= 1,
            bucket == dep.bucket_base < v.spec_num_buckets(),
            dep.wf(v, crate::cells::spec_popcnt(cells@), multiset_count(space.n as int)),
            ncells == v.spec_num_cells(),
            c <= ncells,
            match best {
                Some(b) => {
                    &&& b.0 < c
                    &&& cells@[b.0 as int]
                    &&& b.1 == spec_cell_value(
                        v,
                        *space,
                        dice@,
                        cells@,
                        bucket as int,
                        dep.bucket_base as int,
                        dep.tables.deep_view(),
                        b.0 as int,
                    )
                    &&& forall|d: int|
                        0 <= d < c && (#[trigger] cells@[d]) ==> spec_cell_value(
                            v,
                            *space,
                            dice@,
                            cells@,
                            bucket as int,
                            dep.bucket_base as int,
                            dep.tables.deep_view(),
                            d,
                        ) <= b.1
                    &&& forall|d: int|
                        0 <= d < b.0 && (#[trigger] cells@[d]) ==> spec_cell_value(
                            v,
                            *space,
                            dice@,
                            cells@,
                            bucket as int,
                            dep.bucket_base as int,
                            dep.tables.deep_view(),
                            d,
                        ) < b.1
                },
                None => forall|d: int| 0 <= d < c ==> !(#[trigger] cells@[d]),
            },
        decreases ncells - c,
    {
        if cells[c as usize] {
            let val = cell_value(v, space, dice, cells, bucket, dep, c);
            match best {
                Some(b) => {
                    if val > b.1 {
                        best = Some((c, val));
                    }
                },
                None => {
                    best = Some((c, val));
                },
            }
        }
        c = c + 1;
    }
    match best {
        Some(b) => b,
        None => {
            proof {
                crate::cells::lemma_popcnt_all_false(cells@);
                assert(false);
            }
            (0, 0)
        },
    }
}

/// The value of scoring a category now is never below the category's own
/// effective points: the successor contribution is never negative.
pub proof fn lemma_single_category_floor(
    v: crate::Variant,
    space: IndexSpace,
    dice: Seq<u64>,
    cells: Seq<bool>,
    bucket: int,
    base: int,
    tables: Seq<Seq<u32>>,
    cell: int,
)
    requires
        cell >= 0,
    ensures
        spec_cell_value(v, space, dice, cells, bucket, base, tables, cell) >= {
            let imm = crate::scoring::spec_effective_cell_points(v, cell, dice, bucket) * (
            SCORE_SCALE as int);
            if imm > 0xFFFF_FFFF {
                0xFFFF_FFFF
            } else {
                imm
            }
        },
{
    reveal(spec_cell_value);
    crate::scoring::lemma_effective_points_nonneg(v, cell, dice, bucket);
    let imm = crate::scoring::spec_effective_cell_points(v, cell, dice, bucket);
    assert(imm * (SCORE_SCALE as int) >= 0) by (nonlinear_arith)
        requires
            imm >= 0,
    ;
}

/// With more categories open, the expected score is never less than the
/// best single-category score achievable from any one of them: every open
/// category's effective points are a floor on the optimal choice's value.
pub proof fn lemma_more_categories_never_worse(
    v: crate::Variant,
    space: IndexSpace,
    dice: Seq<u64>,
    cells: Seq<bool>,
    bucket: int,
    base: int,
    tables: Seq<Seq<u32>>,
    cell: int,
    best_value: int,
)
    requires
        cell >= 0,
        spec_cell_value(v, space, dice, cells, bucket, base, tables, cell) <= best_value,
    ensures
        best_value >= {
            let imm = crate::scoring::spec_effective_cell_points(v, cell, dice, bucket) * (
            SCORE_SCALE as int);
            if imm > 0xFFFF_FFFF {
                0xFFFF_FFFF
            } else {
                imm
            }
        },
{
    lemma_single_category_floor(v, space, dice, cells, bucket, base, tables, cell);
}

} // verus!
