//! Scoring rules: the point value of a throw in each category, the effective
//! value once bonus progress is taken into account, and how scoring a
//! category advances the bonus bucket.

use vstd::prelude::*;

use crate::Variant;
use crate::dice::{DiceThrow, dice_total};

verus! {

/// Points of the upper-section category for `face`: every die showing that
/// face counts its face value.
pub open spec fn spec_amount_of(d: Seq<u64>, face: int) -> int {
    d[face - 1] * face
}

/// Points of the pairs category: walking faces from high to low, each face
/// with at least two dice contributes one pair worth twice the face, until
/// `k` pairs have been taken or no faces remain.
pub open spec fn spec_pairs(d: Seq<u64>, face: int, k: int) -> int
    decreases face,
{
    if face < 1 || k <= 0 {
        0
    } else if d[face - 1] >= 2 {
        2 * face + spec_pairs(d, face - 1, k - 1)
    } else {
        spec_pairs(d, face - 1, k)
    }
}

/// Points of the n-of-a-kind category: the highest face at or below `face`
/// carried by at least `n` dice scores `n` times that face; otherwise zero.
pub open spec fn spec_n_of_a_kind(d: Seq<u64>, face: int, n: int) -> int
    decreases face,
{
    if face < 1 {
        0
    } else if d[face - 1] >= n {
        face * n
    } else {
        spec_n_of_a_kind(d, face - 1, n)
    }
}

/// Whether every face in `a..=b` shows on at least one die.
pub open spec fn spec_has_run(d: Seq<u64>, a: int, b: int) -> bool
    decreases b - a + 1,
{
    if a > b {
        true
    } else {
        d[a - 1] >= 1 && spec_has_run(d, a + 1, b)
    }
}

/// The sum `a + (a + 1) + ... + b`.
pub open spec fn spec_range_sum(a: int, b: int) -> int
    decreases b - a + 1,
{
    if a > b {
        0
    } else {
        a + spec_range_sum(a + 1, b)
    }
}

/// Points of the straight category over faces `a..=b`.
pub open spec fn spec_straight(d: Seq<u64>, a: int, b: int) -> int {
    if spec_has_run(d, a, b) {
        spec_range_sum(a, b)
    } else {
        0
    }
}

/// The highest face at or below `face`, other than `skip`, carried by at
/// least `need` dice; zero when there is none.
pub open spec fn spec_face_with(d: Seq<u64>, face: int, need: int, skip: int) -> int
    decreases face,
{
    if face < 1 {
        0
    } else if face != skip && d[face - 1] >= need {
        face
    } else {
        spec_face_with(d, face - 1, need, skip)
    }
}

/// Points of the building categories (house, hut, tower): the best face with
/// at least `a` dice and a distinct second face with at least `b` dice,
/// scored as `a` dice of the first plus `b` dice of the second; zero when no
/// such two faces exist.
pub open spec fn spec_building(d: Seq<u64>, a: int, b: int) -> int {
    let fa = spec_face_with(d, 6, a, 0);
    if fa == 0 {
        0
    } else {
        let fb = spec_face_with(d, 6, b, fa);
        if fb == 0 {
            0
        } else {
            a * fa + b * fb
        }
    }
}

/// Points of the chance category: the sum of all dice.
pub open spec fn spec_chance(d: Seq<u64>) -> int {
    d[0] * 1 + d[1] * 2 + d[2] * 3 + d[3] * 4 + d[4] * 5 + d[5] * 6
}

/// Points of the yahtzee category: all dice on one face scores 50 for the
/// five-dice variant and 100 for the six-dice variant, otherwise zero.
pub open spec fn spec_yahtzee(d: Seq<u64>) -> int {
    if exists|f: int| 1 <= f <= 6 && #[trigger] d[f - 1] == dice_total(d) {
        if dice_total(d) == 5 {
            50
        } else {
            100
        }
    } else {
        0
    }
}

impl DiceThrow {
    /// Upper-section score for `face`.
    pub fn ammount_of(&self, face: u64) -> (r: u64)
        requires
            1 <= face <= 6,
            self.total() <= 6,
        ensures
            r == spec_amount_of(self@, face as int),
            r <= 36,
    {
        let c = self.cnt(face);
        proof {
            crate::dice::lemma_count_le_total(*self, face - 1);
        }
        assert(c * face <= 36) by (nonlinear_arith)
            requires
                c <= 6,
                face <= 6,
        ;
        c * face
    }

    /// Pairs score, taking at most `k` pairs from the highest faces down.
    pub fn pairs(&self, k: u64) -> (r: u64)
        requires
            self.total() <= 6,
        ensures
            r == spec_pairs(self@, 6, k as int),
            r <= 72,
    {
        let mut acc: u64 = 0;
        let mut face: u64 = 6;
        let mut rem: u64 = k;
        while face >= 1
            invariant
                face <= 6,
                self.total() <= 6,
                acc <= 12 * (6 - face),
                acc + spec_pairs(self@, face as int, rem as int) == spec_pairs(self@, 6, k as int),
            decreases face,
        {
            if rem > 0 && self.cnt(face) >= 2 {
                assert(spec_pairs(self@, face as int, rem as int) == 2 * face + spec_pairs(
                    self@,
                    face - 1,
                    rem - 1,
                ));
                acc = acc + 2 * face;
                rem = rem - 1;
            } else {
                assert(spec_pairs(self@, face as int, rem as int) == spec_pairs(
                    self@,
                    face - 1,
                    rem as int,
                ));
            }
            face = face - 1;
        }
        assert(spec_pairs(self@, 0, rem as int) == 0);
        acc
    }

    /// N-of-a-kind score for `n` equal dice.
    pub fn n_of_a_kind(&self, n: u64) -> (r: u64)
        requires
            1 <= n <= 6,
            self.total() <= 6,
        ensures
            r == spec_n_of_a_kind(self@, 6, n as int),
            r <= 36,
    {
        let mut face: u64 = 6;
        while face >= 1
            invariant
                face <= 6,
                1 <= n <= 6,
                self.total() <= 6,
                spec_n_of_a_kind(self@, face as int, n as int) == spec_n_of_a_kind(
                    self@,
                    6,
                    n as int,
                ),
            decreases face,
        {
            if self.cnt(face) >= n {
                assert(face * n <= 36) by (nonlinear_arith)
                    requires
                        1 <= face <= 6,
                        n <= 6,
                ;
                return face * n;
            }
            face = face - 1;
        }
        assert(spec_n_of_a_kind(self@, 0, n as int) == 0);
        0
    }

    /// Straight score over faces `a..=b`.
    pub fn straight(&self, a: u64, b: u64) -> (r: u64)
        requires
            1 <= a <= b <= 6,
            self.total() <= 6,
        ensures
            r == spec_straight(self@, a as int, b as int),
            r <= 36,
    {
        let mut f: u64 = a;
        while f <= b
            invariant
                1 <= a <= f <= b + 1,
                b <= 6,
                spec_has_run(self@, a as int, b as int) == spec_has_run(
                    self@,
                    f as int,
                    b as int,
                ),
            decreases b + 1 - f,
        {
            if self.cnt(f) < 1 {
                assert(!spec_has_run(self@, f as int, b as int));
                return 0;
            }
            f = f + 1;
        }
        assert(spec_has_run(self@, a as int, b as int)) by {
            assert(spec_has_run(self@, f as int, b as int));
        }
        let mut sum: u64 = 0;
        let mut g: u64 = b + 1;
        while g > a
            invariant
                a <= g <= b + 1,
                b <= 6,
                sum == spec_range_sum(g as int, b as int),
                sum <= 6 * (7 - g),
            decreases g,
        {
            g = g - 1;
            assert(spec_range_sum(g as int, b as int) == g + spec_range_sum(g + 1, b as int));
            sum = sum + g;
        }
        sum
    }

    /// Building score: `a` equal dice on one face and `b` on another.
    pub fn building(&self, a: u64, b: u64) -> (r: u64)
        requires
            1 <= a <= 6,
            1 <= b <= 6,
            self.total() <= 6,
        ensures
            r == spec_building(self@, a as int, b as int),
            r <= 72,
    {
        let fa = self.face_with(a, 0);
        if fa == 0 {
            return 0;
        }
        let fb = self.face_with(b, fa);
        if fb == 0 {
            return 0;
        }
        assert(a * fa <= 36 && b * fb <= 36) by (nonlinear_arith)
            requires
                a <= 6 && fa <= 6 && b <= 6 && fb <= 6,
        ;
        a * fa + b * fb
    }

    /// The highest face with at least `need` dice, other than `skip`;
    /// zero when there is none.
    fn face_with(&self, need: u64, skip: u64) -> (r: u64)
        ensures
            r == spec_face_with(self@, 6, need as int, skip as int),
            r <= 6,
    {
        let mut face: u64 = 6;
        while face >= 1
            invariant
                face <= 6,
                spec_face_with(self@, face as int, need as int, skip as int) == spec_face_with(
                    self@,
                    6,
                    need as int,
                    skip as int,
                ),
            decreases face,
        {
            if face != skip && self.cnt(face) >= need {
                return face;
            }
            assert(spec_face_with(self@, face as int, need as int, skip as int) == spec_face_with(
                self@,
                face - 1,
                need as int,
                skip as int,
            ));
            face = face - 1;
        }
        assert(spec_face_with(self@, 0, need as int, skip as int) == 0);
        0
    }

    /// Points this throw scores in category `cell` of variant `v`.
    pub fn cell_score(&self, v: Variant, cell: u64) -> (r: u64)
        requires
            cell < v.spec_num_cells(),
            self.total() == v.spec_num_dice(),
        ensures
            r == spec_cell_score(v, cell as int, self@),
            r <= 100,
    {
        match v {
            Variant::Five => {
                if cell < 6 {
                    self.ammount_of(cell + 1)
                } else if cell == 6 {
                    self.pairs(1)
                } else if cell == 7 {
                    self.pairs(2)
                } else if cell == 8 {
                    self.n_of_a_kind(3)
                } else if cell == 9 {
                    self.n_of_a_kind(4)
                } else if cell == 10 {
                    self.straight(1, 5)
                } else if cell == 11 {
                    self.straight(2, 6)
                } else if cell == 12 {
                    self.building(3, 2)
                } else if cell == 13 {
                    self.chance()
                } else {
                    self.yahtzee()
                }
            },
            Variant::Six => {
                if cell < 6 {
                    self.ammount_of(cell + 1)
                } else if cell == 6 {
                    self.pairs(1)
                } else if cell == 7 {
                    self.pairs(2)
                } else if cell == 8 {
                    self.pairs(3)
                } else if cell == 9 {
                    self.n_of_a_kind(3)
                } else if cell == 10 {
                    self.n_of_a_kind(4)
                } else if cell == 11 {
                    self.n_of_a_kind(5)
                } else if cell == 12 {
                    self.straight(1, 5)
                } else if cell == 13 {
                    self.straight(2, 6)
                } else if cell == 14 {
                    self.straight(1, 6)
                } else if cell == 15 {
                    self.building(3, 2)
                } else if cell == 16 {
                    self.building(3, 3)
                } else if cell == 17 {
                    self.building(4, 2)
                } else if cell == 18 {
                    self.chance()
                } else {
                    self.yahtzee()
                }
            },
        }
    }
}

/// Points this throw scores in category `cell` of variant `v`.
/// Categories are ordered: the six upper-section faces, the pair
/// categories, n-of-a-kind, straights, buildings, chance, yahtzee.
pub open spec fn spec_cell_score(v: Variant, cell: int, d: Seq<u64>) -> int {
    match v {
        Variant::Five => {
            if cell < 6 {
                spec_amount_of(d, cell + 1)
            } else if cell == 6 {
                spec_pairs(d, 6, 1)
            } else if cell == 7 {
                spec_pairs(d, 6, 2)
            } else if cell == 8 {
                spec_n_of_a_kind(d, 6, 3)
            } else if cell == 9 {
                spec_n_of_a_kind(d, 6, 4)
            } else if cell == 10 {
                spec_straight(d, 1, 5)
            } else if cell == 11 {
                spec_straight(d, 2, 6)
            } else if cell == 12 {
                spec_building(d, 3, 2)
            } else if cell == 13 {
                spec_chance(d)
            } else {
                spec_yahtzee(d)
            }
        },
        Variant::Six => {
            if cell < 6 {
                spec_amount_of(d, cell + 1)
            } else if cell == 6 {
                spec_pairs(d, 6, 1)
            } else if cell == 7 {
                spec_pairs(d, 6, 2)
            } else if cell == 8 {
                spec_pairs(d, 6, 3)
            } else if cell == 9 {
                spec_n_of_a_kind(d, 6, 3)
            } else if cell == 10 {
                spec_n_of_a_kind(d, 6, 4)
            } else if cell == 11 {
                spec_n_of_a_kind(d, 6, 5)
            } else if cell == 12 {
                spec_straight(d, 1, 5)
            } else if cell == 13 {
                spec_straight(d, 2, 6)
            } else if cell == 14 {
                spec_straight(d, 1, 6)
            } else if cell == 15 {
                spec_building(d, 3, 2)
            } else if cell == 16 {
                spec_building(d, 3, 3)
            } else if cell == 17 {
                spec_building(d, 4, 2)
            } else if cell == 18 {
                spec_chance(d)
            } else {
                spec_yahtzee(d)
            }
        },
    }
}

/// Whether `cell` belongs to the upper section, whose points accumulate
/// toward the bonus.
pub open spec fn spec_is_upper(cell: int) -> bool {
    cell < 6
}

/// The bonus bucket after scoring `score` points in `cell` from `bucket`:
/// upper-section points accumulate and clip at the threshold, other
/// categories leave the bucket unchanged.
pub open spec fn spec_next_bucket(v: Variant, bucket: int, cell: int, score: int) -> int {
    if spec_is_upper(cell) {
        if bucket + score >= v.spec_bonus_threshold() {
            v.spec_bonus_threshold() as int
        } else {
            bucket + score
        }
    } else {
        bucket
    }
}

/// Whether scoring `score` points in `cell` from `bucket` crosses the bonus
/// threshold.  The award is paid exactly once, on the crossing step.
pub open spec fn spec_crosses_bonus(v: Variant, bucket: int, cell: int, score: int) -> bool {
    spec_is_upper(cell) && bucket < v.spec_bonus_threshold() && bucket + score
        >= v.spec_bonus_threshold()
}

/// Advance the bonus bucket for `score` points scored in `cell`, and report
/// whether the bonus was awarded by this step.
pub fn advance_bucket(v: Variant, bucket: u64, cell: u64, score: u64) -> (r: (u64, bool))
    requires
        bucket < v.spec_num_buckets(),
        score <= 100,
    ensures
        r.0 == spec_next_bucket(v, bucket as int, cell as int, score as int),
        r.1 == spec_crosses_bonus(v, bucket as int, cell as int, score as int),
        r.0 < v.spec_num_buckets(),
{
    let threshold = v.bonus_threshold();
    if cell < 6 {
        if bucket + score >= threshold {
            (threshold, bucket < threshold)
        } else {
            (bucket + score, false)
        }
    } else {
        (bucket, false)
    }
}

/// The points the throw is worth when it is scored in `cell` with
/// upper-section progress `points_above`: the category points, plus the
/// bonus award when those points cross the bonus threshold.
pub open spec fn spec_effective_cell_points(
    v: Variant,
    cell: int,
    d: Seq<u64>,
    points_above: int,
) -> int {
    let s = spec_cell_score(v, cell, d);
    if spec_crosses_bonus(v, points_above, cell, s) {
        s + v.spec_bonus_award()
    } else {
        s
    }
}

/// The effective points of scoring `dice` in `cell_ind` with upper-section
/// progress `points_above`, bonus included when it is crossed.
pub fn points_for_single_cell(
    v: Variant,
    cell_ind: u64,
    dice: &DiceThrow,
    points_above: u64,
) -> (r: u64)
    requires
        cell_ind < v.spec_num_cells(),
        dice.total() == v.spec_num_dice(),
        points_above < v.spec_num_buckets(),
    ensures
        r == spec_effective_cell_points(v, cell_ind as int, dice@, points_above as int),
        r <= 200,
{
    let score = dice.cell_score(v, cell_ind);
    if cell_ind < 6 && points_above < v.bonus_threshold() && points_above + score
        >= v.bonus_threshold() {
        score + v.bonus_award()
    } else {
        score
    }
}

/// Pairs scores are never negative.
pub proof fn lemma_pairs_nonneg(d: Seq<u64>, face: int, k: int)
    ensures
        spec_pairs(d, face, k) >= 0,
    decreases face,
{
    if !(face < 1 || k <= 0) {
        lemma_pairs_nonneg(d, face - 1, k - 1);
        lemma_pairs_nonneg(d, face - 1, k);
    }
}

/// N-of-a-kind scores are never negative.
pub proof fn lemma_n_of_a_kind_nonneg(d: Seq<u64>, face: int, n: int)
    requires
        n >= 0,
    ensures
        spec_n_of_a_kind(d, face, n) >= 0,
    decreases face,
{
    if face >= 1 {
        if d[face - 1] >= n {
            assert(face * n >= 0) by (nonlinear_arith)
                requires
                    face >= 1 && n >= 0,
            ;
        } else {
            lemma_n_of_a_kind_nonneg(d, face - 1, n);
        }
    }
}

/// Face-run sums are never negative.
pub proof fn lemma_range_sum_nonneg(a: int, b: int)
    requires
        a >= 0,
    ensures
        spec_range_sum(a, b) >= 0,
    decreases b - a + 1,
{
    if a <= b {
        lemma_range_sum_nonneg(a + 1, b);
    }
}

/// The best face at a count requirement is a face or zero.
pub proof fn lemma_face_with_nonneg(d: Seq<u64>, face: int, need: int, skip: int)
    ensures
        spec_face_with(d, face, need, skip) >= 0,
    decreases face,
{
    if face >= 1 && !(face != skip && d[face - 1] >= need) {
        lemma_face_with_nonneg(d, face - 1, need, skip);
    }
}

/// No category scores negative points.
pub proof fn lemma_cell_score_nonneg(v: Variant, cell: int, d: Seq<u64>)
    requires
        cell >= 0,
    ensures
        spec_cell_score(v, cell, d) >= 0,
{
    lemma_pairs_nonneg(d, 6, 1);
    lemma_pairs_nonneg(d, 6, 2);
    lemma_pairs_nonneg(d, 6, 3);
    lemma_n_of_a_kind_nonneg(d, 6, 3);
    lemma_n_of_a_kind_nonneg(d, 6, 4);
    lemma_n_of_a_kind_nonneg(d, 6, 5);
    lemma_range_sum_nonneg(1, 5);
    lemma_range_sum_nonneg(2, 6);
    lemma_range_sum_nonneg(1, 6);
    lemma_building_nonneg(d, 3, 2);
    lemma_building_nonneg(d, 3, 3);
    lemma_building_nonneg(d, 4, 2);
    if cell < 6 {
        assert(d[cell] * (cell + 1) >= 0) by (nonlinear_arith)
            requires
                d[cell] >= 0 && cell >= 0,
        ;
    }
}

/// Building scores are never negative.
pub proof fn lemma_building_nonneg(d: Seq<u64>, a: int, b: int)
    requires
        a >= 0,
        b >= 0,
    ensures
        spec_building(d, a, b) >= 0,
{
    lemma_face_with_nonneg(d, 6, a, 0);
    let fa = spec_face_with(d, 6, a, 0);
    lemma_face_with_nonneg(d, 6, b, fa);
    let fb = spec_face_with(d, 6, b, fa);
    assert(a * fa >= 0 && b * fb >= 0) by (nonlinear_arith)
        requires
            a >= 0 && b >= 0 && fa >= 0 && fb >= 0,
    ;
}

/// Effective points are never negative: the bonus only ever adds.
pub proof fn lemma_effective_points_nonneg(v: Variant, cell: int, d: Seq<u64>, points_above: int)
    requires
        cell >= 0,
    ensures
        spec_effective_cell_points(v, cell, d, points_above) >= spec_cell_score(v, cell, d) >= 0,
{
    lemma_cell_score_nonneg(v, cell, d);
}

/// The sum of the filled-in point values among the first `k` entries.
pub open spec fn spec_points_sum(p: Seq<Option<u64>>, k: int) -> int
    decreases k,
{
    if k <= 0 {
        0
    } else {
        spec_points_sum(p, k - 1) + match p[k - 1] {
            Some(x) => x as int,
            None => 0,
        }
    }
}

/// The final score of a finished or partial score sheet: all filled-in
/// points, plus the bonus when the upper section reached the threshold.
pub open spec fn spec_total_score(v: Variant, p: Seq<Option<u64>>) -> int {
    let upper = if p.len() < 6 {
        spec_points_sum(p, p.len() as int)
    } else {
        spec_points_sum(p, 6)
    };
    let bonus: int = if upper >= v.spec_bonus_threshold() {
        v.spec_bonus_award() as int
    } else {
        0
    };
    spec_points_sum(p, p.len() as int) + bonus
}

/// Total score of the sheet `points`: the sum of all filled-in cells plus
/// the bonus when the first six cells reach the threshold.
pub fn get_total_score(v: Variant, points: &[Option<u64>]) -> (r: u64)
    requires
        points@.len() <= 32,
        forall|i: int|
            0 <= i < points@.len() ==> ((#[trigger] points@[i]) matches Some(x) ==> x
                <= 1_000_000),
    ensures
        r == spec_total_score(v, points@),
{
    let n = points.len();
    let mut i: usize = 0;
    let mut sum: u64 = 0;
    let mut upper: u64 = 0;
    while i < n
        invariant
            i <= n,
            n == points@.len() <= 32,
            forall|j: int|
                0 <= j < points@.len() ==> ((#[trigger] points@[j]) matches Some(x) ==> x
                    <= 1_000_000),
            sum == spec_points_sum(points@, i as int),
            upper == if i < 6 {
                spec_points_sum(points@, i as int)
            } else {
                spec_points_sum(points@, 6)
            },
            sum <= i * 1_000_000,
        decreases n - i,
    {
        let v_i: u64 = match points[i] {
            Some(x) => x,
            None => 0,
        };
        sum = sum + v_i;
        if i < 6 {
            upper = upper + v_i;
        }
        i = i + 1;
    }
    if upper >= v.bonus_threshold() {
        sum + v.bonus_award()
    } else {
        sum
    }
}

impl DiceThrow {
    /// Chance score: the sum of all dice.
    pub fn chance(&self) -> (r: u64)
        requires
            self.total() <= 6,
        ensures
            r == spec_chance(self@),
            r <= 36,
    {
        let mut acc: u64 = 0;
        acc = acc + self.cnt(1) * 1;
        acc = acc + self.cnt(2) * 2;
        acc = acc + self.cnt(3) * 3;
        acc = acc + self.cnt(4) * 4;
        acc = acc + self.cnt(5) * 5;
        acc = acc + self.cnt(6) * 6;
        acc
    }

    /// Yahtzee score: all dice on one face.
    pub fn yahtzee(&self) -> (r: u64)
        requires
            self.total() == 5 || self.total() == 6,
        ensures
            r == spec_yahtzee(self@),
            r <= 100,
    {
        let amt = self.amt_dice();
        let mut face: u64 = 1;
        while face <= 6
            invariant
                1 <= face <= 7,
                amt == self.total(),
                forall|f: int| 1 <= f < face ==> #[trigger] self@[f - 1] != dice_total(self@),
            decreases 7 - face,
        {
            if self.cnt(face) == amt {
                if amt == 5 {
                    return 50;
                } else {
                    return 100;
                }
            }
            face = face + 1;
        }
        0
    }
}

} // verus!
