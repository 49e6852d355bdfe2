//! Canonical enumeration of dice multisets.
//!
//! All multisets of a given size are generated in one fixed order by a
//! successor function; a multiset's dense index is its position in that
//! order.  The same machinery enumerates the kept-dice sub-multisets of a
//! throw, and counts the orderings of a multiset for its exact outcome
//! probability.

use vstd::prelude::*;

use crate::dice::{DiceThrow, dice_total, lemma_count_le_total};

verus! {

broadcast use crate::dice::lemma_dice_len;

/// A multiset encoded as a base-8 number of its counts on faces two to six
/// (the count of face one follows from the total).  The canonical
/// enumeration emits multisets in strictly increasing encoding order.
pub open spec fn spec_encode(d: Seq<u64>) -> int {
    d[1] + 8 * d[2] + 64 * d[3] + 512 * d[4] + 4096 * d[5]
}

/// Pointwise order of face counts: every face of `a` shows at most as often
/// as in `b`.
pub open spec fn dice_le(a: Seq<u64>, b: Seq<u64>) -> bool {
    a[0] <= b[0] && a[1] <= b[1] && a[2] <= b[2] && a[3] <= b[3] && a[4] <= b[4] && a[5] <= b[5]
}

/// Whether some entry of `l` holds the dice `d`.
pub open spec fn in_list(l: Seq<DiceThrow>, d: Seq<u64>) -> bool {
    exists|i: int| 0 <= i < l.len() && (#[trigger] l[i])@ == d
}

/// An entry pushed later does not drop earlier entries.
pub proof fn lemma_in_list_push(l: Seq<DiceThrow>, x: DiceThrow, d: Seq<u64>)
    requires
        in_list(l, d),
    ensures
        in_list(l.push(x), d),
{
    let i = choose|i: int| 0 <= i < l.len() && (#[trigger] l[i])@ == d;
    assert(l.push(x)[i]@ == d);
}

/// Two base-eight digit strings with equal value have equal digits.
proof fn lemma_base8_digits_unique(
    a1: int,
    a2: int,
    a3: int,
    a4: int,
    a5: int,
    b1: int,
    b2: int,
    b3: int,
    b4: int,
    b5: int,
)
    requires
        0 <= a1 < 8 && 0 <= a2 < 8 && 0 <= a3 < 8 && 0 <= a4 < 8 && 0 <= a5 < 8,
        0 <= b1 < 8 && 0 <= b2 < 8 && 0 <= b3 < 8 && 0 <= b4 < 8 && 0 <= b5 < 8,
        a1 + 8 * a2 + 64 * a3 + 512 * a4 + 4096 * a5 == b1 + 8 * b2 + 64 * b3 + 512 * b4 + 4096
            * b5,
    ensures
        a1 == b1 && a2 == b2 && a3 == b3 && a4 == b4 && a5 == b5,
{
    assert(a1 - b1 == 8 * ((b2 - a2) + 8 * (b3 - a3) + 64 * (b4 - a4) + 512 * (b5 - a5)));
    assert(a1 == b1);
    assert(a2 - b2 == 8 * ((b3 - a3) + 8 * (b4 - a4) + 64 * (b5 - a5)));
    assert(a2 == b2);
    assert(a3 - b3 == 8 * ((b4 - a4) + 8 * (b5 - a5)));
    assert(a3 == b3);
    assert(a4 - b4 == 8 * (b5 - a5));
    assert(a4 == b4);
}

/// On multisets of the same small size the encoding is injective: equal
/// encodings mean equal counts.
pub proof fn lemma_encode_injective(a: Seq<u64>, b: Seq<u64>)
    requires
        a.len() == 6,
        b.len() == 6,
        dice_total(a) == dice_total(b) <= 6,
        spec_encode(a) == spec_encode(b),
    ensures
        a =~= b,
{
    lemma_base8_digits_unique(
        a[1] as int,
        a[2] as int,
        a[3] as int,
        a[4] as int,
        a[5] as int,
        b[1] as int,
        b[2] as int,
        b[3] as int,
        b[4] as int,
        b[5] as int,
    );
}

/// The successor of `d` in the canonical enumeration of multisets of its
/// size: take one die off the lowest face below six that has any, move it
/// one face up, and reset the part below to face one.  The last multiset
/// (all dice on face six) has no successor.  The successor is the
/// immediately next multiset of the same size in encoding order: no other
/// multiset fits between.
pub fn next_multiset(d: &DiceThrow) -> (r: Option<DiceThrow>)
    requires
        d.total() <= 6,
    ensures
        match r {
            Some(s) => {
                &&& s.total() == d.total()
                &&& spec_encode(s@) > spec_encode(d@)
                &&& s.total() <= 6
                &&& forall|e: Seq<u64>|
                    e.len() == 6 && dice_total(e) == d.total() && spec_encode(d@)
                        < #[trigger] spec_encode(e) ==> spec_encode(s@) <= spec_encode(e)
            },
            None => d@[0] == 0 && d@[1] == 0 && d@[2] == 0 && d@[3] == 0 && d@[4] == 0,
        },
{
    let mut i: u64 = 1;
    while i <= 5
        invariant
            1 <= i <= 6,
            d.total() <= 6,
            forall|f: int| 0 <= f < i - 1 ==> #[trigger] d@[f] == 0,
        decreases 6 - i,
    {
        if d.cnt(i) > 0 {
            let mut s = *d;
            proof {
                lemma_count_le_total(*d, i as int - 1);
                lemma_count_le_total(*d, i as int);
            }
            let moved = s.cnt(i) - 1;
            s.set_cnt(i, moved);
            let up = s.cnt(i + 1);
            proof {
                lemma_count_le_total(*d, i as int);
            }
            s.set_cnt(i + 1, up + 1);
            if i > 1 {
                let v = s.cnt(i);
                s.set_cnt(1, v);
                s.set_cnt(i, 0);
            }
            proof {
                assert(i == 1 || i == 2 || i == 3 || i == 4 || i == 5);
                assert(s.total() == d.total());
                assert(spec_encode(s@) > spec_encode(d@));
                lemma_no_multiset_between(d@, s@, i as int);
            }
            return Some(s);
        }
        i = i + 1;
    }
    proof {
        assert(d@[0] == 0);
        assert(d@[1] == 0);
        assert(d@[2] == 0);
        assert(d@[3] == 0);
        assert(d@[4] == 0);
    }
    None
}

/// No multiset of the same size fits strictly between a multiset and its
/// canonical successor: the moved die lands on the very next encoding that
/// any same-size multiset can reach.
proof fn lemma_no_multiset_between(d: Seq<u64>, s: Seq<u64>, i: int)
    requires
        d.len() == 6,
        s.len() == 6,
        1 <= i <= 5,
        dice_total(d) <= 6,
        forall|f: int| 0 <= f < i - 1 ==> #[trigger] d[f] == 0,
        d[i - 1] >= 1,
        i == 1 ==> s =~= d.update(0, (d[0] - 1) as u64).update(1, (d[1] + 1) as u64),
        i > 1 ==> s =~= d.update(0, (d[i - 1] - 1) as u64).update(i - 1, 0u64).update(
            i,
            (d[i] + 1) as u64,
        ),
    ensures
        forall|e: Seq<u64>|
            e.len() == 6 && dice_total(e) == dice_total(d) && spec_encode(d)
                < #[trigger] spec_encode(e) ==> spec_encode(s) <= spec_encode(e),
{
    assert forall|e: Seq<u64>|
        e.len() == 6 && dice_total(e) == dice_total(d) && spec_encode(d) < #[trigger] spec_encode(
            e,
        ) implies spec_encode(s) <= spec_encode(e) by {
        if i == 1 {
            assert(spec_encode(s) == spec_encode(d) + 1);
        } else if i == 2 {
            let hd = d[2] + 8 * d[3] + 64 * d[4] + 512 * d[5];
            let he = e[2] + 8 * e[3] + 64 * e[4] + 512 * e[5];
            assert(spec_encode(d) == d[1] + 8 * hd);
            assert(spec_encode(s) == 8 * hd + 8);
            assert(spec_encode(e) == e[1] + 8 * he);
            if he == hd {
                lemma_base8_digits_unique(
                    e[2] as int,
                    e[3] as int,
                    e[4] as int,
                    e[5] as int,
                    0,
                    d[2] as int,
                    d[3] as int,
                    d[4] as int,
                    d[5] as int,
                    0,
                );
                assert(e[0] + e[1] == d[0] + d[1]);
                assert(spec_encode(e) <= spec_encode(d));
                assert(false);
            } else if he < hd {
                assert(spec_encode(e) < spec_encode(d));
                assert(false);
            }
        } else if i == 3 {
            let hd = d[3] + 8 * d[4] + 64 * d[5];
            let he = e[3] + 8 * e[4] + 64 * e[5];
            assert(spec_encode(d) == 8 * d[2] + 64 * hd);
            assert(spec_encode(s) == 64 * hd + 64);
            assert(spec_encode(e) == e[1] + 8 * e[2] + 64 * he);
            if he == hd {
                lemma_base8_digits_unique(
                    e[3] as int,
                    e[4] as int,
                    e[5] as int,
                    0,
                    0,
                    d[3] as int,
                    d[4] as int,
                    d[5] as int,
                    0,
                    0,
                );
                assert(e[0] + e[1] + e[2] == d[2]);
                assert(spec_encode(e) <= spec_encode(d));
                assert(false);
            } else if he < hd {
                assert(spec_encode(e) < spec_encode(d));
                assert(false);
            }
        } else if i == 4 {
            let hd = d[4] + 8 * d[5];
            let he = e[4] + 8 * e[5];
            assert(spec_encode(d) == 64 * d[3] + 512 * hd);
            assert(spec_encode(s) == 512 * hd + 512);
            assert(spec_encode(e) == e[1] + 8 * e[2] + 64 * e[3] + 512 * he);
            if he == hd {
                lemma_base8_digits_unique(
                    e[4] as int,
                    e[5] as int,
                    0,
                    0,
                    0,
                    d[4] as int,
                    d[5] as int,
                    0,
                    0,
                    0,
                );
                assert(e[0] + e[1] + e[2] + e[3] == d[3]);
                assert(spec_encode(e) <= spec_encode(d));
                assert(false);
            } else if he < hd {
                assert(spec_encode(e) < spec_encode(d));
                assert(false);
            }
        } else {
            let hd = d[5] as int;
            let he = e[5] as int;
            assert(spec_encode(d) == 512 * d[4] + 4096 * hd);
            assert(spec_encode(s) == 4096 * hd + 4096);
            assert(spec_encode(e) == e[1] + 8 * e[2] + 64 * e[3] + 512 * e[4] + 4096 * he);
            if he == hd {
                assert(e[0] + e[1] + e[2] + e[3] + e[4] == d[4]);
                assert(spec_encode(e) <= spec_encode(d));
                assert(false);
            } else if he < hd {
                assert(spec_encode(e) < spec_encode(d));
                assert(false);
            }
        }
    }
}

/// Every multiset of `n` dice over six faces, in canonical order: the
/// successor chain from "all dice on face one".  Encodings strictly
/// increase along the list, so no multiset appears twice; and because each
/// successor is the immediately next encoding, no multiset is skipped.
pub fn all_multisets(n: u64) -> (r: Vec<DiceThrow>)
    requires
        n <= 6,
    ensures
        r@.len() >= 1,
        forall|i: int| 0 <= i < r@.len() ==> (#[trigger] r@[i]).total() == n,
        forall|i: int, j: int|
            0 <= i < j < r@.len() ==> spec_encode(#[trigger] r@[i]@) < spec_encode(
                #[trigger] r@[j]@,
            ),
        forall|e: Seq<u64>| e.len() == 6 && #[trigger] dice_total(e) == n ==> in_list(r@, e),
{
    let mut v: Vec<DiceThrow> = Vec::new();
    let mut cur = DiceThrow::from_counts([n, 0, 0, 0, 0, 0]);
    assert(cur.total() == n);
    loop
        invariant
            cur.total() == n <= 6,
            forall|i: int| 0 <= i < v@.len() ==> (#[trigger] v@[i]).total() == n,
            forall|i: int, j: int|
                0 <= i < j < v@.len() ==> spec_encode(#[trigger] v@[i]@) < spec_encode(
                    #[trigger] v@[j]@,
                ),
            forall|i: int| 0 <= i < v@.len() ==> spec_encode(#[trigger] v@[i]@) < spec_encode(cur@),
            forall|e: Seq<u64>|
                e.len() == 6 && dice_total(e) == n && #[trigger] spec_encode(e) < spec_encode(
                    cur@,
                ) ==> in_list(v@, e),
            0 <= spec_encode(cur@) < 32768,
        ensures
            v@.len() >= 1,
            forall|i: int| 0 <= i < v@.len() ==> (#[trigger] v@[i]).total() == n,
            forall|i: int, j: int|
                0 <= i < j < v@.len() ==> spec_encode(#[trigger] v@[i]@) < spec_encode(
                    #[trigger] v@[j]@,
                ),
            forall|e: Seq<u64>| e.len() == 6 && #[trigger] dice_total(e) == n ==> in_list(v@, e),
        decreases 32768 - spec_encode(cur@),
    {
        proof {
            lemma_count_le_total(cur, 1);
            lemma_count_le_total(cur, 2);
            lemma_count_le_total(cur, 3);
            lemma_count_le_total(cur, 4);
            lemma_count_le_total(cur, 5);
        }
        let ghost old_v = v@;
        v.push(cur);
        proof {
            assert(v@[old_v.len() as int] == cur);
            assert forall|e: Seq<u64>|
                e.len() == 6 && dice_total(e) == n && #[trigger] spec_encode(e) <= spec_encode(
                    cur@,
                ) implies in_list(v@, e) by {
                if spec_encode(e) < spec_encode(cur@) {
                    lemma_in_list_push(old_v, cur, e);
                } else {
                    lemma_encode_injective(e, cur@);
                    assert(v@[old_v.len() as int]@ == e);
                }
            }
        }
        match next_multiset(&cur) {
            Some(s) => {
                proof {
                    assert forall|e: Seq<u64>|
                        e.len() == 6 && dice_total(e) == n && #[trigger] spec_encode(e)
                            < spec_encode(s@) implies in_list(v@, e) by {
                        assert(spec_encode(e) <= spec_encode(cur@));
                    }
                }
                cur = s;
                proof {
                    lemma_count_le_total(cur, 1);
                    lemma_count_le_total(cur, 2);
                    lemma_count_le_total(cur, 3);
                    lemma_count_le_total(cur, 4);
                    lemma_count_le_total(cur, 5);
                }
            },
            None => {
                proof {
                    assert forall|e: Seq<u64>|
                        e.len() == 6 && #[trigger] dice_total(e) == n implies in_list(v@, e) by {
                        assert(spec_encode(cur@) == 4096 * n);
                        assert(spec_encode(e) <= 4096 * dice_total(e));
                    }
                }
                return v;
            },
        }
    }
}

/// The position of `d` in `list`, when it is there.
pub fn find_throw(list: &Vec<DiceThrow>, d: &DiceThrow) -> (r: Option<usize>)
    ensures
        match r {
            Some(i) => i < list@.len() && list@[i as int]@ == d@,
            None => !in_list(list@, d@),
        },
{
    let mut i: usize = 0;
    while i < list.len()
        invariant
            i <= list@.len(),
            forall|j: int| 0 <= j < i ==> (#[trigger] list@[j])@ != d@,
        decreases list@.len() - i,
    {
        if list[i].same(d) {
            return Some(i);
        }
        i = i + 1;
    }
    None
}

/// The factorial, with `0! == 1`.
pub open spec fn spec_fact(n: int) -> int
    decreases n,
{
    if n <= 0 {
        1
    } else {
        n * spec_fact(n - 1)
    }
}

/// The factorial of a small number.
pub fn fact(n: u64) -> (r: u64)
    requires
        n <= 6,
    ensures
        r == spec_fact(n as int),
        1 <= r <= 720,
{
    proof {
        assert(spec_fact(0) == 1 && spec_fact(1) == 1 && spec_fact(2) == 2 && spec_fact(3) == 6
            && spec_fact(4) == 24 && spec_fact(5) == 120 && spec_fact(6) == 720) by {
            reveal_with_fuel(spec_fact, 8);
        }
    }
    if n == 0 {
        1
    } else if n == 1 {
        1
    } else if n == 2 {
        2
    } else if n == 3 {
        6
    } else if n == 4 {
        24
    } else if n == 5 {
        120
    } else {
        720
    }
}

/// How many ordered rolls give the multiset `d`: the multinomial
/// coefficient of its counts, `total! / (c1! * ... * c6!)`.
pub open spec fn spec_ways(d: Seq<u64>) -> int {
    spec_fact(dice_total(d)) / (spec_fact(d[0] as int) * spec_fact(d[1] as int) * spec_fact(
        d[2] as int,
    ) * spec_fact(d[3] as int) * spec_fact(d[4] as int) * spec_fact(d[5] as int))
}

/// The number of ordered rolls of the multiset `d`.
pub fn ways(d: &DiceThrow) -> (r: u64)
    requires
        d.total() <= 6,
    ensures
        r == spec_ways(d@),
        r <= 720,
{
    proof {
        lemma_count_le_total(*d, 0);
        lemma_count_le_total(*d, 1);
        lemma_count_le_total(*d, 2);
        lemma_count_le_total(*d, 3);
        lemma_count_le_total(*d, 4);
        lemma_count_le_total(*d, 5);
    }
    let numer = fact(d.amt_dice());
    let f0 = fact(d.cnt(1));
    let f1 = fact(d.cnt(2));
    let f2 = fact(d.cnt(3));
    let f3 = fact(d.cnt(4));
    let f4 = fact(d.cnt(5));
    let f5 = fact(d.cnt(6));
    assert(1 <= f0 * f1 && f0 * f1 <= 0x80000 && 1 <= f0 * f1 * f2 && f0 * f1 * f2
        <= 0x2000_0000 && 1 <= f0 * f1 * f2 * f3 && f0 * f1 * f2 * f3 <= 0x80_0000_0000 && 1 <= f0
        * f1 * f2 * f3 * f4 && f0 * f1 * f2 * f3 * f4 <= 0x2_0000_0000_0000 && 1 <= f0 * f1 * f2
        * f3 * f4 * f5 && f0 * f1 * f2 * f3 * f4 * f5 <= 0x800_0000_0000_0000) by (nonlinear_arith)
        requires
            1 <= f0 <= 720 && 1 <= f1 <= 720 && 1 <= f2 <= 720 && 1 <= f3 <= 720 && 1 <= f4
                <= 720 && 1 <= f5 <= 720,
    ;
    let denom = f0 * f1 * f2 * f3 * f4 * f5;
    let r = numer / denom;
    proof {
        assert(numer / denom <= numer) by (nonlinear_arith)
            requires
                1 <= denom && 0 <= numer,
        ;
    }
    r
}

/// How many count vectors spread `rem` dice over the faces from index
/// `face - 1` on: either that face gets no die, or one of the `rem` dice
/// lands on it.
pub open spec fn spec_tuple_count(face: int, rem: int) -> int
    decreases 7 - face + rem,
{
    if face >= 6 || rem <= 0 {
        1
    } else {
        spec_tuple_count(face + 1, rem) + spec_tuple_count(face, rem - 1)
    }
}

/// The number of multisets of `r` dice over six faces, evaluated.
pub proof fn lemma_tuple_count_values()
    ensures
        spec_tuple_count(1, 0) == 1,
        spec_tuple_count(1, 1) == 6,
        spec_tuple_count(1, 2) == 21,
        spec_tuple_count(1, 3) == 56,
        spec_tuple_count(1, 4) == 126,
        spec_tuple_count(1, 5) == 252,
        spec_tuple_count(1, 6) == 462,
{
    reveal_with_fuel(spec_tuple_count, 13);
}

/// The sum of the face counts from index `i` on.
pub open spec fn sum_from(d: Seq<u64>, i: int) -> int
    decreases 6 - i,
{
    if i < 0 || i >= 6 {
        0
    } else {
        d[i] + sum_from(d, i + 1)
    }
}

/// Suffix sums of counts are never negative.
pub proof fn lemma_sum_from_nonneg(d: Seq<u64>, i: int)
    requires
        d.len() == 6,
    ensures
        sum_from(d, i) >= 0,
    decreases 6 - i,
{
    if 0 <= i < 6 {
        lemma_sum_from_nonneg(d, i + 1);
    }
}

/// The suffix sum from the first face is the number of dice.
pub proof fn lemma_sum_from_total(d: Seq<u64>)
    requires
        d.len() == 6,
    ensures
        sum_from(d, 0) == dice_total(d),
{
    assert(sum_from(d, 0) == dice_total(d)) by {
        reveal_with_fuel(sum_from, 8);
    }
}

/// One count vector spreads `rem` dice over the faces from index
/// `face - 1` on, all earlier faces empty.
pub open spec fn spec_suffix_tuple(e: Seq<u64>, face: int, rem: int) -> bool {
    &&& e.len() == 6
    &&& forall|j: int| 0 <= j < face - 1 ==> #[trigger] e[j] == 0
    &&& sum_from(e, face - 1) == rem
}

/// The all-empty throw, as a count vector.
pub open spec fn zero_counts() -> Seq<u64> {
    Seq::new(6, |j: int| 0u64)
}

/// The empty throw has empty suffix sums.
proof fn lemma_zero_counts_sum(i: int)
    ensures
        sum_from(zero_counts(), i) == 0,
    decreases 6 - i,
{
    if 0 <= i < 6 {
        lemma_zero_counts_sum(i + 1);
    }
}

/// Updating a face before the start of a suffix leaves its sum unchanged.
proof fn lemma_sum_from_update_below(e: Seq<u64>, k: int, x: u64, i: int)
    requires
        e.len() == 6,
        0 <= k < i,
    ensures
        sum_from(e.update(k, x), i) == sum_from(e, i),
    decreases 6 - i,
{
    if 0 <= i < 6 {
        lemma_sum_from_update_below(e, k, x, i + 1);
    }
}

/// A suffix that sums to zero holds no dice.
proof fn lemma_sum_from_zero_suffix(e: Seq<u64>, i: int)
    requires
        e.len() == 6,
        0 <= i,
        sum_from(e, i) == 0,
    ensures
        forall|j: int| i <= j < 6 ==> #[trigger] e[j] == 0,
    decreases 6 - i,
{
    if i < 6 {
        lemma_sum_from_nonneg(e, i + 1);
        lemma_sum_from_zero_suffix(e, i + 1);
    }
}

/// Every count vector of the tuple space `(face, rem)`, each exactly once:
/// the constructive count behind the enumeration.  A vector either leaves
/// face `face - 1` empty (first part) or puts at least one die on it
/// (second part, one die added back).
proof fn gen_tuples(face: int, rem: int) -> (s: Seq<Seq<u64>>)
    requires
        1 <= face <= 6,
        0 <= rem <= 6,
    ensures
        s.len() == spec_tuple_count(face, rem),
        forall|k: int| 0 <= k < s.len() ==> spec_suffix_tuple(#[trigger] s[k], face, rem),
        forall|e: Seq<u64>| #[trigger] spec_suffix_tuple(e, face, rem) ==> s.contains(e),
        s.no_duplicates(),
    decreases 7 - face + rem,
{
    if face == 6 {
        let t = zero_counts().update(5, rem as u64);
        let s = seq![t];
        assert(sum_from(t, 6) == 0);
        assert(sum_from(t, 5) == t[5] + sum_from(t, 6));
        assert(spec_suffix_tuple(t, 6, rem));
        assert forall|e: Seq<u64>| #[trigger] spec_suffix_tuple(e, 6, rem) implies s.contains(
            e,
        ) by {
            assert(sum_from(e, 5) == e[5] + sum_from(e, 6));
            assert(e =~= t);
            assert(s[0] == e);
        }
        s
    } else if rem == 0 {
        let t = zero_counts();
        let s = seq![t];
        lemma_zero_counts_sum(face - 1);
        assert(spec_suffix_tuple(t, face, 0));
        assert forall|e: Seq<u64>| #[trigger] spec_suffix_tuple(e, face, 0) implies s.contains(
            e,
        ) by {
            lemma_sum_from_zero_suffix(e, face - 1);
            assert(e =~= t);
            assert(s[0] == e);
        }
        s
    } else {
        let a = gen_tuples(face + 1, rem);
        let b0 = gen_tuples(face, rem - 1);
        let b = b0.map_values(|x: Seq<u64>| x.update(face - 1, (x[face - 1] + 1) as u64));
        let s = a + b;
        assert forall|k: int| 0 <= k < s.len() implies spec_suffix_tuple(
            #[trigger] s[k],
            face,
            rem,
        ) by {
            if k < a.len() {
                let x = a[k];
                assert(spec_suffix_tuple(x, face + 1, rem));
                assert(x[face - 1] == 0);
                assert(sum_from(x, face - 1) == x[face - 1] + sum_from(x, face as int));
            } else {
                let x = b0[k - a.len()];
                assert(spec_suffix_tuple(x, face, rem - 1));
                lemma_sum_from_nonneg(x, face as int);
                assert(x[face - 1] <= rem - 1);
                let y = x.update(face - 1, (x[face - 1] + 1) as u64);
                assert(s[k] == y);
                lemma_sum_from_update_below(x, face - 1, (x[face - 1] + 1) as u64, face as int);
                assert(sum_from(y, face - 1) == y[face - 1] + sum_from(y, face as int));
                assert(sum_from(x, face - 1) == x[face - 1] + sum_from(x, face as int));
            }
        }
        assert forall|e: Seq<u64>| #[trigger] spec_suffix_tuple(e, face, rem) implies s.contains(
            e,
        ) by {
            assert(sum_from(e, face - 1) == e[face - 1] + sum_from(e, face as int));
            lemma_sum_from_nonneg(e, face as int);
            if e[face - 1] == 0 {
                assert(spec_suffix_tuple(e, face + 1, rem));
                assert(a.contains(e));
                let i = choose|i: int| 0 <= i < a.len() && a[i] == e;
                assert(s[i] == e);
            } else {
                let e0 = e.update(face - 1, (e[face - 1] - 1) as u64);
                lemma_sum_from_update_below(e, face - 1, (e[face - 1] - 1) as u64, face as int);
                assert(sum_from(e0, face - 1) == e0[face - 1] + sum_from(e0, face as int));
                assert(spec_suffix_tuple(e0, face, rem - 1));
                assert(b0.contains(e0));
                let i = choose|i: int| 0 <= i < b0.len() && b0[i] == e0;
                assert(b[i] == e0.update(face - 1, (e0[face - 1] + 1) as u64));
                assert(e0.update(face - 1, (e0[face - 1] + 1) as u64) =~= e);
                assert(s[a.len() + i] == e);
            }
        }
        assert forall|i: int, j: int| 0 <= i < j < s.len() implies s[i] != s[j] by {
            if i < a.len() && j < a.len() {
            } else if i >= a.len() && j >= a.len() {
                let xi = b0[i - a.len()];
                let xj = b0[j - a.len()];
                assert(spec_suffix_tuple(xi, face, rem - 1));
                assert(spec_suffix_tuple(xj, face, rem - 1));
                lemma_sum_from_nonneg(xi, face as int);
                lemma_sum_from_nonneg(xj, face as int);
                assert(sum_from(xi, face - 1) == xi[face - 1] + sum_from(xi, face as int));
                assert(sum_from(xj, face - 1) == xj[face - 1] + sum_from(xj, face as int));
                assert(xi[face - 1] <= 5 && xj[face - 1] <= 5);
                if s[i] == s[j] {
                    assert(s[i] == xi.update(face - 1, (xi[face - 1] + 1) as u64));
                    assert(s[j] == xj.update(face - 1, (xj[face - 1] + 1) as u64));
                    assert forall|m: int| 0 <= m < 6 implies xi[m] == xj[m] by {
                        assert(s[i][m] == s[j][m]);
                    }
                    assert(xi =~= xj);
                    assert(false);
                }
            } else {
                let xa = a[i];
                let xj = b0[j - a.len()];
                assert(spec_suffix_tuple(xa, face + 1, rem));
                assert(spec_suffix_tuple(xj, face, rem - 1));
                lemma_sum_from_nonneg(xj, face as int);
                assert(sum_from(xj, face - 1) == xj[face - 1] + sum_from(xj, face as int));
                assert(xj[face - 1] <= 5);
                assert(xa[face - 1] == 0);
                assert(s[j] == xj.update(face - 1, (xj[face - 1] + 1) as u64));
                assert(s[j][face - 1] == xj[face - 1] + 1);
            }
        }
        s
    }
}

/// A duplicate-free list that holds exactly the multisets of `r` dice has
/// the counted length: the size of the multiset space itself.
pub proof fn lemma_canonical_count(vs: Seq<Seq<u64>>, r: int)
    requires
        0 <= r <= 6,
        vs.no_duplicates(),
        forall|k: int|
            0 <= k < vs.len() ==> (#[trigger] vs[k]).len() == 6 && dice_total(vs[k]) == r,
        forall|e: Seq<u64>| e.len() == 6 && #[trigger] dice_total(e) == r ==> vs.contains(e),
    ensures
        vs.len() == spec_tuple_count(1, r),
{
    let gs = gen_tuples(1, r);
    assert forall|e: Seq<u64>| #[trigger] vs.contains(e) implies gs.contains(e) by {
        let i = choose|i: int| 0 <= i < vs.len() && vs[i] == e;
        assert(vs[i].len() == 6 && dice_total(vs[i]) == r);
        lemma_sum_from_total(e);
        assert(spec_suffix_tuple(e, 1, r));
    }
    assert forall|e: Seq<u64>| #[trigger] gs.contains(e) implies vs.contains(e) by {
        let i = choose|i: int| 0 <= i < gs.len() && gs[i] == e;
        assert(spec_suffix_tuple(gs[i], 1, r));
        lemma_sum_from_total(e);
    }
    assert(vs.to_set() =~= gs.to_set());
    vs.unique_seq_to_set();
    gs.unique_seq_to_set();
}


/// The sub-multisets of `d` whose faces from `face` on are empty, each face
/// below `face` ranging over all counts up to its count in `d`.
fn sub_throws_rec(d: &DiceThrow, face: u64) -> (r: Vec<DiceThrow>)
    requires
        face <= 6,
        d.total() <= 6,
    ensures
        forall|k: int|
            0 <= k < r@.len() ==> dice_le((#[trigger] r@[k])@, d@) && (forall|j: int|
                face <= j < 6 ==> (r@[k])@[j] == 0),
        forall|s: Seq<u64>|
            s.len() == 6 && #[trigger] dice_le(s, d@) && (forall|j: int|
                face <= j < 6 ==> #[trigger] s[j] == 0) ==> in_list(r@, s),
    decreases face,
{
    if face == 0 {
        let mut v: Vec<DiceThrow> = Vec::new();
        let e = DiceThrow::empty();
        v.push(e);
        proof {
            assert forall|s: Seq<u64>|
                s.len() == 6 && #[trigger] dice_le(s, d@) && (forall|j: int|
                    0 <= j < 6 ==> #[trigger] s[j] == 0) implies in_list(v@, s) by {
                assert(s =~= e@);
                assert(v@[0]@ == s);
            }
        }
        v
    } else {
        let tails = sub_throws_rec(d, face - 1);
        let mut out: Vec<DiceThrow> = Vec::new();
        let top = d.cnt(face);
        proof {
            lemma_count_le_total(*d, face - 1);
        }
        let mut c: u64 = 0;
        while c <= top
            invariant
                1 <= face <= 6,
                c <= top + 1,
                top == d@[face - 1] <= 6,
                d.total() <= 6,
                forall|k: int|
                    0 <= k < tails@.len() ==> dice_le((#[trigger] tails@[k])@, d@) && (forall|
                        j: int,
                    |
                        face - 1 <= j < 6 ==> (tails@[k])@[j] == 0),
                forall|s: Seq<u64>|
                    s.len() == 6 && #[trigger] dice_le(s, d@) && (forall|j: int|
                        face - 1 <= j < 6 ==> #[trigger] s[j] == 0) ==> in_list(tails@, s),
                forall|k: int|
                    0 <= k < out@.len() ==> dice_le((#[trigger] out@[k])@, d@) && (forall|j: int|
                        face <= j < 6 ==> (out@[k])@[j] == 0),
                forall|s: Seq<u64>|
                    s.len() == 6 && #[trigger] dice_le(s, d@) && (forall|j: int|
                        face <= j < 6 ==> #[trigger] s[j] == 0) && s[face - 1] < c ==> in_list(
                        out@,
                        s,
                    ),
            decreases top + 1 - c,
        {
            let mut m: usize = 0;
            while m < tails.len()
                invariant
                    1 <= face <= 6,
                    c <= top,
                    top == d@[face - 1] <= 6,
                    d.total() <= 6,
                    m <= tails@.len(),
                    forall|k: int|
                        0 <= k < tails@.len() ==> dice_le((#[trigger] tails@[k])@, d@) && (forall|
                            j: int,
                        |
                            face - 1 <= j < 6 ==> (tails@[k])@[j] == 0),
                    forall|k: int|
                        0 <= k < out@.len() ==> dice_le((#[trigger] out@[k])@, d@) && (forall|
                            j: int,
                        |
                            face <= j < 6 ==> (out@[k])@[j] == 0),
                    forall|s: Seq<u64>|
                        s.len() == 6 && #[trigger] dice_le(s, d@) && (forall|j: int|
                            face <= j < 6 ==> #[trigger] s[j] == 0) && s[face - 1] < c ==> in_list(
                            out@,
                            s,
                        ),
                    forall|k: int|
                        0 <= k < m ==> in_list(out@, (#[trigger] tails@[k])@.update(
                            face - 1,
                            c,
                        )),
                decreases tails@.len() - m,
            {
                let mut t = tails[m];
                t.set_cnt(face, c);
                let ghost old_out = out@;
                out.push(t);
                proof {
                    assert(out@[old_out.len() as int]@ == t@);
                    assert forall|s: Seq<u64>|
                        s.len() == 6 && #[trigger] dice_le(s, d@) && (forall|j: int|
                            face <= j < 6 ==> #[trigger] s[j] == 0) && s[face - 1]
                            < c implies in_list(out@, s) by {
                        lemma_in_list_push(old_out, t, s);
                    }
                    assert forall|k: int|
                        0 <= k < m + 1 implies in_list(out@, (#[trigger] tails@[k])@.update(
                            face - 1,
                            c,
                        )) by {
                        if k < m {
                            lemma_in_list_push(old_out, t, tails@[k]@.update(face - 1, c));
                        } else {
                            assert(t@ == tails@[m as int]@.update(face - 1, c));
                        }
                    }
                }
                m = m + 1;
            }
            proof {
                assert forall|s: Seq<u64>|
                    s.len() == 6 && #[trigger] dice_le(s, d@) && (forall|j: int|
                        face <= j < 6 ==> #[trigger] s[j] == 0) && s[face - 1]
                        < c + 1 implies in_list(out@, s) by {
                    if s[face - 1] == c {
                        let s0 = s.update(face - 1, 0u64);
                        assert(dice_le(s0, d@));
                        assert(forall|j: int| face - 1 <= j < 6 ==> #[trigger] s0[j] == 0);
                        assert(in_list(tails@, s0));
                        let k = choose|k: int|
                            0 <= k < tails@.len() && (#[trigger] tails@[k])@ == s0;
                        assert(in_list(out@, tails@[k]@.update(face - 1, c)));
                        assert(tails@[k]@.update(face - 1, c) =~= s);
                    }
                }
            }
            c = c + 1;
        }
        proof {
            assert forall|s: Seq<u64>|
                s.len() == 6 && #[trigger] dice_le(s, d@) && (forall|j: int|
                    face <= j < 6 ==> #[trigger] s[j] == 0) implies in_list(out@, s) by {
                assert(s[face - 1] <= d@[face - 1]);
            }
        }
        out
    }
}

/// Every way of keeping part of the throw `d`: all sub-multisets of `d`,
/// from keeping nothing to keeping everything, in one fixed order.
pub fn sub_throws(d: &DiceThrow) -> (r: Vec<DiceThrow>)
    requires
        d.total() <= 6,
    ensures
        forall|k: int| 0 <= k < r@.len() ==> dice_le((#[trigger] r@[k])@, d@),
        forall|s: Seq<u64>| s.len() == 6 && #[trigger] dice_le(s, d@) ==> in_list(r@, s),
{
    let r = sub_throws_rec(d, 6);
    proof {
        assert forall|s: Seq<u64>| s.len() == 6 && #[trigger] dice_le(s, d@) implies in_list(
            r@,
            s,
        ) by {
            assert(forall|j: int| 6 <= j < 6 ==> #[trigger] s[j] == 0);
        }
    }
    r
}

/// Pointwise smaller dice are fewer dice.
pub proof fn lemma_dice_le_total(a: Seq<u64>, b: Seq<u64>)
    requires
        a.len() == 6,
        b.len() == 6,
        dice_le(a, b),
    ensures
        dice_total(a) <= dice_total(b),
{
}

/// The throw after rerolling: take the kept-away dice `sub` out of `orig`
/// and add the new dice `new`.
pub fn new_throw(orig: &DiceThrow, sub: &DiceThrow, new: &DiceThrow) -> (r: DiceThrow)
    requires
        dice_le(sub@, orig@),
        orig.total() <= 6,
        new.total() <= 6,
    ensures
        forall|j: int| 0 <= j < 6 ==> #[trigger] r@[j] == orig@[j] - sub@[j] + new@[j],
        r.total() == orig.total() - sub.total() + new.total(),
{
    let mut r = DiceThrow::empty();
    let mut f: u64 = 1;
    while f <= 6
        invariant
            1 <= f <= 7,
            dice_le(sub@, orig@),
            orig.total() <= 6,
            new.total() <= 6,
            r@.len() == 6,
            forall|j: int| 0 <= j < f - 1 ==> #[trigger] r@[j] == orig@[j] - sub@[j] + new@[j],
            forall|j: int| f - 1 <= j < 6 ==> #[trigger] r@[j] == 0,
        decreases 7 - f,
    {
        proof {
            lemma_count_le_total(*orig, f - 1);
            lemma_count_le_total(*new, f - 1);
        }
        let c = orig.cnt(f) - sub.cnt(f) + new.cnt(f);
        r.set_cnt(f, c);
        f = f + 1;
    }
    r
}

} // verus!
