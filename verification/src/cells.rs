//! Category subsets and their dense indexing.
//!
//! The open categories of a game state form a boolean vector.  Subsets are
//! grouped by how many categories are open; within a group they are ordered
//! by ascending bitmask value (bit `i` is category `i`), and a subset's index
//! is its rank in that order.  Ranking and unranking are exact inverses.

use vstd::prelude::*;

verus! {

/// The binomial coefficient, by Pascal's rule; zero outside `0 <= k <= n`.
pub open spec fn spec_binom(n: int, k: int) -> int
    decreases n,
{
    if k < 0 || k > n {
        0
    } else if k == 0 {
        1
    } else {
        spec_binom(n - 1, k - 1) + spec_binom(n - 1, k)
    }
}

/// Binomial coefficients are never negative.
pub proof fn lemma_binom_nonneg(n: int, k: int)
    ensures
        spec_binom(n, k) >= 0,
    decreases n,
{
    if !(k < 0 || k > n) && k != 0 {
        lemma_binom_nonneg(n - 1, k - 1);
        lemma_binom_nonneg(n - 1, k);
    }
}

/// Within its domain the binomial coefficient is at least one.
pub proof fn lemma_binom_pos(n: int, k: int)
    requires
        0 <= k <= n,
    ensures
        spec_binom(n, k) >= 1,
    decreases n,
{
    if k != 0 {
        lemma_binom_pos(n - 1, k - 1);
        lemma_binom_nonneg(n - 1, k);
    }
}

/// Relies on `num_integer::binomial`: the binomial coefficient, computed by
/// gcd-reduced multiplication, which for `n <= 34` stays within `u64` and is
/// at most `C(34, 17) = 2333606220`.
#[verifier::external_body]
pub fn binomial(n: u64, k: u64) -> (r: u64)
    requires
        n <= 34,
    ensures
        r == spec_binom(n as int, k as int),
        r < 0x1_0000_0000,
{
    num_integer::binomial(n, k)
}

/// How many categories a subset holds open.
pub open spec fn spec_popcnt(s: Seq<bool>) -> int
    decreases s.len(),
{
    if s.len() == 0 {
        0
    } else {
        spec_popcnt(s.drop_last()) + if s.last() {
            1int
        } else {
            0int
        }
    }
}

/// The count of open categories never exceeds the vector's length.
pub proof fn lemma_popcnt_le_len(s: Seq<bool>)
    ensures
        0 <= spec_popcnt(s) <= s.len(),
    decreases s.len(),
{
    if s.len() > 0 {
        lemma_popcnt_le_len(s.drop_last());
    }
}

/// The rank of a subset within its popcount group, counting groups in
/// ascending bitmask order: when the top category is open, every subset of
/// the same size drawn from the lower categories comes first.
pub open spec fn spec_subset_rank(s: Seq<bool>) -> int
    decreases s.len(),
{
    if s.len() == 0 {
        0
    } else if s.last() {
        spec_binom(s.len() - 1, spec_popcnt(s)) + spec_subset_rank(s.drop_last())
    } else {
        spec_subset_rank(s.drop_last())
    }
}

/// A subset's rank lies below the size of its group.
pub proof fn lemma_rank_bound(s: Seq<bool>)
    ensures
        0 <= spec_subset_rank(s) < spec_binom(s.len() as int, spec_popcnt(s)),
    decreases s.len(),
{
    lemma_popcnt_le_len(s);
    if s.len() == 0 {
    } else {
        let n = s.len() as int;
        let k = spec_popcnt(s);
        lemma_rank_bound(s.drop_last());
        lemma_popcnt_le_len(s.drop_last());
        lemma_binom_nonneg(n - 1, k - 1);
        lemma_binom_nonneg(n - 1, k);
        if s.last() {
            assert(spec_popcnt(s.drop_last()) == k - 1);
            assert(1 <= k <= n);
            assert(spec_binom(n, k) == spec_binom(n - 1, k - 1) + spec_binom(n - 1, k));
        } else {
            assert(spec_popcnt(s.drop_last()) == k);
            if k == 0 {
                assert(spec_binom(n, 0) == 1);
                assert(spec_binom(n - 1, 0) == 1);
            } else {
                assert(spec_binom(n, k) == spec_binom(n - 1, k - 1) + spec_binom(n - 1, k));
            }
        }
    }
}

/// Ranking is injective: two subsets of the same length, the same popcount
/// and the same rank are the same subset.
pub proof fn lemma_rank_injective(s1: Seq<bool>, s2: Seq<bool>)
    requires
        s1.len() == s2.len(),
        spec_popcnt(s1) == spec_popcnt(s2),
        spec_subset_rank(s1) == spec_subset_rank(s2),
    ensures
        s1 =~= s2,
    decreases s1.len(),
{
    if s1.len() > 0 {
        let n = s1.len() as int;
        let k = spec_popcnt(s1);
        lemma_rank_bound(s1.drop_last());
        lemma_rank_bound(s2.drop_last());
        if s1.last() == s2.last() {
            lemma_rank_injective(s1.drop_last(), s2.drop_last());
            assert(s1 =~= s1.drop_last().push(s1.last()));
            assert(s2 =~= s2.drop_last().push(s2.last()));
        } else if s1.last() {
            lemma_binom_nonneg(n - 1, k);
            assert(false);
        } else {
            lemma_binom_nonneg(n - 1, k);
            assert(false);
        }
    }
}

/// Closing an open category lowers the open count by one; closing a closed
/// one changes nothing.
pub proof fn lemma_popcnt_update(s: Seq<bool>, i: int)
    requires
        0 <= i < s.len(),
    ensures
        spec_popcnt(s.update(i, false)) == spec_popcnt(s) - (if s[i] {
            1int
        } else {
            0int
        }),
    decreases s.len(),
{
    let t = s.update(i, false);
    if i == s.len() - 1 {
        assert(t.drop_last() =~= s.drop_last());
    } else {
        lemma_popcnt_update(s.drop_last(), i);
        assert(t.drop_last() =~= s.drop_last().update(i, false));
        assert(t.last() == s.last());
    }
}

/// A vector with no open category has an open count of zero.
pub proof fn lemma_popcnt_all_false(s: Seq<bool>)
    requires
        forall|i: int| 0 <= i < s.len() ==> !(#[trigger] s[i]),
    ensures
        spec_popcnt(s) == 0,
    decreases s.len(),
{
    if s.len() > 0 {
        lemma_popcnt_all_false(s.drop_last());
    }
}

/// An independent copy of the open-category vector.
pub fn copy_cells(cells: &Vec<bool>) -> (r: Vec<bool>)
    ensures
        r@ =~= cells@,
{
    let mut r: Vec<bool> = Vec::new();
    let mut i: usize = 0;
    while i < cells.len()
        invariant
            i <= cells@.len(),
            r@ =~= cells@.take(i as int),
        decreases cells@.len() - i,
    {
        r.push(cells[i]);
        i = i + 1;
    }
    r
}

/// How many of the first `j` categories are open.
pub fn count_open(cells: &Vec<bool>, j: usize) -> (r: usize)
    requires
        j <= cells@.len(),
    ensures
        r == spec_popcnt(cells@.take(j as int)),
{
    let mut i: usize = 0;
    let mut c: usize = 0;
    while i < j
        invariant
            i <= j <= cells@.len(),
            c == spec_popcnt(cells@.take(i as int)),
            c <= i,
        decreases j - i,
    {
        assert(cells@.take(i + 1).drop_last() =~= cells@.take(i as int));
        assert(cells@.take(i + 1).last() == cells@[i as int]);
        if cells[i] {
            c = c + 1;
        }
        i = i + 1;
    }
    c
}

/// The rank of the subset formed by the first `j` entries of `cells`.
fn rank_prefix(cells: &Vec<bool>, j: usize) -> (r: u64)
    requires
        j <= cells@.len() <= 34,
    ensures
        r == spec_subset_rank(cells@.take(j as int)),
        r <= 0x1_0000_0000 * (j as int),
    decreases j,
{
    if j == 0 {
        assert(cells@.take(0) =~= Seq::<bool>::empty());
        0
    } else {
        let rest = rank_prefix(cells, j - 1);
        assert(cells@.take(j as int).drop_last() =~= cells@.take(j - 1));
        assert(cells@.take(j as int).last() == cells@[j - 1]);
        if cells[j - 1] {
            let k = count_open(cells, j);
            let b = binomial((j - 1) as u64, k as u64);
            rest + b
        } else {
            rest
        }
    }
}

/// The rank of the subset `cells` within its popcount group, groups ordered
/// by ascending bitmask value.
pub fn subset_rank(cells: &Vec<bool>) -> (r: u64)
    requires
        cells@.len() <= 34,
    ensures
        r == spec_subset_rank(cells@),
        r < spec_binom(cells@.len() as int, spec_popcnt(cells@)),
{
    let n = cells.len();
    let r = rank_prefix(cells, n);
    proof {
        assert(cells@.take(n as int) =~= cells@);
        lemma_rank_bound(cells@);
    }
    r
}

/// The subset of `c` categories with `k` open whose rank is `rank`: the
/// inverse of `subset_rank` on every valid rank.
pub fn subset_from_rank(c: usize, k: usize, rank: u64) -> (r: Vec<bool>)
    requires
        k <= c <= 34,
        rank < spec_binom(c as int, k as int),
    ensures
        r@.len() == c,
        spec_popcnt(r@) == k,
        spec_subset_rank(r@) == rank,
    decreases c,
{
    if c == 0 {
        let v: Vec<bool> = Vec::new();
        assert(v@ =~= Seq::<bool>::empty());
        v
    } else {
        let b = binomial((c - 1) as u64, k as u64);
        if rank >= b {
            proof {
                if k == 0 {
                    assert(spec_binom(c as int, 0) == 1);
                    assert(spec_binom(c - 1, 0) == 1);
                    assert(false);
                }
                assert(spec_binom(c as int, k as int) == spec_binom(c - 1, k - 1) + spec_binom(
                    c - 1,
                    k as int,
                ));
            }
            let mut v = subset_from_rank(c - 1, k - 1, rank - b);
            let ghost pre = v@;
            v.push(true);
            proof {
                assert(v@.drop_last() =~= pre);
            }
            v
        } else {
            proof {
                if k > c - 1 {
                    assert(spec_binom(c - 1, k as int) == 0);
                    assert(false);
                }
            }
            let mut v = subset_from_rank(c - 1, k, rank);
            let ghost pre = v@;
            v.push(false);
            proof {
                assert(v@.drop_last() =~= pre);
            }
            v
        }
    }
}

/// Size of the popcount group: how many subsets of `amt_free` open
/// categories the `n`-dice variant has.
pub fn amt_cell_ind(n: u64, amt_free: usize) -> (r: usize)
    requires
        n == 5 || n == 6,
        amt_free <= 20,
    ensures
        r == spec_binom(if n == 5 {
            15int
        } else {
            20int
        }, amt_free as int),
{
    let cells: u64 = if n == 5 {
        15
    } else {
        20
    };
    let b = binomial(cells, amt_free as u64);
    proof {
        lemma_binom_le_pow2(cells as int, amt_free as int);
        assert(spec_pow2(20) == 0x100000) by {
            reveal_with_fuel(spec_pow2, 21);
        }
        if cells == 15 {
            lemma_pow2_mono(15, 20);
        }
    }
    b as usize
}

/// Two to the power `n`; one for non-positive `n`.
pub open spec fn spec_pow2(n: int) -> int
    decreases n,
{
    if n <= 0 {
        1
    } else {
        2 * spec_pow2(n - 1)
    }
}

/// Powers of two are positive.
pub proof fn lemma_pow2_pos(n: int)
    ensures
        spec_pow2(n) >= 1,
    decreases n,
{
    if n > 0 {
        lemma_pow2_pos(n - 1);
    }
}

/// Powers of two grow with the exponent.
pub proof fn lemma_pow2_mono(a: int, b: int)
    requires
        a <= b,
    ensures
        spec_pow2(a) <= spec_pow2(b),
    decreases b - a,
{
    if a < b {
        lemma_pow2_mono(a, b - 1);
        lemma_pow2_pos(b - 1);
    }
}

/// Every binomial coefficient is bounded by the matching power of two.
pub proof fn lemma_binom_le_pow2(n: int, k: int)
    ensures
        spec_binom(n, k) <= spec_pow2(n),
    decreases n,
{
    lemma_pow2_pos(n);
    if !(k < 0 || k > n) && k != 0 {
        lemma_binom_le_pow2(n - 1, k - 1);
        lemma_binom_le_pow2(n - 1, k);
    }
}

} // verus!
