//! The index space: immutable lookup structures built once at startup and
//! shared read-only by every worker.
//!
//! For each reroll size it holds the canonical list of dice multisets; a
//! multiset's dense index is its position in its list.  The lists are
//! proved duplicate-free, of the counted size and complete, so building
//! the space cannot fail and an index lookup succeeds for every multiset
//! in the domain.

use vstd::prelude::*;

use crate::dice::{DiceThrow, dice_total};
use crate::enumerate::{
    all_multisets, find_throw, in_list, lemma_canonical_count, lemma_tuple_count_values,
    spec_encode,
};

verus! {

broadcast use crate::dice::lemma_dice_len;

/// How many multisets of `r` dice over six faces exist.
pub open spec fn multiset_count(r: int) -> int {
    if r <= 0 {
        1
    } else if r == 1 {
        6
    } else if r == 2 {
        21
    } else if r == 3 {
        56
    } else if r == 4 {
        126
    } else if r == 5 {
        252
    } else {
        462
    }
}

/// How many multisets of `r` dice over six faces exist.
pub fn multiset_count_exec(r: u64) -> (c: usize)
    requires
        r <= 6,
    ensures
        c == multiset_count(r as int),
{
    if r == 0 {
        1
    } else if r == 1 {
        6
    } else if r == 2 {
        21
    } else if r == 3 {
        56
    } else if r == 4 {
        126
    } else if r == 5 {
        252
    } else {
        462
    }
}

/// A well-formed multiset list for size `r`: the right number of entries,
/// every entry of size `r`, entries strictly ordered by their encoding (so
/// no duplicates), and every multiset of size `r` present.
pub open spec fn rolls_wf(l: Seq<DiceThrow>, r: int) -> bool {
    &&& l.len() == multiset_count(r)
    &&& forall|i: int| 0 <= i < l.len() ==> (#[trigger] l[i]).total() == r
    &&& forall|i: int, j: int|
        0 <= i < j < l.len() ==> spec_encode(#[trigger] l[i]@) < spec_encode(#[trigger] l[j]@)
    &&& forall|d: Seq<u64>| d.len() == 6 && #[trigger] dice_total(d) == r ==> in_list(l, d)
}

/// The immutable index space of one dice variant: for every reroll size
/// `r` up to the full dice count, the canonical list of multisets of `r`
/// dice.
pub struct IndexSpace {
    /// The number of dice of a full throw.
    pub n: u64,
    /// `rolls[r]` lists every multiset of `r` dice, in canonical order.
    pub rolls: Vec<Vec<DiceThrow>>,
}

impl IndexSpace {
    /// The construction invariant: every list is complete, duplicate-free
    /// and of the expected size.
    pub open spec fn wf(&self) -> bool {
        &&& self.n <= 6
        &&& self.rolls@.len() == self.n + 1
        &&& forall|r: int| 0 <= r <= self.n ==> rolls_wf((#[trigger] self.rolls@[r])@, r)
    }

    /// Build the index space for throws of `n` dice.  The generated lists
    /// are proved complete, duplicate-free and of the counted size, so the
    /// construction cannot fail.
    pub fn build(n: u64) -> (s: IndexSpace)
        requires
            n <= 6,
        ensures
            s.wf(),
            s.n == n,
    {
        let mut rolls: Vec<Vec<DiceThrow>> = Vec::new();
        let mut r: u64 = 0;
        while r <= n
            invariant
                r <= n + 1,
                n <= 6,
                rolls@.len() == r,
                forall|q: int| 0 <= q < r ==> rolls_wf((#[trigger] rolls@[q])@, q),
            decreases n + 1 - r,
        {
            let list = all_multisets(r);
            proof {
                lemma_list_counted(list@, r as int);
            }
            rolls.push(list);
            r = r + 1;
        }
        IndexSpace { n, rolls }
    }

    /// The canonical list of multisets of `r` dice.
    pub fn throws(&self, r: u64) -> (l: &Vec<DiceThrow>)
        requires
            self.wf(),
            r <= self.n,
        ensures
            rolls_wf(l@, r as int),
    {
        &self.rolls[r as usize]
    }

    /// The dense index of the multiset `d` among the multisets of `r`
    /// dice.  The lookup succeeds for every multiset of the right size;
    /// a size mismatch is reported as `None`.
    pub fn dice_index(&self, r: u64, d: &DiceThrow) -> (res: Option<usize>)
        requires
            self.wf(),
            r <= self.n,
        ensures
            match res {
                Some(i) => i < multiset_count(r as int) && self.rolls@[r as int]@[i as int]@
                    == d@,
                None => d.total() != r,
            },
    {
        let list = &self.rolls[r as usize];
        let res = find_throw(list, d);
        proof {
            if d.total() == r {
                assert(in_list(list@, d@));
            }
        }
        res
    }
}

/// A complete, strictly encode-ordered list of the multisets of `r` dice
/// has exactly the counted length.
proof fn lemma_list_counted(l: Seq<DiceThrow>, r: int)
    requires
        0 <= r <= 6,
        forall|i: int| 0 <= i < l.len() ==> (#[trigger] l[i]).total() == r,
        forall|i: int, j: int|
            0 <= i < j < l.len() ==> spec_encode(#[trigger] l[i]@) < spec_encode(
                #[trigger] l[j]@,
            ),
        forall|e: Seq<u64>| e.len() == 6 && #[trigger] dice_total(e) == r ==> in_list(l, e),
    ensures
        l.len() == multiset_count(r),
{
    let vs = l.map_values(|t: DiceThrow| t@);
    assert forall|k: int| 0 <= k < vs.len() implies (#[trigger] vs[k]).len() == 6 && dice_total(
        vs[k],
    ) == r by {
        assert(vs[k] == l[k]@);
    }
    assert(vs.no_duplicates()) by {
        assert forall|i: int, j: int| 0 <= i < j < vs.len() implies vs[i] != vs[j] by {
            assert(spec_encode(l[i]@) < spec_encode(l[j]@));
        }
    }
    assert forall|e: Seq<u64>| e.len() == 6 && #[trigger] dice_total(e) == r implies vs.contains(
        e,
    ) by {
        assert(in_list(l, e));
        let i = choose|i: int| 0 <= i < l.len() && (#[trigger] l[i])@ == e;
        assert(vs[i] == e);
    }
    lemma_canonical_count(vs, r);
    lemma_tuple_count_values();
    assert(r == 0 || r == 1 || r == 2 || r == 3 || r == 4 || r == 5 || r == 6);
}

/// Positions in a well-formed multiset list are unique: the same multiset
/// cannot sit at two indices.
pub proof fn lemma_dice_index_unique(l: Seq<DiceThrow>, r: int, i: int, j: int)
    requires
        rolls_wf(l, r),
        0 <= i < l.len(),
        0 <= j < l.len(),
        l[i]@ == l[j]@,
    ensures
        i == j,
{
    if i < j {
        assert(spec_encode(l[i]@) < spec_encode(l[j]@));
    } else if j < i {
        assert(spec_encode(l[j]@) < spec_encode(l[i]@));
    }
}

} // verus!
