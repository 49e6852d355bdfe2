//! The dice multiset: how many dice show each of the six faces.

use vstd::prelude::*;

verus! {

/// A throw of dice, kept as a multiset: `dice[f - 1]` is the number of dice
/// showing face `f`.  The order in which the dice were physically rolled is
/// never represented.
#[derive(Clone, Copy, Debug, PartialEq, Eq, Hash)]
pub struct DiceThrow {
    dice: [u64; 6],
}

/// Sum of the six face counts: the number of dice in the throw.
pub open spec fn dice_total(d: Seq<u64>) -> int {
    d[0] + d[1] + d[2] + d[3] + d[4] + d[5]
}

/// A throw's view always has one count per face.
pub broadcast proof fn lemma_dice_len(t: DiceThrow)
    ensures
        (#[trigger] t@).len() == 6,
{
}

/// No face count exceeds the number of dice in the throw.
pub proof fn lemma_count_le_total(t: DiceThrow, i: int)
    requires
        0 <= i < 6,
    ensures
        t@[i] <= dice_total(t@),
        t@.len() == 6,
{
    if i == 0 {
    } else if i == 1 {
    } else if i == 2 {
    } else if i == 3 {
    } else if i == 4 {
    }
}

impl View for DiceThrow {
    type V = Seq<u64>;

    closed spec fn view(&self) -> Seq<u64> {
        self.dice@
    }
}

impl DiceThrow {
    /// Number of dice in the throw, as a spec value.
    pub open spec fn total(self) -> int {
        dice_total(self@)
    }

    /// The throw with the given face counts, `counts[f - 1]` dice on face `f`.
    pub fn from_counts(counts: [u64; 6]) -> (r: DiceThrow)
        ensures
            r@ == counts@,
    {
        DiceThrow { dice: counts }
    }

    /// The empty throw: no dice at all.
    pub fn empty() -> (r: DiceThrow)
        ensures
            r@ =~= seq![0u64, 0u64, 0u64, 0u64, 0u64, 0u64],
            r.total() == 0,
    {
        let t = DiceThrow { dice: [0, 0, 0, 0, 0, 0] };
        assert(t@ =~= seq![0u64, 0u64, 0u64, 0u64, 0u64, 0u64]);
        t
    }

    /// How many dice show face `face`.
    pub fn cnt(&self, face: u64) -> (r: u64)
        requires
            1 <= face <= 6,
        ensures
            r == self@[face - 1],
    {
        self.dice[(face - 1) as usize]
    }

    /// Replace the count of dice showing face `face`.
    pub fn set_cnt(&mut self, face: u64, v: u64)
        requires
            1 <= face <= 6,
        ensures
            final(self)@ == old(self)@.update(face - 1, v),
    {
        self.dice[(face - 1) as usize] = v;
    }

    /// The number of dice in the throw.
    pub fn amt_dice(&self) -> (r: u64)
        requires
            self.total() <= u64::MAX,
        ensures
            r == self.total(),
    {
        let d = &self.dice;
        d[0] + d[1] + d[2] + d[3] + d[4] + d[5]
    }

    /// Whether the two throws hold the same dice.
    pub fn same(&self, other: &DiceThrow) -> (r: bool)
        ensures
            r <==> self@ =~= other@,
    {
        let a = &self.dice;
        let b = &other.dice;
        let eq = a[0] == b[0] && a[1] == b[1] && a[2] == b[2] && a[3] == b[3] && a[4] == b[4]
            && a[5] == b[5];
        eq
    }

    /// Roll `n` dice uniformly at random.  Only the multiset of faces that
    /// came up is observable in the result.
    pub fn roll(n: usize) -> (r: DiceThrow)
        ensures
            r.total() == n,
    {
        let mut t = DiceThrow::empty();
        let mut i: usize = 0;
        while i < n
            invariant
                i <= n,
                t@.len() == 6,
                t.total() == i,
            decreases n - i,
        {
            let face = random_face();
            let c = t.cnt(face);
            assert(c <= t.total());
            t.set_cnt(face, c + 1);
            i = i + 1;
        }
        t
    }
}

/// Relies on `rand::Rng::gen_range` over the inclusive range of faces:
/// it returns a uniform sample from that range and panics only when the
/// range is empty, which `1..=6` is not.
#[verifier::external_body]
fn random_face() -> (r: u64)
    ensures
        1 <= r <= 6,
{
    rand::Rng::gen_range(&mut rand::thread_rng(), 1..=6)
}

} // verus!
