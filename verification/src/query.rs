//! Serialisation of unit tables and the query facade's index arithmetic.
//!
//! A unit's score table is stored as little-endian 32-bit records — scores
//! are fixed-point integers, points times `SCORE_SCALE`, not floats — and
//! its decision table as bit-packed records whose reroll masks mark the
//! kept dice.  A live game state is mapped to its within-file record index
//! here; seeking and reading the few bytes of one record is left to the
//! caller, who hands the bytes back for decoding.

use vstd::prelude::*;

use crate::bitstore::{BitWriter, bytes_bits, records_bits};
use crate::cells::{spec_popcnt, spec_subset_rank, subset_rank};
use crate::dice::{DiceThrow, lemma_count_le_total};
use crate::enumerate::dice_le;
use crate::offsets::{clip_bucket, get_index, spec_file_offset};
use crate::space::{IndexSpace, multiset_count, multiset_count_exec};

verus! {

broadcast use crate::dice::lemma_dice_len;

/// The four little-endian bytes of one stored score.
pub open spec fn spec_le_bytes(x: u32) -> Seq<u8> {
    seq![
        (x as int % 256) as u8,
        (x as int / 256 % 256) as u8,
        (x as int / 65536 % 256) as u8,
        (x as int / 16777216) as u8,
    ]
}

/// Serialise a score table: each record as four little-endian bytes, in
/// flat offset order.
pub fn scores_to_bytes(scores: &Vec<u32>) -> (r: Vec<u8>)
    requires
        scores@.len() <= 0x800_0000,
    ensures
        r@.len() == 4 * scores@.len(),
        forall|i: int|
            0 <= i < scores@.len() ==> r@.subrange(4 * i, 4 * i + 4) =~= spec_le_bytes(
                #[trigger] scores@[i],
            ),
{
    let mut r: Vec<u8> = Vec::new();
    let mut i: usize = 0;
    while i < scores.len()
        invariant
            i <= scores@.len() <= 0x800_0000,
            r@.len() == 4 * i,
            forall|j: int|
                0 <= j < i ==> r@.subrange(4 * j, 4 * j + 4) =~= spec_le_bytes(
                    #[trigger] scores@[j],
                ),
        decreases scores@.len() - i,
    {
        let ghost r0 = r@;
        let x = scores[i];
        r.push((x % 256) as u8);
        r.push((x / 256 % 256) as u8);
        r.push((x / 65536 % 256) as u8);
        r.push((x / 16777216) as u8);
        proof {
            assert(r@.subrange(4 * i as int, 4 * i + 4) =~= spec_le_bytes(x));
            assert forall|j: int| 0 <= j < i implies r@.subrange(4 * j, 4 * j + 4)
                =~= spec_le_bytes(#[trigger] scores@[j]) by {
                assert(r@.subrange(4 * j, 4 * j + 4) =~= r0.subrange(4 * j, 4 * j + 4));
            }
        }
        i = i + 1;
    }
    r
}

/// Read back the score record at index `i` from its little-endian bytes.
pub fn score_from_bytes(bytes: &[u8], i: usize) -> (r: u32)
    requires
        4 * i + 4 <= bytes@.len(),
        bytes@.len() <= 0x2000_0000,
    ensures
        bytes@.subrange(4 * i, 4 * i + 4) == spec_le_bytes(r),
{
    let b0 = bytes[4 * i] as u32;
    let b1 = bytes[4 * i + 1] as u32;
    let b2 = bytes[4 * i + 2] as u32;
    let b3 = bytes[4 * i + 3] as u32;
    let r = b0 + 256 * b1 + 65536 * b2 + 16777216 * b3;
    proof {
        assert(r as int % 256 == b0 && r as int / 256 % 256 == b1 && r as int / 65536 % 256 == b2
            && r as int / 16777216 == b3);
        assert(bytes@.subrange(4 * i as int, 4 * i + 4) =~= spec_le_bytes(r));
    }
    r
}

/// Serialising the same scores twice gives identical bytes.
pub proof fn lemma_scores_bytes_deterministic(s1: Seq<u8>, s2: Seq<u8>, scores: Seq<u32>)
    requires
        s1.len() == 4 * scores.len(),
        s2.len() == 4 * scores.len(),
        forall|i: int|
            0 <= i < scores.len() ==> s1.subrange(4 * i, 4 * i + 4) == spec_le_bytes(
                #[trigger] scores[i],
            ),
        forall|i: int|
            0 <= i < scores.len() ==> s2.subrange(4 * i, 4 * i + 4) == spec_le_bytes(
                #[trigger] scores[i],
            ),
    ensures
        s1 == s2,
{
    assert forall|b: int| 0 <= b < s1.len() implies s1[b] == s2[b] by {
        let i = b / 4;
        vstd::arithmetic::div_mod::lemma_fundamental_div_mod(b, 4);
        assert(s1.subrange(4 * i, 4 * i + 4)[b - 4 * i] == s1[b]);
        assert(s2.subrange(4 * i, 4 * i + 4)[b - 4 * i] == s2[b]);
        assert(s1.subrange(4 * i, 4 * i + 4) == spec_le_bytes(scores[i]));
        assert(s2.subrange(4 * i, 4 * i + 4) == spec_le_bytes(scores[i]));
    }
    assert(s1 =~= s2);
}

/// Pack fixed-width decision records into bytes: records in order, bits
/// least-significant first, the last byte padded with zero bits.
pub fn pack_records(rs: &Vec<u64>, w: usize) -> (r: Vec<u8>)
    requires
        1 <= w <= 56,
        rs@.len() * w < 0x1000_0000_0000,
    ensures
        bytes_bits(r@).take((rs@.len() * w) as int) =~= records_bits(rs@, w as int),
        8 * r@.len() < rs@.len() * w + 8,
        rs@.len() * w <= 8 * r@.len(),
        forall|i: int|
            rs@.len() * w <= i < 8 * r@.len() ==> !(#[trigger] bytes_bits(r@)[i]),
{
    let mut writer = BitWriter::new();
    let mut i: usize = 0;
    proof {
        crate::bitstore::lemma_records_bits_len(rs@, w as int);
    }
    while i < rs.len()
        invariant
            1 <= w <= 56,
            rs@.len() * w < 0x1000_0000_0000,
            i <= rs@.len(),
            writer.wf(),
            writer@ =~= records_bits(rs@.take(i as int), w as int),
            writer@.len() == i * w,
        decreases rs@.len() - i,
    {
        proof {
            crate::bitstore::lemma_records_bits_len(rs@.take(i as int), w as int);
            assert((i as int) * w <= rs@.len() * w && (i + 1) * w <= rs@.len() * w && (i + 1) * w
                == i * w + w) by (nonlinear_arith)
                requires
                    i < rs@.len() && w >= 1,
            ;
        }
        writer.push_record(rs[i], w);
        proof {
            assert(rs@.take(i + 1).drop_last() =~= rs@.take(i as int));
            assert(rs@.take(i + 1).last() == rs@[i as int]);
            crate::bitstore::lemma_records_bits_len(rs@.take(i + 1), w as int);
        }
        i = i + 1;
    }
    proof {
        assert(rs@.take(rs@.len() as int) =~= rs@);
    }
    let r = writer.finish();
    r
}

/// Store round trip, end to end: in a packed decision file, the bits of
/// record `i` read back as record `i`, for every record that fits its
/// width — also when the record's bits straddle a byte boundary.
pub proof fn lemma_packed_file_reads_back(rs: Seq<u64>, w: int, bytes: Seq<u8>, i: int)
    requires
        1 <= w,
        0 <= i < rs.len(),
        forall|j: int| 0 <= j < rs.len() ==> (#[trigger] rs[j]) < crate::cells::spec_pow2(w),
        rs.len() * w <= 8 * bytes.len(),
        bytes_bits(bytes).take((rs.len() * w) as int) == records_bits(rs, w),
    ensures
        crate::bitstore::bits_to_num(bytes_bits(bytes).subrange(i * w, (i + 1) * w)) == rs[i],
{
    crate::bitstore::lemma_store_round_trip(rs, w, i);
    crate::bitstore::lemma_records_bits_len(rs, w);
    crate::bitstore::lemma_bytes_bits_len(bytes);
    assert((i + 1) * w <= rs.len() * w && 0 <= i * w && (i + 1) * w == i * w + w)
        by (nonlinear_arith)
        requires
            0 <= i < rs.len() && w >= 1,
    ;
    let all = bytes_bits(bytes);
    let prefix = all.take((rs.len() * w) as int);
    assert(all.subrange(i * w, (i + 1) * w) =~= prefix.subrange(i * w, (i + 1) * w));
    assert(prefix.subrange(i * w, (i + 1) * w) == records_bits(rs, w).subrange(i * w, (i + 1) * w));
}

/// How many dice a block of mask bits marks.
pub open spec fn spec_count_true(s: Seq<bool>) -> int
    decreases s.len(),
{
    if s.len() == 0 {
        0
    } else {
        spec_count_true(s.drop_last()) + if s.last() {
            1int
        } else {
            0int
        }
    }
}

/// Decode a reroll mask: the dice of `orig` are laid out in face order,
/// one bit each; the marked dice form the kept multiset, whose complement
/// in the throw is rerolled.
pub fn get_dice_from_bits(orig: &DiceThrow, bits: &Vec<bool>) -> (r: DiceThrow)
    requires
        orig.total() <= 6,
        bits@.len() == orig.total(),
    ensures
        forall|f: int|
            0 <= f < 6 ==> #[trigger] r@[f] == spec_count_true(
                bits@.subrange(
                    crate::enumerate::sum_from(orig@, 0) - crate::enumerate::sum_from(orig@, f),
                    crate::enumerate::sum_from(orig@, 0) - crate::enumerate::sum_from(
                        orig@,
                        f + 1,
                    ),
                ),
            ),
{
    proof {
        crate::enumerate::lemma_sum_from_total(orig@);
    }
    let mut r = DiceThrow::empty();
    let mut f: u64 = 1;
    let mut ind: u64 = 0;
    while f <= 6
        invariant
            1 <= f <= 7,
            orig.total() <= 6,
            bits@.len() == orig.total(),
            r@.len() == 6,
            ind == crate::enumerate::sum_from(orig@, 0) - crate::enumerate::sum_from(
                orig@,
                f - 1,
            ),
            0 <= ind <= bits@.len(),
            forall|g: int|
                0 <= g < f - 1 ==> #[trigger] r@[g] == spec_count_true(
                    bits@.subrange(
                        crate::enumerate::sum_from(orig@, 0) - crate::enumerate::sum_from(
                            orig@,
                            g,
                        ),
                        crate::enumerate::sum_from(orig@, 0) - crate::enumerate::sum_from(
                            orig@,
                            g + 1,
                        ),
                    ),
                ),
            forall|g: int| f - 1 <= g < 6 ==> #[trigger] r@[g] == 0,
        decreases 7 - f,
    {
        proof {
            lemma_count_le_total(*orig, f - 1);
            crate::enumerate::lemma_sum_from_total(orig@);
            crate::enumerate::lemma_sum_from_nonneg(orig@, f as int);
            assert(crate::enumerate::sum_from(orig@, f - 1) == orig@[f - 1]
                + crate::enumerate::sum_from(orig@, f as int));
        }
        let cnt = orig.cnt(f);
        let ghost start = ind as int;
        let mut j: u64 = 0;
        let mut c: u64 = 0;
        proof {
            assert(bits@.subrange(start, start) =~= Seq::<bool>::empty());
        }
        while j < cnt
            invariant
                j <= cnt,
                c <= j,
                ind == start + j,
                0 <= start,
                start + cnt <= bits@.len(),
                bits@.len() <= 6,
                c == spec_count_true(bits@.subrange(start, start + j)),
            decreases cnt - j,
        {
            proof {
                assert(bits@.subrange(start, start + j + 1).drop_last() =~= bits@.subrange(
                    start,
                    start + j,
                ));
                assert(bits@.subrange(start, start + j + 1).last() == bits@[start + j]);
            }
            if bits[ind as usize] {
                c = c + 1;
            }
            ind = ind + 1;
            j = j + 1;
        }
        r.set_cnt(f, c);
        f = f + 1;
    }
    r
}

/// Decoding the encoded mask of a rethrow returns the kept dice, face by
/// face: the reroll mask round trip.
pub proof fn lemma_mask_decode(orig: Seq<u64>, rt: Seq<u64>, f: int)
    requires
        orig.len() == 6,
        rt.len() == 6,
        dice_le(rt, orig),
        0 <= f < 6,
    ensures
        spec_count_true(
            crate::unit::spec_mask_bits(orig, rt, 0).subrange(
                crate::enumerate::sum_from(orig, 0) - crate::enumerate::sum_from(orig, f),
                crate::enumerate::sum_from(orig, 0) - crate::enumerate::sum_from(orig, f + 1),
            ),
        ) == orig[f] - rt[f],
{
    lemma_mask_decode_rec(orig, rt, 0, f);
}

/// The block of face `f` within the mask from face `g` on counts the kept
/// dice of face `f`.
proof fn lemma_mask_decode_rec(orig: Seq<u64>, rt: Seq<u64>, g: int, f: int)
    requires
        orig.len() == 6,
        rt.len() == 6,
        dice_le(rt, orig),
        0 <= g <= f < 6,
    ensures
        spec_count_true(
            crate::unit::spec_mask_bits(orig, rt, g).subrange(
                crate::enumerate::sum_from(orig, g) - crate::enumerate::sum_from(orig, f),
                crate::enumerate::sum_from(orig, g) - crate::enumerate::sum_from(orig, f + 1),
            ),
        ) == orig[f] - rt[f],
    decreases f - g,
{
    let mask = crate::unit::spec_mask_bits(orig, rt, g);
    let block = Seq::new(orig[g] as nat, |j: int| j >= rt[g]);
    let rest = crate::unit::spec_mask_bits(orig, rt, g + 1);
    crate::unit::lemma_mask_bits_len(orig, rt, g);
    crate::unit::lemma_mask_bits_len(orig, rt, g + 1);
    crate::enumerate::lemma_sum_from_nonneg(orig, g + 1);
    crate::enumerate::lemma_sum_from_nonneg(orig, f + 1);
    lemma_sum_from_mono(orig, f + 1, f);
    lemma_sum_from_mono(orig, f, g);
    if g == f {
        assert(mask.subrange(0, orig[g] as int) =~= block);
        lemma_count_suffix_true(orig[g] as int, rt[g] as int);
    } else {
        lemma_mask_decode_rec(orig, rt, g + 1, f);
        lemma_sum_from_mono(orig, f, g + 1);
        let a = crate::enumerate::sum_from(orig, g) - crate::enumerate::sum_from(orig, f);
        let b = crate::enumerate::sum_from(orig, g) - crate::enumerate::sum_from(orig, f + 1);
        let a2 = crate::enumerate::sum_from(orig, g + 1) - crate::enumerate::sum_from(orig, f);
        let b2 = crate::enumerate::sum_from(orig, g + 1) - crate::enumerate::sum_from(
            orig,
            f + 1,
        );
        assert(mask.subrange(a, b) =~= rest.subrange(a2, b2));
    }
}

/// Later suffix sums are smaller.
proof fn lemma_sum_from_mono(d: Seq<u64>, a: int, b: int)
    requires
        d.len() == 6,
        0 <= b <= a,
    ensures
        crate::enumerate::sum_from(d, a) <= crate::enumerate::sum_from(d, b),
    decreases a - b,
{
    if b < a {
        lemma_sum_from_mono(d, a, b + 1);
        crate::enumerate::lemma_sum_from_nonneg(d, b);
        crate::enumerate::lemma_sum_from_nonneg(d, b + 1);
        if b < 6 {
            assert(crate::enumerate::sum_from(d, b) == d[b] + crate::enumerate::sum_from(
                d,
                b + 1,
            ));
        }
    }
}

/// A block of length `n` whose last `n - t` positions are marked counts
/// `n - t`.
proof fn lemma_count_suffix_true(n: int, t: int)
    requires
        0 <= t <= n,
    ensures
        spec_count_true(Seq::new(n as nat, |j: int| j >= t)) == n - t,
    decreases n,
{
    let s = Seq::new(n as nat, |j: int| j >= t);
    if n > 0 {
        if t == n {
            lemma_count_suffix_true(n - 1, t - 1);
            assert(s.drop_last() =~= Seq::new((n - 1) as nat, |j: int| j >= t - 1));
            assert(spec_count_true(Seq::new((n - 1) as nat, |j: int| j >= t - 1)) == 0);
        } else {
            lemma_count_suffix_true(n - 1, t);
            assert(s.drop_last() =~= Seq::new((n - 1) as nat, |j: int| j >= t));
        }
    }
}

/// Map a live game state to its stage coordinates and within-file record
/// index: the open-category count selects the stage, the clipped bonus
/// points select the unit file, and the record index is the flat offset of
/// `(dice, subset rank)`.  The dice must be a full throw of the variant.
pub fn query_index(
    v: crate::Variant,
    space: &IndexSpace,
    cells: &Vec<bool>,
    dice: &DiceThrow,
    points_above: u64,
) -> (r: Option<(usize, u64, u64)>)
    requires
        space.wf(),
        space.n == v.spec_num_dice(),
        cells@.len() == v.spec_num_cells(),
    ensures
        match r {
            Some(t) => {
                &&& dice.total() == space.n
                &&& t.0 == spec_popcnt(cells@)
                &&& t.1 == if points_above < v.spec_num_buckets() {
                    points_above as int
                } else {
                    v.spec_num_buckets() - 1
                }
                &&& t.2 == spec_file_offset(
                    crate::engine::spec_dice_index(space.rolls@[space.n as int]@, dice@),
                    spec_subset_rank(cells@),
                    multiset_count(space.n as int),
                )
            },
            None => dice.total() != space.n,
        },
{
    let dice_ind = match space.dice_index(space.n, dice) {
        Some(i) => i,
        None => {
            return None;
        },
    };
    proof {
        crate::engine::lemma_spec_dice_index(
            space.rolls@[space.n as int]@,
            space.n as int,
            dice_ind as int,
            dice@,
        );
        crate::cells::lemma_rank_bound(cells@);
        crate::cells::lemma_binom_le_pow2(cells@.len() as int, spec_popcnt(cells@));
        crate::cells::lemma_pow2_mono(cells@.len() as int, 20);
        assert(crate::cells::spec_pow2(20) == 0x100000) by {
            reveal_with_fuel(crate::cells::spec_pow2, 21);
        }
    }
    let k = crate::cells::count_open(cells, cells.len());
    proof {
        assert(cells@.take(cells@.len() as int) =~= cells@);
    }
    let rank = subset_rank(cells);
    let bucket = clip_bucket(points_above, v.num_buckets());
    let dd = multiset_count_exec(space.n) as u64;
    let index = get_index(dice_ind as u64, rank, dd);
    Some((k, bucket, index))
}

} // verus!
