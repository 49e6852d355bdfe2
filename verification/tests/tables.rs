use yatzy_tables::Variant;
use yatzy_tables::dice::DiceThrow;
use yatzy_tables::engine::{DepWindow, SCORE_SCALE, best_cell, best_reroll, rethrow_value};
use yatzy_tables::enumerate::{all_multisets, fact, new_throw, sub_throws, ways};
use yatzy_tables::query::{get_dice_from_bits, pack_records, scores_to_bytes};
use yatzy_tables::space::IndexSpace;
use yatzy_tables::unit::{compute_base_unit, compute_reroll_unit, compute_cell_unit, rethrow_bits};

fn counts_of(t: &DiceThrow) -> [u64; 6] {
    let mut c = [0u64; 6];
    for f in 1..=6u64 {
        c[(f - 1) as usize] = t.cnt(f);
    }
    c
}

#[test]
fn enumeration_counts() {
    assert_eq!(all_multisets(0).len(), 1);
    assert_eq!(all_multisets(1).len(), 6);
    assert_eq!(all_multisets(2).len(), 21);
    assert_eq!(all_multisets(5).len(), 252);
    assert_eq!(all_multisets(6).len(), 462);
    let l = all_multisets(5);
    assert_eq!(counts_of(&l[0]), [5, 0, 0, 0, 0, 0]);
    assert_eq!(counts_of(&l[251]), [0, 0, 0, 0, 0, 5]);
}

#[test]
fn index_space_builds_and_looks_up() {
    let space = IndexSpace::build(5);
    assert_eq!(space.rolls[5].len(), 252);
    let first = DiceThrow::from_counts([5, 0, 0, 0, 0, 0]);
    assert_eq!(space.dice_index(5, &first), Some(0));
    // every multiset is found at its own position
    for (i, d) in space.rolls[5].iter().enumerate() {
        assert_eq!(space.dice_index(5, d), Some(i));
    }
    // a wrong-size multiset is rejected
    let small = DiceThrow::from_counts([2, 0, 0, 0, 0, 0]);
    assert_eq!(space.dice_index(5, &small), None);
}

#[test]
fn sub_throw_enumeration_is_complete() {
    let t = DiceThrow::from_counts([2, 0, 1, 0, 0, 0]);
    let subs = sub_throws(&t);
    // counts of face one range over 0..=2, of face three over 0..=1
    assert_eq!(subs.len(), 6);
    for s in &subs {
        for f in 1..=6u64 {
            assert!(s.cnt(f) <= t.cnt(f));
        }
    }
}

#[test]
fn multinomial_ways() {
    assert_eq!(fact(6), 720);
    assert_eq!(ways(&DiceThrow::from_counts([2, 0, 0, 0, 0, 0])), 1);
    assert_eq!(ways(&DiceThrow::from_counts([1, 1, 0, 0, 0, 0])), 2);
    assert_eq!(ways(&DiceThrow::from_counts([1, 1, 1, 1, 1, 0])), 120);
    assert_eq!(ways(&DiceThrow::from_counts([3, 2, 0, 0, 0, 0])), 10);
}

/// Brute force: the expected table score of rethrowing `rt` out of `dice`,
/// computed over every ordered roll of the rethrown dice.
fn brute_rethrow_value(
    space: &IndexSpace,
    dice: &DiceThrow,
    rt: &DiceThrow,
    rank: u64,
    table: &Vec<u32>,
) -> u64 {
    let r = rt.amt_dice();
    let mut kept = counts_of(dice);
    for f in 0..6 {
        kept[f] -= rt.cnt(f as u64 + 1);
    }
    let mut sum: u64 = 0;
    let rolls: u64 = 6u64.pow(r as u32);
    for seq in 0..rolls {
        let mut succ = kept;
        let mut s = seq;
        for _ in 0..r {
            let face = (s % 6) as usize;
            s /= 6;
            succ[face] += 1;
        }
        let idx = space
            .dice_index(space.n, &DiceThrow::from_counts(succ))
            .expect("successor throw is indexed");
        sum += table[idx + (rank as usize) * 21] as u64;
    }
    sum / rolls
}

#[test]
fn recurrence_matches_brute_force_on_two_dice() {
    // a reduced instance: two dice, two categories
    let space = IndexSpace::build(2);
    let table: Vec<u32> = (0..42u32).map(|i| (i * 379 + 11) % 3000).collect();
    for di in 0..space.rolls[2].len() {
        let dice = space.rolls[2][di];
        for rank in 0..2u64 {
            let subs = sub_throws(&dice);
            let mut brute_best: u64 = 0;
            for rt in &subs {
                let b = brute_rethrow_value(&space, &dice, rt, rank, &table);
                assert_eq!(rethrow_value(&space, &dice, rt, rank, &table, 2) as u64, b);
                if b > brute_best {
                    brute_best = b;
                }
            }
            let (_, v) = best_reroll(&space, &dice, rank, &table, 2);
            assert_eq!(v as u64, brute_best);
        }
    }
}

#[test]
fn keeping_everything_reads_the_table_entry() {
    let space = IndexSpace::build(2);
    let table: Vec<u32> = (0..42u32).map(|i| i * 100).collect();
    let dice = DiceThrow::from_counts([1, 0, 0, 0, 1, 0]);
    let keep_all = DiceThrow::from_counts([0, 0, 0, 0, 0, 0]);
    let idx = space.dice_index(2, &dice).unwrap();
    assert_eq!(rethrow_value(&space, &dice, &keep_all, 1, &table, 2), table[idx + 21]);
}

#[test]
fn reroll_masks_decode_back() {
    let dice = DiceThrow::from_counts([2, 0, 2, 0, 0, 1]);
    let rt = DiceThrow::from_counts([1, 0, 2, 0, 0, 0]);
    // the mask marks the kept dice; rethrown dice come first in each block
    let bits = rethrow_bits(&dice, &rt);
    assert_eq!(bits.len(), 5);
    assert_eq!(bits, vec![false, true, false, false, true]);
    let kept = get_dice_from_bits(&dice, &bits);
    assert_eq!(counts_of(&kept), [1, 0, 0, 0, 0, 1]);
    // the complement of the kept dice is the rethrow
    let back = new_throw(&dice, &kept, &DiceThrow::from_counts([0, 0, 0, 0, 0, 0]));
    assert_eq!(counts_of(&back), counts_of(&rt));
}

fn zero_window(v: Variant, k: u64, dd: usize) -> DepWindow {
    let buckets = v.num_buckets() as usize;
    let group = num_integer::binomial(v.num_cells() as usize, (k - 1) as usize);
    DepWindow {
        bucket_base: 0,
        tables: (0..buckets).map(|_| vec![0u32; group * dd]).collect(),
    }
}

#[test]
fn all_ones_with_every_category_open_picks_yahtzee() {
    // five dice all showing face one, all categories open, no bonus progress,
    // no throws left, successor stage contributing nothing
    let space = IndexSpace::build(5);
    let dice = DiceThrow::from_counts([5, 0, 0, 0, 0, 0]);
    let cells = vec![true; 15];
    let dep = zero_window(Variant::Five, 15, 252);
    let (choice, score) = best_cell(Variant::Five, &space, &dice, &cells, 0, &dep);
    // yahtzee scores 50, more than five ones or any other category
    assert_eq!(choice, 14);
    assert_eq!(score as u64, 50 * SCORE_SCALE);

    // with a constant future contribution the same category wins, and the
    // stored score is its point value plus that untouched contribution
    let mut flat = zero_window(Variant::Five, 15, 252);
    for t in flat.tables.iter_mut() {
        for e in t.iter_mut() {
            *e = 9 * SCORE_SCALE as u32;
        }
    }
    let (choice, score) = best_cell(Variant::Five, &space, &dice, &cells, 0, &flat);
    assert_eq!(choice, 14);
    assert_eq!(score as u64, (50 + 9) * SCORE_SCALE);
}

#[test]
fn more_open_categories_never_score_below_one_alone() {
    let space = IndexSpace::build(5);
    let dice = DiceThrow::from_counts([0, 0, 1, 1, 1, 2]);
    let cells = vec![true; 15];
    let dep = zero_window(Variant::Five, 15, 252);
    let (_, score) = best_cell(Variant::Five, &space, &dice, &cells, 0, &dep);
    for c in 0..15u64 {
        let single = yatzy_tables::scoring::points_for_single_cell(Variant::Five, c, &dice, 0);
        assert!(score as u64 >= single * SCORE_SCALE);
    }
}

#[test]
fn base_unit_scores_effective_points() {
    let space = IndexSpace::build(5);
    let (scores, decisions) = compute_base_unit(Variant::Five, &space, 0);
    assert_eq!(scores.len(), 15 * 252);
    assert_eq!(decisions.len(), 15 * 252);
    let yz = DiceThrow::from_counts([5, 0, 0, 0, 0, 0]);
    let di = space.dice_index(5, &yz).unwrap();
    // rank 0 is the ones category: five ones score 5
    assert_eq!(scores[di] as u64, 5 * SCORE_SCALE);
    assert_eq!(decisions[di], 0);
    // rank 14 is yahtzee
    assert_eq!(scores[di + 14 * 252] as u64, 50 * SCORE_SCALE);
    assert_eq!(decisions[di + 14 * 252], 14);
}

#[test]
fn recomputing_a_unit_is_byte_identical() {
    let space = IndexSpace::build(2);
    let dep: Vec<u32> = (0..42u32).map(|i| (i * 997 + 5) % 60000).collect();
    let (s1, m1) = compute_reroll_unit(&space, 2, &dep);
    let (s2, m2) = compute_reroll_unit(&space, 2, &dep);
    assert_eq!(s1, s2);
    assert_eq!(m1, m2);
    assert_eq!(scores_to_bytes(&s1), scores_to_bytes(&s2));
    assert_eq!(pack_records(&m1, 2), pack_records(&m2, 2));

    let (b1, d1) = compute_base_unit(Variant::Five, &space_five(), 7);
    let (b2, d2) = compute_base_unit(Variant::Five, &space_five(), 7);
    assert_eq!(scores_to_bytes(&b1), scores_to_bytes(&b2));
    assert_eq!(pack_records(&d1, 4), pack_records(&d2, 4));

    let dep = zero_window(Variant::Five, 15, 252);
    let (c1, e1) = compute_cell_unit(Variant::Five, &space_five(), 15, 0, &dep);
    let (c2, e2) = compute_cell_unit(Variant::Five, &space_five(), 15, 0, &dep);
    assert_eq!(scores_to_bytes(&c1), scores_to_bytes(&c2));
    assert_eq!(pack_records(&e1, 4), pack_records(&e2, 4));
}

fn space_five() -> IndexSpace {
    IndexSpace::build(5)
}

#[test]
fn cell_unit_covers_every_state() {
    let space = space_five();
    let dep = zero_window(Variant::Five, 15, 252);
    let (scores, decisions) = compute_cell_unit(Variant::Five, &space, 15, 0, &dep);
    // one subset of fifteen open categories
    assert_eq!(scores.len(), 252);
    assert_eq!(decisions.len(), 252);
    let yz = DiceThrow::from_counts([5, 0, 0, 0, 0, 0]);
    let di = space.dice_index(5, &yz).unwrap();
    assert_eq!(decisions[di], 14);
    assert_eq!(scores[di] as u64, 50 * SCORE_SCALE);
}

#[test]
fn rerolling_all_ones_keeps_nothing_against_flat_tables() {
    // with equal successor scores every rethrow is equally good, so the
    // first candidate in enumeration order (keep everything) wins
    let space = IndexSpace::build(2);
    let table: Vec<u32> = vec![7 * 65536; 42];
    let dice = DiceThrow::from_counts([2, 0, 0, 0, 0, 0]);
    let (rt, v) = best_reroll(&space, &dice, 0, &table, 2);
    assert_eq!(counts_of(&rt), [0, 0, 0, 0, 0, 0]);
    assert_eq!(v, 7 * 65536);
    let throw = new_throw(&dice, &rt, &DiceThrow::from_counts([0, 0, 0, 0, 0, 0]));
    assert_eq!(counts_of(&throw), [2, 0, 0, 0, 0, 0]);
}
