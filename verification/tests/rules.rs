use yatzy_tables::Variant;
use yatzy_tables::dice::DiceThrow;
use yatzy_tables::names::{get_index_name, get_yahtzee_index};
use yatzy_tables::scoring::{advance_bucket, get_total_score, points_for_single_cell};
use yatzy_tables::{amt_cells, amt_dice_index, amt_points_above, n_to_ind, test as lib_test};

#[test]
fn upper_section_scores() {
    let t = DiceThrow::from_counts([5, 0, 0, 0, 0, 0]);
    assert_eq!(t.ammount_of(1), 5);
    assert_eq!(t.ammount_of(2), 0);
    let t = DiceThrow::from_counts([0, 0, 2, 0, 0, 3]);
    assert_eq!(t.ammount_of(3), 6);
    assert_eq!(t.ammount_of(6), 18);
}

#[test]
fn pairs_take_the_highest_faces() {
    let t = DiceThrow::from_counts([0, 2, 0, 2, 0, 1]);
    assert_eq!(t.pairs(1), 8);
    assert_eq!(t.pairs(2), 12);
    // only two pairs exist: the third pair adds nothing
    assert_eq!(t.pairs(3), 12);
    let t = DiceThrow::from_counts([5, 0, 0, 0, 0, 0]);
    assert_eq!(t.pairs(1), 2);
}

#[test]
fn n_of_a_kind_prefers_high_faces() {
    let t = DiceThrow::from_counts([0, 0, 4, 0, 1, 0]);
    assert_eq!(t.n_of_a_kind(3), 9);
    assert_eq!(t.n_of_a_kind(4), 12);
    assert_eq!(t.n_of_a_kind(5), 0);
    let t = DiceThrow::from_counts([0, 3, 0, 0, 3, 0]);
    assert_eq!(t.n_of_a_kind(3), 15);
}

#[test]
fn straights() {
    let t = DiceThrow::from_counts([1, 1, 1, 1, 1, 0]);
    assert_eq!(t.straight(1, 5), 15);
    assert_eq!(t.straight(2, 6), 0);
    let t = DiceThrow::from_counts([1, 1, 1, 1, 1, 1]);
    assert_eq!(t.straight(1, 6), 21);
}

#[test]
fn buildings() {
    let t = DiceThrow::from_counts([0, 3, 2, 0, 0, 0]);
    assert_eq!(t.building(3, 2), 12);
    let t = DiceThrow::from_counts([0, 0, 0, 2, 0, 4]);
    assert_eq!(t.building(4, 2), 32);
    let t = DiceThrow::from_counts([0, 0, 3, 3, 0, 0]);
    assert_eq!(t.building(3, 3), 21);
    let t = DiceThrow::from_counts([1, 1, 1, 1, 1, 0]);
    assert_eq!(t.building(3, 2), 0);
}

#[test]
fn chance_and_yahtzee() {
    let t = DiceThrow::from_counts([1, 0, 2, 0, 0, 2]);
    assert_eq!(t.chance(), 19);
    let t = DiceThrow::from_counts([5, 0, 0, 0, 0, 0]);
    assert_eq!(t.yahtzee(), 50);
    let t = DiceThrow::from_counts([0, 0, 0, 0, 0, 6]);
    assert_eq!(t.yahtzee(), 100);
    let t = DiceThrow::from_counts([1, 0, 0, 0, 0, 4]);
    assert_eq!(t.yahtzee(), 0);
}

#[test]
fn cell_score_layout_five() {
    let yz = DiceThrow::from_counts([5, 0, 0, 0, 0, 0]);
    assert_eq!(yz.cell_score(Variant::Five, 0), 5);
    assert_eq!(yz.cell_score(Variant::Five, 6), 2);
    assert_eq!(yz.cell_score(Variant::Five, 13), 5);
    assert_eq!(yz.cell_score(Variant::Five, 14), 50);
}

#[test]
fn cell_score_layout_six() {
    let t = DiceThrow::from_counts([0, 0, 0, 0, 0, 6]);
    assert_eq!(t.cell_score(Variant::Six, 5), 36);
    assert_eq!(t.cell_score(Variant::Six, 11), 30);
    assert_eq!(t.cell_score(Variant::Six, 18), 36);
    assert_eq!(t.cell_score(Variant::Six, 19), 100);
}

#[test]
fn effective_points_award_bonus_on_crossing_only() {
    let sixes = DiceThrow::from_counts([0, 0, 0, 0, 0, 5]);
    // 33 + 30 crosses the threshold of 63: bonus awarded
    assert_eq!(points_for_single_cell(Variant::Five, 5, &sixes, 33), 80);
    // from the last bucket the bonus was already awarded once
    assert_eq!(points_for_single_cell(Variant::Five, 5, &sixes, 63), 30);
    // lower-section cells never touch the bonus
    let t = DiceThrow::from_counts([1, 0, 2, 0, 0, 2]);
    assert_eq!(points_for_single_cell(Variant::Five, 13, &t, 62), 19);
}

#[test]
fn bucket_advance_clips_and_crosses() {
    assert_eq!(advance_bucket(Variant::Five, 60, 5, 30), (63, true));
    assert_eq!(advance_bucket(Variant::Five, 63, 5, 30), (63, false));
    assert_eq!(advance_bucket(Variant::Five, 10, 2, 9), (19, false));
    assert_eq!(advance_bucket(Variant::Five, 10, 8, 25), (10, false));
    assert_eq!(advance_bucket(Variant::Six, 80, 5, 6), (84, true));
}

#[test]
fn total_score_sums_sheet_with_bonus() {
    let mut points: Vec<Option<u64>> = vec![None; 15];
    for i in 0..6 {
        points[i] = Some(11);
    }
    points[14] = Some(50);
    // upper section 66 >= 63: bonus 50
    assert_eq!(get_total_score(Variant::Five, &points), 66 + 50 + 50);
    points[0] = Some(1);
    // upper section 56 < 63: no bonus
    assert_eq!(get_total_score(Variant::Five, &points), 56 + 50);
}

#[test]
fn category_names_round_trip() {
    assert_eq!(get_yahtzee_index(5, "1s"), 0);
    assert_eq!(get_yahtzee_index(5, "yz"), 14);
    assert_eq!(get_yahtzee_index(5, "hs"), 12);
    assert_eq!(get_yahtzee_index(5, "ch"), 13);
    assert_eq!(get_yahtzee_index(5, "sj"), 13);
    assert_eq!(get_yahtzee_index(6, "3p"), 8);
    assert_eq!(get_yahtzee_index(6, "tr"), 17);
    assert_eq!(get_yahtzee_index(6, "yz"), 19);
    assert_eq!(get_index_name(5, 12), "house");
    assert_eq!(get_index_name(6, 15), "hut");
    assert_eq!(get_index_name(6, 17), "tower");
    assert_eq!(get_index_name(5, 0), "ones");
    assert_eq!(get_index_name(6, 19), "yahtzee");
}

#[test]
fn variant_constants() {
    assert_eq!(amt_dice_index(5), 252);
    assert_eq!(amt_dice_index(6), 462);
    assert_eq!(amt_cells(5), 15);
    assert_eq!(amt_cells(6), 20);
    assert_eq!(amt_points_above(5), 64);
    assert_eq!(amt_points_above(6), 85);
    assert_eq!(n_to_ind(5), 0);
    assert_eq!(n_to_ind(6), 1);
    assert_eq!(Variant::Five.bonus_threshold(), 63);
    assert_eq!(Variant::Six.bonus_award(), 100);
    assert_eq!(Variant::Five.cell_bits(), 4);
    assert_eq!(Variant::Six.mask_bits(), 6);
}

#[test]
fn random_roll_has_the_right_size() {
    let t = DiceThrow::roll(5);
    assert_eq!(t.amt_dice(), 5);
    let mut sum = 0;
    for f in 1..=6 {
        sum += t.cnt(f);
    }
    assert_eq!(sum, 5);
    lib_test(&["noop"]);
}
