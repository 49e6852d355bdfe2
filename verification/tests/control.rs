use yatzy_tables::Variant;
use yatzy_tables::orchestrator::{
    SpeedWindow, Stage, StageStatus, StageTracker, UnitQueue, dependency, next_paused,
    pause_signals, stage_of_pos, stage_schedule, throttle_target,
};
use yatzy_tables::query::query_index;
use yatzy_tables::dice::DiceThrow;
use yatzy_tables::space::IndexSpace;
use yatzy_tables::cells::{binomial, subset_from_rank, subset_rank};

#[test]
fn stage_dependencies_form_a_chain() {
    let base = Stage { free_cells: 1, throws_left: 0 };
    assert_eq!(dependency(base), None);
    let s = Stage { free_cells: 4, throws_left: 2 };
    assert_eq!(dependency(s), Some(Stage { free_cells: 4, throws_left: 1 }));
    let s = Stage { free_cells: 4, throws_left: 0 };
    assert_eq!(dependency(s), Some(Stage { free_cells: 3, throws_left: 2 }));
    assert_eq!(stage_of_pos(0), base);
    assert_eq!(stage_of_pos(11), Stage { free_cells: 4, throws_left: 2 });
}

#[test]
fn schedule_resumes_in_order() {
    let full = stage_schedule(Variant::Five, Stage { free_cells: 1, throws_left: 0 });
    assert_eq!(full.len(), 45);
    assert_eq!(full[0], Stage { free_cells: 1, throws_left: 0 });
    assert_eq!(full[1], Stage { free_cells: 1, throws_left: 1 });
    assert_eq!(full[44], Stage { free_cells: 15, throws_left: 2 });
    // every dependency appears earlier
    for (i, s) in full.iter().enumerate() {
        if let Some(d) = dependency(*s) {
            let j = full.iter().position(|x| *x == d).expect("dependency scheduled");
            assert!(j < i);
        }
    }
    let resumed = stage_schedule(Variant::Five, Stage { free_cells: 7, throws_left: 1 });
    assert_eq!(resumed[0], Stage { free_cells: 7, throws_left: 1 });
    assert_eq!(resumed.len(), 45 - (3 * 6 + 1));
}

#[test]
fn tracker_gates_stages_on_their_dependency() {
    let mut t = StageTracker::new(Variant::Five);
    assert!(t.can_start(Variant::Five, 0));
    // stage 1 needs stage 0 completed
    assert!(!t.can_start(Variant::Five, 1));
    t.start(Variant::Five, 0);
    assert_eq!(t.statuses[0], StageStatus::Running);
    assert!(!t.can_start(Variant::Five, 1));
    t.finish(Variant::Five, 0);
    assert_eq!(t.statuses[0], StageStatus::Completed);
    assert!(t.can_start(Variant::Five, 1));
    // a completed stage never restarts
    assert!(!t.can_start(Variant::Five, 0));
}

#[test]
fn unit_queue_hands_out_buckets_in_order() {
    let mut q = UnitQueue::new(3);
    assert_eq!(q.pop(), Some(0));
    assert_eq!(q.pop(), Some(1));
    assert_eq!(q.pop(), Some(2));
    assert_eq!(q.pop(), None);
    assert_eq!(q.pop(), None);
}

#[test]
fn throttle_degrades_to_full_pause() {
    // a malformed or missing control value pauses every worker, to be safe
    assert_eq!(throttle_target(None, 0, 8), 8);
    assert_eq!(throttle_target(None, 3, 8), 8);
    // a readable target pauses the requested number, net of finished workers
    assert_eq!(throttle_target(Some(0), 0, 8), 0);
    assert_eq!(throttle_target(Some(5), 2, 8), 3);
    assert_eq!(throttle_target(Some(5), 6, 8), 0);
    assert_eq!(throttle_target(Some(100), 0, 8), 8);
}

#[test]
fn pause_and_wake_signals_balance() {
    assert_eq!(pause_signals(2, 5), (3, 0));
    assert_eq!(pause_signals(5, 2), (0, 3));
    assert_eq!(pause_signals(4, 4), (0, 0));
    assert!(next_paused(false, true, false));
    assert!(!next_paused(true, false, true));
    assert!(next_paused(true, false, false));
    assert!(!next_paused(false, false, true));
}

#[test]
fn speed_window_slides() {
    let mut w = SpeedWindow::new(3);
    w.record(10);
    w.record(20);
    assert_eq!(w.sum(), 30);
    w.record(30);
    w.record(40);
    // the oldest count fell out of the window
    assert_eq!(w.sum(), 90);
    assert_eq!(w.counts, vec![20, 30, 40]);
}

#[test]
fn query_maps_a_state_to_its_record() {
    let space = IndexSpace::build(5);
    let mut cells = vec![true; 15];
    cells[14] = false;
    let dice = DiceThrow::from_counts([0, 1, 1, 1, 1, 1]);
    let di = space.dice_index(5, &dice).unwrap() as u64;
    let (k, bucket, index) = query_index(Variant::Five, &space, &cells, &dice, 70).unwrap();
    assert_eq!(k, 14);
    // bonus points clip to the last bucket
    assert_eq!(bucket, 63);
    // the subset missing only the top category has the smallest bitmask of
    // its group, so its rank is zero
    assert_eq!(index, di);
    // a wrong-size throw is reported, not indexed
    let small = DiceThrow::from_counts([1, 0, 0, 0, 0, 0]);
    assert_eq!(query_index(Variant::Five, &space, &cells, &small, 0), None);
}

#[test]
fn subset_ranks_invert() {
    assert_eq!(binomial(15, 14), 15);
    let total = binomial(6, 3);
    assert_eq!(total, 20);
    for rank in 0..total {
        let s = subset_from_rank(6, 3, rank);
        assert_eq!(s.len(), 6);
        assert_eq!(s.iter().filter(|&&b| b).count(), 3);
        assert_eq!(subset_rank(&s), rank);
    }
    // subsets of one open category: rank equals the category index
    for c in 0..15usize {
        let mut s = vec![false; 15];
        s[c] = true;
        assert_eq!(subset_rank(&s), c as u64);
    }
}
