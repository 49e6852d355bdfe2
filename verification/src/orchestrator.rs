//! Pure decision logic of the stage orchestrator.
//!
//! Stages form a chain: the stage with throws left depends on the stage
//! with one throw less at the same category count, and the no-throws stage
//! depends on the two-throws stage with one category fewer.  The
//! orchestrator runs stages in that order, splits each stage into one unit
//! per bonus bucket, and paces workers against externally polled stop and
//! throttle controls.  Everything here is a function from state and event
//! to the next state and action; the threads, clocks and files that feed it
//! live outside the library.

use vstd::prelude::*;

use crate::Variant;

verus! {

/// One stage of the dependency chain: how many categories are open and how
/// many throws are left in the turn.
#[derive(Clone, Copy, Debug, PartialEq, Eq, Structural)]
pub struct Stage {
    /// Open categories of the states of this stage.
    pub free_cells: u64,
    /// Rerolls remaining: 0, 1 or 2.
    pub throws_left: u64,
}

impl Stage {
    /// A stage of the variant `v`.
    pub open spec fn wf(self, v: Variant) -> bool {
        1 <= self.free_cells <= v.spec_num_cells() && self.throws_left <= 2
    }

    /// The position of the stage in the one dependency chain: stages are
    /// computed in strictly increasing position order.
    pub open spec fn spec_pos(self) -> int {
        3 * (self.free_cells - 1) + self.throws_left
    }

    /// The position of the stage in the dependency chain.
    pub fn pos(self) -> (r: u64)
        requires
            1 <= self.free_cells <= 20,
            self.throws_left <= 2,
        ensures
            r == self.spec_pos(),
    {
        3 * (self.free_cells - 1) + self.throws_left
    }
}

/// The stage at position `p` of the dependency chain.
pub open spec fn spec_stage_of_pos(p: int) -> Stage {
    Stage { free_cells: (p / 3 + 1) as u64, throws_left: (p % 3) as u64 }
}

/// The stage at position `p` of the dependency chain.
pub fn stage_of_pos(p: u64) -> (r: Stage)
    requires
        p < 60,
    ensures
        r == spec_stage_of_pos(p as int),
        r.spec_pos() == p,
{
    let r = Stage { free_cells: p / 3 + 1, throws_left: p % 3 };
    proof {
        vstd::arithmetic::div_mod::lemma_fundamental_div_mod(p as int, 3);
    }
    r
}

/// The stage whose completed tables this stage reads, if it has one.  The
/// one-category, no-throws stage is the base case and depends on nothing.
pub open spec fn spec_dependency(s: Stage) -> Option<Stage> {
    if s.throws_left > 0 {
        Some(Stage { free_cells: s.free_cells, throws_left: (s.throws_left - 1) as u64 })
    } else if s.free_cells > 1 {
        Some(Stage { free_cells: (s.free_cells - 1) as u64, throws_left: 2 })
    } else {
        None
    }
}

/// The stage whose completed tables this stage reads, if it has one.
pub fn dependency(s: Stage) -> (r: Option<Stage>)
    requires
        s.free_cells >= 1,
    ensures
        r == spec_dependency(s),
{
    if s.throws_left > 0 {
        Some(Stage { free_cells: s.free_cells, throws_left: s.throws_left - 1 })
    } else if s.free_cells > 1 {
        Some(Stage { free_cells: s.free_cells - 1, throws_left: 2 })
    } else {
        None
    }
}

/// A stage's dependency always sits strictly earlier in the chain.
pub proof fn lemma_dependency_earlier(v: Variant, s: Stage)
    requires
        s.wf(v),
    ensures
        match spec_dependency(s) {
            Some(d) => d.wf(v) && d.spec_pos() < s.spec_pos(),
            None => s.spec_pos() == 0,
        },
{
}

/// The stages to compute when resuming at `start`, in order: every stage
/// from `start` to the end of the chain.  Running them in order only ever
/// reads stages that are already complete, provided everything before
/// `start` is.
pub fn stage_schedule(v: Variant, start: Stage) -> (r: Vec<Stage>)
    requires
        start.wf(v),
    ensures
        r@.len() == 3 * v.spec_num_cells() - start.spec_pos(),
        forall|i: int|
            0 <= i < r@.len() ==> (#[trigger] r@[i]) == spec_stage_of_pos(start.spec_pos() + i),
        forall|i: int| 0 <= i < r@.len() ==> (#[trigger] r@[i]).wf(v),
{
    let ncells = v.num_cells();
    let first = start.pos();
    let last = 3 * ncells;
    let mut r: Vec<Stage> = Vec::new();
    let mut p: u64 = first;
    while p < last
        invariant
            first == start.spec_pos(),
            last == 3 * v.spec_num_cells(),
            first <= p <= last,
            last <= 60,
            r@.len() == p - first,
            forall|i: int|
                0 <= i < r@.len() ==> (#[trigger] r@[i]) == spec_stage_of_pos(first + i),
            forall|i: int| 0 <= i < r@.len() ==> (#[trigger] r@[i]).wf(v),
        decreases last - p,
    {
        let s = stage_of_pos(p);
        proof {
            vstd::arithmetic::div_mod::lemma_fundamental_div_mod(p as int, 3);
        }
        r.push(s);
        p = p + 1;
    }
    r
}

/// Every stage of a schedule finds its dependency either earlier in the
/// schedule or before the resume point.
pub proof fn lemma_schedule_dependencies(v: Variant, start: Stage, sched: Seq<Stage>, i: int)
    requires
        start.wf(v),
        sched.len() == 3 * v.spec_num_cells() - start.spec_pos(),
        forall|j: int|
            0 <= j < sched.len() ==> (#[trigger] sched[j]) == spec_stage_of_pos(
                start.spec_pos() + j,
            ),
        forall|j: int| 0 <= j < sched.len() ==> (#[trigger] sched[j]).wf(v),
        0 <= i < sched.len(),
    ensures
        match spec_dependency(sched[i]) {
            Some(d) => d.spec_pos() < start.spec_pos() || (d.spec_pos() - start.spec_pos() < i
                && sched[d.spec_pos() - start.spec_pos()] == d),
            None => true,
        },
{
    lemma_dependency_earlier(v, sched[i]);
    match spec_dependency(sched[i]) {
        Some(d) => {
            assert(sched[i].spec_pos() == start.spec_pos() + i);
            if d.spec_pos() >= start.spec_pos() {
                let j = d.spec_pos() - start.spec_pos();
                assert(sched[j] == spec_stage_of_pos(start.spec_pos() + j));
                assert(spec_stage_of_pos(d.spec_pos()) == d) by {
                    vstd::arithmetic::div_mod::lemma_fundamental_div_mod_converse(
                        d.spec_pos(),
                        3,
                        d.free_cells - 1,
                        d.throws_left as int,
                    );
                }
            }
        },
        None => {},
    }
}

/// Progress of one stage through its life cycle.
#[derive(Clone, Copy, Debug, PartialEq, Eq, Structural)]
pub enum StageStatus {
    /// Not started; its units may not be read.
    Pending,
    /// Units are being computed.
    Running,
    /// Every unit is written and flushed; read-only from now on.
    Completed,
}

/// The life-cycle tracker of all stages of one variant, indexed by chain
/// position.  A stage may start only when its dependency has completed.
pub struct StageTracker {
    /// Status by chain position.
    pub statuses: Vec<StageStatus>,
}

impl StageTracker {
    /// The tracker covers the whole chain of the variant.
    pub open spec fn wf(&self, v: Variant) -> bool {
        self.statuses@.len() == 3 * v.spec_num_cells()
    }

    /// A fresh tracker: every stage is pending.
    pub fn new(v: Variant) -> (r: StageTracker)
        ensures
            r.wf(v),
            forall|p: int| 0 <= p < r.statuses@.len() ==> r.statuses@[p] == StageStatus::Pending,
    {
        let n = (3 * v.num_cells()) as usize;
        let mut statuses: Vec<StageStatus> = Vec::new();
        let mut i: usize = 0;
        while i < n
            invariant
                i <= n,
                statuses@.len() == i,
                forall|p: int| 0 <= p < i ==> statuses@[p] == StageStatus::Pending,
            decreases n - i,
        {
            statuses.push(StageStatus::Pending);
            i = i + 1;
        }
        StageTracker { statuses }
    }

    /// Whether the stage at position `p` may enter `Running`: it is pending
    /// and its dependency, if any, has completed.
    pub fn can_start(&self, v: Variant, p: u64) -> (r: bool)
        requires
            self.wf(v),
            p < 3 * v.spec_num_cells(),
        ensures
            r <==> (self.statuses@[p as int] == StageStatus::Pending && match spec_dependency(
                spec_stage_of_pos(p as int),
            ) {
                Some(d) => self.statuses@[d.spec_pos()] == StageStatus::Completed,
                None => true,
            }),
    {
        if !matches!(self.statuses[p as usize], StageStatus::Pending) {
            return false;
        }
        let s = stage_of_pos(p);
        proof {
            lemma_dependency_earlier(v, s);
        }
        match dependency(s) {
            Some(d) => matches!(self.statuses[d.pos() as usize], StageStatus::Completed),
            None => true,
        }
    }

    /// Enter `Running` at position `p`.
    pub fn start(&mut self, v: Variant, p: u64)
        requires
            old(self).wf(v),
            p < 3 * v.spec_num_cells(),
            old(self).statuses@[p as int] == StageStatus::Pending,
            match spec_dependency(spec_stage_of_pos(p as int)) {
                Some(d) => old(self).statuses@[d.spec_pos()] == StageStatus::Completed,
                None => true,
            },
        ensures
            final(self).wf(v),
            final(self).statuses@ == old(self).statuses@.update(p as int, StageStatus::Running),
    {
        self.statuses.set(p as usize, StageStatus::Running);
    }

    /// Enter `Completed` at position `p`, once every unit of the stage has
    /// been written and flushed.
    pub fn finish(&mut self, v: Variant, p: u64)
        requires
            old(self).wf(v),
            p < 3 * v.spec_num_cells(),
            old(self).statuses@[p as int] == StageStatus::Running,
        ensures
            final(self).wf(v),
            final(self).statuses@ == old(self).statuses@.update(p as int, StageStatus::Completed),
    {
        self.statuses.set(p as usize, StageStatus::Completed);
    }
}

/// The shared work queue of one stage: one unit per bonus bucket, handed
/// out first-in first-out.
pub struct UnitQueue {
    /// Number of units of the stage.
    pub total: u64,
    /// Units `0 .. next` have been handed out.
    pub next: u64,
}

impl UnitQueue {
    /// The queue invariant.
    pub open spec fn wf(&self) -> bool {
        self.next <= self.total
    }

    /// A queue pre-loaded with the units `0 .. total`.
    pub fn new(total: u64) -> (r: UnitQueue)
        ensures
            r.wf(),
            r.total == total,
            r.next == 0,
    {
        UnitQueue { total, next: 0 }
    }

    /// Hand out the next unit, in first-in order; `None` once the stage's
    /// units are exhausted.
    pub fn pop(&mut self) -> (r: Option<u64>)
        requires
            old(self).wf(),
        ensures
            final(self).wf(),
            final(self).total == old(self).total,
            match r {
                Some(u) => u == old(self).next && u < old(self).total && final(self).next == old(
                    self,
                ).next + 1,
                None => old(self).next == old(self).total && *final(self) == *old(self),
            },
    {
        if self.next < self.total {
            let u = self.next;
            self.next = self.next + 1;
            Some(u)
        } else {
            None
        }
    }
}

/// The number of workers that should be paused, from the polled throttle
/// indicator: a missing or unreadable indicator pauses everyone, to be
/// safe; a readable target pauses as many workers as are needed so that at
/// most `target` of the still-working ones keep computing, counting the
/// `amt_done` workers that already exited.
pub fn throttle_target(reading: Option<u64>, amt_done: u64, workers: u64) -> (r: u64)
    ensures
        r == match reading {
            Some(target) => if amt_done > target {
                0int
            } else if target - amt_done > workers {
                workers as int
            } else {
                target - amt_done
            },
            None => workers as int,
        },
        r <= workers,
{
    match reading {
        Some(target) => {
            if amt_done > target {
                0
            } else if target - amt_done > workers {
                workers
            } else {
                target - amt_done
            }
        },
        None => workers,
    }
}

/// The pause and wake signals the monitor sends so that the number of
/// paused workers moves from `paused` to `target`: pauses when too few are
/// paused, wakes when too many are.
pub fn pause_signals(paused: u64, target: u64) -> (r: (u64, u64))
    ensures
        paused + r.0 - r.1 == target,
        r.0 == 0 || r.1 == 0,
        r.0 > 0 ==> paused < target,
        r.1 > 0 ==> paused > target,
{
    if paused < target {
        (target - paused, 0)
    } else {
        (0, paused - target)
    }
}

/// One worker's pause state after polling its control channels: a pause
/// signal parks it, a wake signal releases it, and it never loses the unit
/// it started.
pub fn next_paused(paused: bool, pause_signal: bool, wake_signal: bool) -> (r: bool)
    ensures
        r == if paused {
            !wake_signal
        } else {
            pause_signal
        },
{
    if paused {
        !wake_signal
    } else {
        pause_signal
    }
}

/// The monitor's sliding window of per-second progress reports, kept at a
/// fixed length for the throughput estimate.
pub struct SpeedWindow {
    /// The most recent per-interval record counts, oldest first.
    pub counts: Vec<u64>,
    /// Window length bound.
    pub cap: usize,
}

/// The sum of the recorded counts.
pub open spec fn spec_window_sum(s: Seq<u64>) -> int
    decreases s.len(),
{
    if s.len() == 0 {
        0
    } else {
        spec_window_sum(s.drop_last()) + s.last()
    }
}

impl SpeedWindow {
    /// The window invariant: never longer than its bound.
    pub open spec fn wf(&self) -> bool {
        1 <= self.cap && self.counts@.len() <= self.cap
    }

    /// An empty window with length bound `cap`.
    pub fn new(cap: usize) -> (r: SpeedWindow)
        requires
            1 <= cap,
        ensures
            r.wf(),
            r.cap == cap,
            r.counts@.len() == 0,
    {
        SpeedWindow { counts: Vec::new(), cap }
    }

    /// Record the next interval's count, dropping the oldest once the
    /// window is full.
    pub fn record(&mut self, c: u64)
        requires
            old(self).wf(),
        ensures
            final(self).wf(),
            final(self).cap == old(self).cap,
            final(self).counts@ == if old(self).counts@.len() < old(self).cap {
                old(self).counts@.push(c)
            } else {
                old(self).counts@.push(c).drop_first()
            },
    {
        if self.counts.len() == self.cap {
            self.counts.remove(0);
            proof {
                assert(self.counts@.push(c) =~= old(self).counts@.push(c).drop_first());
            }
        }
        self.counts.push(c);
    }

    /// The records processed over the window, for the throughput estimate.
    pub fn sum(&self) -> (r: u64)
        requires
            self.wf(),
            self.counts@.len() <= 1000,
            forall|i: int| 0 <= i < self.counts@.len() ==> (#[trigger] self.counts@[i])
                <= 0x1000_0000_0000,
        ensures
            r == spec_window_sum(self.counts@),
    {
        let mut i: usize = 0;
        let mut acc: u64 = 0;
        while i < self.counts.len()
            invariant
                i <= self.counts@.len() <= 1000,
                forall|j: int| 0 <= j < self.counts@.len() ==> (#[trigger] self.counts@[j])
                    <= 0x1000_0000_0000,
                acc == spec_window_sum(self.counts@.take(i as int)),
                acc <= (i as int) * 0x1000_0000_0000,
            decreases self.counts@.len() - i,
        {
            proof {
                assert(self.counts@.take(i + 1).drop_last() =~= self.counts@.take(i as int));
            }
            acc = acc + self.counts[i];
            i = i + 1;
        }
        proof {
            assert(self.counts@.take(self.counts@.len() as int) =~= self.counts@);
        }
        acc
    }
}

} // verus!
