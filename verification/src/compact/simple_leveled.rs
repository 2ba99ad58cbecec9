//! The simple leveled strategy: level 0 is merged into level 1 when it holds
//! too many tables, and a level into the next when the next is too small
//! beside it.

use crate::lsm_storage::LsmStorageState;
use super::{copy_ids, remove_ids, without};
use vstd::prelude::*;

verus! {

/// The numbers that steer the simple leveled strategy.
#[derive(Debug, Clone, Copy)]
pub struct SimpleLeveledCompactionOptions {
    /// A level is merged into the next when the next holds fewer than this
    /// many tables for each hundred of the level.
    pub size_ratio_percent: usize,
    /// Level 0 is merged into level 1 when it holds at least this many tables.
    pub level0_file_num_compaction_trigger: usize,
    /// The number of levels below level 0.
    pub max_levels: usize,
}

/// A merge of the tables of one level into the next.
#[derive(Debug)]
pub struct SimpleLeveledCompactionTask {
    /// The level merged from; none for level 0.
    pub upper_level: Option<usize>,
    pub upper_level_sst_ids: Vec<usize>,
    /// The level merged into.
    pub lower_level: usize,
    pub lower_level_sst_ids: Vec<usize>,
    pub is_lower_level_bottom_level: bool,
}

/// What a task holds, as plain values.
pub struct TaskView {
    pub upper_level: Option<usize>,
    pub upper_level_sst_ids: Seq<usize>,
    pub lower_level: usize,
    pub lower_level_sst_ids: Seq<usize>,
    pub is_lower_level_bottom_level: bool,
}

impl View for SimpleLeveledCompactionTask {
    type V = TaskView;

    open spec fn view(&self) -> TaskView {
        TaskView {
            upper_level: self.upper_level,
            upper_level_sst_ids: self.upper_level_sst_ids@,
            lower_level: self.lower_level,
            lower_level_sst_ids: self.lower_level_sst_ids@,
            is_lower_level_bottom_level: self.is_lower_level_bottom_level,
        }
    }
}

impl TaskView {
    /// The levels that the task names are among `levels` levels.
    pub open spec fn fits(self, levels: int) -> bool {
        &&& 1 <= self.lower_level <= levels
        &&& self.upper_level matches Some(u) ==> 1 <= u <= levels
    }
}

/// A level with `upper` tables is to be merged into the next with `lower`
/// tables: it has tables, and the next holds fewer than `ratio` for each
/// hundred of them.
pub open spec fn ratio_triggers(upper: int, lower: int, ratio: int) -> bool {
    upper > 0 && lower * 100 < ratio * upper
}

/// The first level from `from` on that is too small beside the level above
/// it; the number of levels where there is none. Levels count from 1.
pub open spec fn first_unbalanced(levels: Seq<(usize, Vec<usize>)>, ratio: int, from: int) -> int
    decreases levels.len() - from,
{
    if from >= levels.len() {
        levels.len() as int
    } else if from >= 1 && ratio_triggers(
        levels[from - 1].1@.len() as int,
        levels[from].1@.len() as int,
        ratio,
    ) {
        from
    } else {
        first_unbalanced(levels, ratio, from + 1)
    }
}

/// The first level that is too small lies at or after the level where the
/// search starts, or is the number of levels.
pub proof fn lemma_first_unbalanced(levels: Seq<(usize, Vec<usize>)>, ratio: int, from: int)
    requires
        0 <= from <= levels.len(),
    ensures
        from <= first_unbalanced(levels, ratio, from) <= levels.len(),
    decreases levels.len() - from,
{
    if from < levels.len() {
        lemma_first_unbalanced(levels, ratio, from + 1);
    }
}

/// The task that the strategy asks for where level 0 holds `l0` and the
/// deeper levels hold `levels`.
pub open spec fn simple_task(
    options: SimpleLeveledCompactionOptions,
    l0: Seq<usize>,
    levels: Seq<(usize, Vec<usize>)>,
) -> Option<TaskView> {
    let i = first_unbalanced(levels, options.size_ratio_percent as int, 1);
    if l0.len() >= options.level0_file_num_compaction_trigger {
        Some(
            TaskView {
                upper_level: None,
                upper_level_sst_ids: l0,
                lower_level: 1,
                lower_level_sst_ids: levels[0].1@,
                is_lower_level_bottom_level: levels.len() == 1,
            },
        )
    } else if i < levels.len() {
        Some(
            TaskView {
                upper_level: Some(i as usize),
                upper_level_sst_ids: levels[i - 1].1@,
                lower_level: (i + 1) as usize,
                lower_level_sst_ids: levels[i].1@,
                is_lower_level_bottom_level: levels.len() == i + 1,
            },
        )
    } else {
        None
    }
}

/// What level `i` (from 0) holds after the task: the output in the level
/// merged into, what was not merged in the level merged from, and in every
/// other level what it held.
pub open spec fn applied_level(
    levels: Seq<(usize, Vec<usize>)>,
    task: TaskView,
    output: Seq<usize>,
    i: int,
) -> Seq<usize> {
    if i == task.lower_level - 1 {
        output
    } else if task.upper_level is Some && task.upper_level->0 == i + 1 {
        without(levels[i].1@, task.upper_level_sst_ids)
    } else {
        levels[i].1@
    }
}

/// `after` is `before` with the task applied: memtables and tables are the
/// same, level 0 has lost the merged tables if it was merged from, and the
/// deeper levels hold what `applied_level` says.
pub open spec fn applied(
    before: LsmStorageState,
    task: TaskView,
    output: Seq<usize>,
    after: LsmStorageState,
) -> bool {
    &&& after.memtable == before.memtable
    &&& after.imm_memtables == before.imm_memtables
    &&& after.sstables == before.sstables
    &&& after.l0_sstables@ == if task.upper_level is None {
        without(before.l0_sstables@, task.upper_level_sst_ids)
    } else {
        before.l0_sstables@
    }
    &&& after.levels@.len() == before.levels@.len()
    &&& forall|i: int|
        0 <= i < before.levels@.len() ==> (#[trigger] after.levels@[i]).0 == before.levels@[i].0
            && after.levels@[i].1@ == applied_level(before.levels@, task, output, i)
}

/// Tells whether a level with `upper` tables is to be merged into the next
/// with `lower` tables.
fn unbalanced(upper: usize, lower: usize, ratio: usize) -> (r: bool)
    ensures
        r == ratio_triggers(upper as int, lower as int, ratio as int),
{
    if upper == 0 {
        return false;
    }
    assert(lower * 100 <= u128::MAX && ratio * upper <= u128::MAX) by (nonlinear_arith)
        requires
            lower <= u64::MAX,
            ratio <= u64::MAX,
            upper <= u64::MAX,
    ;
    let lhs: u128 = (lower as u128) * 100;
    let rhs: u128 = (ratio as u128) * (upper as u128);
    lhs < rhs
}

/// Decides the merges of the simple leveled strategy.
#[derive(Clone)]
pub struct SimpleLeveledCompactionController {
    options: SimpleLeveledCompactionOptions,
}

impl SimpleLeveledCompactionController {
    /// The numbers that steer the strategy.
    pub closed spec fn options_spec(&self) -> SimpleLeveledCompactionOptions {
        self.options
    }

    /// The task that the strategy asks for in a state.
    pub open spec fn task_spec(&self, snapshot: LsmStorageState) -> Option<TaskView> {
        simple_task(self.options_spec(), snapshot.l0_sstables@, snapshot.levels@)
    }

    /// A controller steered by `options`.
    pub fn new(options: SimpleLeveledCompactionOptions) -> (r: Self)
        ensures
            r.options_spec() == options,
    {
        Self { options }
    }

    /// The task that the strategy asks for in this state, if any: level 0
    /// into level 1 where level 0 holds enough tables; else the first level
    /// that is too small beside the one above it takes that one in.
    pub fn generate_compaction_task(&self, snapshot: &LsmStorageState) -> (r: Option<
        SimpleLeveledCompactionTask,
    >)
        requires
            snapshot.levels@.len() > 0,
        ensures
            r is Some <==> self.task_spec(*snapshot) is Some,
            r matches Some(task) ==> Some(task@) == self.task_spec(*snapshot),
    {
        let n: usize = snapshot.levels.len();
        if snapshot.l0_sstables.len() >= self.options.level0_file_num_compaction_trigger {
            return Some(
                SimpleLeveledCompactionTask {
                    upper_level: None,
                    upper_level_sst_ids: copy_ids(snapshot.l0_sstables.as_slice()),
                    lower_level: 1,
                    lower_level_sst_ids: copy_ids(snapshot.levels[0].1.as_slice()),
                    is_lower_level_bottom_level: n == 1,
                },
            );
        }
        let ghost ratio = self.options.size_ratio_percent as int;
        let mut i: usize = 1;
        while i < n
            invariant
                1 <= i,
                n == snapshot.levels@.len(),
                ratio == self.options.size_ratio_percent as int,
                snapshot.l0_sstables@.len() < self.options.level0_file_num_compaction_trigger,
                first_unbalanced(snapshot.levels@, ratio, 1) == first_unbalanced(
                    snapshot.levels@,
                    ratio,
                    i as int,
                ),
            decreases n - i,
        {
            let upper: usize = snapshot.levels[i - 1].1.len();
            let lower: usize = snapshot.levels[i].1.len();
            if unbalanced(upper, lower, self.options.size_ratio_percent) {
                return Some(
                    SimpleLeveledCompactionTask {
                        upper_level: Some(i),
                        upper_level_sst_ids: copy_ids(snapshot.levels[i - 1].1.as_slice()),
                        lower_level: i + 1,
                        lower_level_sst_ids: copy_ids(snapshot.levels[i].1.as_slice()),
                        is_lower_level_bottom_level: n == i + 1,
                    },
                );
            }
            i = i + 1;
        }
        None
    }

    /// The state after the tables of `task` have been merged into the tables
    /// `output`, and the identifiers of the merged tables. Tables that came
    /// to level 0 after the task was made stay there.
    pub fn apply_compaction_result(
        &self,
        snapshot: LsmStorageState,
        task: &SimpleLeveledCompactionTask,
        output: &[usize],
    ) -> (r: (LsmStorageState, Vec<usize>))
        requires
            task@.fits(snapshot.levels@.len() as int),
        ensures
            applied(snapshot, task@, output@, r.0),
            r.1@ == task@.upper_level_sst_ids + task@.lower_level_sst_ids,
    {
        let mut new_snapshot = snapshot;
        let ghost before = snapshot.levels@;
        match task.upper_level {
            None => {
                new_snapshot.l0_sstables = remove_ids(
                    new_snapshot.l0_sstables.as_slice(),
                    task.upper_level_sst_ids.as_slice(),
                );
            },
            Some(u) => {
                let level: usize = new_snapshot.levels[u - 1].0;
                let kept = remove_ids(
                    new_snapshot.levels[u - 1].1.as_slice(),
                    task.upper_level_sst_ids.as_slice(),
                );
                new_snapshot.levels.set(u - 1, (level, kept));
            },
        }
        let ghost mid = new_snapshot.levels@;
        assert forall|i: int| 0 <= i < before.len() implies (#[trigger] mid[i]).0 == before[i].0
            && mid[i].1@ == if task.upper_level is Some && task.upper_level->0 == i + 1 {
            without(before[i].1@, task.upper_level_sst_ids@)
        } else {
            before[i].1@
        } by {}
        let level: usize = new_snapshot.levels[task.lower_level - 1].0;
        new_snapshot.levels.set(task.lower_level - 1, (level, copy_ids(output)));
        assert forall|i: int| 0 <= i < before.len() implies (#[trigger] new_snapshot.levels@[i]).0
            == before[i].0 && new_snapshot.levels@[i].1@ == applied_level(
            before,
            task@,
            output@,
            i,
        ) by {
            if i != task.lower_level - 1 {
                assert(new_snapshot.levels@[i] == mid[i]);
            }
        }
        let mut old_sst_ids = copy_ids(task.upper_level_sst_ids.as_slice());
        let mut i: usize = 0;
        while i < task.lower_level_sst_ids.len()
            invariant
                0 <= i <= task.lower_level_sst_ids@.len(),
                old_sst_ids@ == task.upper_level_sst_ids@ + task.lower_level_sst_ids@.subrange(
                    0,
                    i as int,
                ),
            decreases task.lower_level_sst_ids@.len() - i,
        {
            old_sst_ids.push(task.lower_level_sst_ids[i]);
            assert(task.lower_level_sst_ids@.subrange(0, i + 1) =~= task.lower_level_sst_ids@.subrange(
                0,
                i as int,
            ).push(task.lower_level_sst_ids@[i as int]));
            i = i + 1;
        }
        assert(task.lower_level_sst_ids@.subrange(0, task.lower_level_sst_ids@.len() as int)
            =~= task.lower_level_sst_ids@);
        (new_snapshot, old_sst_ids)
    }
}

} // verus!
