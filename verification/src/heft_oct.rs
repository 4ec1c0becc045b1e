//! HEFT ranking with the resource selection of PEFT: tasks are taken in
//! order of their upward rank, and each goes to the resource that minimises
//! its finish time plus its optimistic cost (the OCT table).
//!
//! The floating-point work (ranks, the OCT table, the finish-time estimates)
//! is done by the caller, who hands over the integer keys of those values
//! (see `order::total_order_key`); the decisions taken from them are here
//! and in `order`.
use crate::data_item::DataTransferMode;
use crate::data_item::DataTransferStrategy;
use crate::order::is_stable_order;
use crate::order::stable_order;
use crate::scheduler::SchedulerParams;
use vstd::prelude::*;

verus! {

/// The strategy that scheduler parameters select: the value of
/// `data_transfer_strategy` when it names one, else `Eager`.
pub open spec fn configured_strategy(params: Map<Seq<char>, Seq<char>>) -> DataTransferStrategy {
    if params.contains_key("data_transfer_strategy"@) {
        match crate::data_item::strategy_named(params["data_transfer_strategy"@]) {
            Some(s) => s,
            None => DataTransferStrategy::Eager,
        }
    } else {
        DataTransferStrategy::Eager
    }
}

/// One planning step of the task order, from the recorded order `recorded`
/// and the rank keys `rank_keys` of the tasks: `ids` is the order in which
/// the tasks are scheduled, `recorded_after` the recorded order afterwards.
/// With no order recorded, the tasks go by decreasing rank (ties by task id)
/// and that order is recorded; otherwise the recorded order is used up.
pub open spec fn plans_task_order(
    recorded: Seq<usize>,
    rank_keys: Seq<i64>,
    ids: Seq<usize>,
    recorded_after: Seq<usize>,
) -> bool {
    if recorded.len() == 0 {
        &&& is_stable_order(rank_keys, true, ids)
        &&& recorded_after == ids
    } else {
        &&& ids == recorded
        &&& recorded_after.len() == 0
    }
}

/// Scheduler that ranks tasks as HEFT does and selects resources by the
/// optimistic cost table.
pub struct HeftOctScheduler {
    data_transfer_strategy: DataTransferStrategy,
    /// The task order of the last schedule, or the order to use in the next.
    pub task_order: Vec<usize>,
}

impl HeftOctScheduler {
    /// The data transfer strategy of the scheduler.
    pub closed spec fn strategy(&self) -> DataTransferStrategy {
        self.data_transfer_strategy
    }

    /// The recorded task order.
    pub closed spec fn recorded(&self) -> Seq<usize> {
        self.task_order@
    }

    /// A scheduler with the eager strategy and no task order.
    pub fn new() -> (r: HeftOctScheduler)
        ensures
            r.strategy() == DataTransferStrategy::Eager,
            r.recorded().len() == 0,
    {
        HeftOctScheduler { data_transfer_strategy: DataTransferStrategy::Eager, task_order: Vec::new() }
    }

    /// A scheduler configured by `params`: the strategy is the value of
    /// `data_transfer_strategy` when that names one, else eager.
    pub fn from_params(params: &SchedulerParams) -> (r: HeftOctScheduler)
        ensures
            r.strategy() == configured_strategy(params@),
            r.recorded().len() == 0,
    {
        let key: String = "data_transfer_strategy".to_owned();
        let strategy = match params.get(&key) {
            Some(text) => match DataTransferStrategy::parse(text) {
                Some(s) => s,
                None => DataTransferStrategy::Eager,
            },
            None => DataTransferStrategy::Eager,
        };
        HeftOctScheduler { data_transfer_strategy: strategy, task_order: Vec::new() }
    }

    /// Sets the data transfer strategy.
    pub fn with_data_transfer_strategy(self, data_transfer_strategy: DataTransferStrategy) -> (r: HeftOctScheduler)
        ensures
            r.strategy() == data_transfer_strategy,
            r.recorded() == self.recorded(),
    {
        HeftOctScheduler { data_transfer_strategy, task_order: self.task_order }
    }

    /// Sets the task order of the next schedule.
    pub fn with_task_order(self, task_order: Vec<usize>) -> (r: HeftOctScheduler)
        ensures
            r.strategy() == self.strategy(),
            r.recorded() == task_order@,
    {
        HeftOctScheduler { data_transfer_strategy: self.data_transfer_strategy, task_order }
    }

    /// The data transfer strategy of the scheduler.
    pub fn data_transfer_strategy(&self) -> (r: DataTransferStrategy)
        ensures
            r == self.strategy(),
    {
        self.data_transfer_strategy
    }

    /// The order in which the tasks are scheduled, from the keys of their
    /// ranks: with no order recorded, by decreasing rank (ties by task id),
    /// and that order is recorded; otherwise the recorded order, which is
    /// used up.
    pub fn task_ids(&mut self, rank_keys: &Vec<i64>) -> (ids: Vec<usize>)
        ensures
            plans_task_order(old(self).recorded(), rank_keys@, ids@, final(self).recorded()),
            final(self).strategy() == old(self).strategy(),
    {
        let ranked = stable_order(rank_keys, true);
        if self.task_order.len() == 0 {
            self.task_order = ranked.clone();
            proof {
                assert(self.task_order@ =~= ranked@);
            }
            ranked
        } else {
            let mut recorded: Vec<usize> = Vec::new();
            std::mem::swap(&mut recorded, &mut self.task_order);
            recorded
        }
    }

    /// Whether a run starts with a warning: the scheduler always uses the
    /// minimal number of cores of a task, so it warns when some task accepts
    /// a range of core counts (`task_cores` holds each task's minimum and
    /// maximum). The manual transfer mode is not supported.
    pub fn start_warning(&self, mode: DataTransferMode, task_cores: &Vec<(u32, u32)>) -> (warn: bool)
        requires
            mode != DataTransferMode::Manual,
        ensures
            warn == exists|i: int| 0 <= i < task_cores.len() && #[trigger] task_cores@[i].0 != task_cores@[i].1,
    {
        let mut i: usize = 0;
        while i < task_cores.len()
            invariant
                i <= task_cores.len(),
                forall|k: int| 0 <= k < i ==> #[trigger] task_cores@[k].0 == task_cores@[k].1,
            decreases task_cores.len() - i,
        {
            if task_cores[i].0 != task_cores[i].1 {
                return true;
            }
            i = i + 1;
        }
        false
    }

    /// The schedule is computed once, at the start.
    pub fn is_static(&self) -> (r: bool)
        ensures
            r,
    {
        true
    }

    /// Takes the recorded task order, leaving none.
    pub fn get_task_order(&mut self) -> (r: Vec<usize>)
        ensures
            r@ == old(self).recorded(),
            final(self).recorded().len() == 0,
            final(self).strategy() == old(self).strategy(),
    {
        let mut recorded: Vec<usize> = Vec::new();
        std::mem::swap(&mut recorded, &mut self.task_order);
        recorded
    }
}

impl Default for HeftOctScheduler {
    fn default() -> (r: HeftOctScheduler)
        ensures
            r.strategy() == DataTransferStrategy::Eager,
            r.recorded().len() == 0,
    {
        Self::new()
    }
}

/// Planning is deterministic: with no order recorded, the same rank keys give
/// the same task order.
pub proof fn lemma_plan_deterministic(
    rank_keys: Seq<i64>,
    ids1: Seq<usize>,
    after1: Seq<usize>,
    ids2: Seq<usize>,
    after2: Seq<usize>,
)
    requires
        plans_task_order(Seq::empty(), rank_keys, ids1, after1),
        plans_task_order(Seq::empty(), rank_keys, ids2, after2),
    ensures
        ids1 == ids2,
        after1 == after2,
{
    crate::order::lemma_stable_order_unique(rank_keys, true, ids1, ids2);
}

/// An order recorded by one schedule and handed to the next (whatever its
/// ranks) is replayed exactly, and then no order is recorded; the planned
/// order schedules every task once.
pub proof fn lemma_recorded_order_replays(
    rank_keys: Seq<i64>,
    other_keys: Seq<i64>,
    ids1: Seq<usize>,
    after1: Seq<usize>,
    ids2: Seq<usize>,
    after2: Seq<usize>,
)
    requires
        rank_keys.len() > 0,
        plans_task_order(Seq::empty(), rank_keys, ids1, after1),
        plans_task_order(after1, other_keys, ids2, after2),
    ensures
        ids2 == ids1,
        after2.len() == 0,
        forall|t: usize| t < rank_keys.len() ==> ids1.contains(t),
        ids1.len() == rank_keys.len(),
{
}

/// When the parameter `data_transfer_strategy` names a strategy, that
/// strategy is configured; when it is missing or names none, the strategy is
/// eager. Setting the parameter to the name of a strategy configures that
/// strategy, whatever else is set.
pub proof fn lemma_configured_strategy(params: Map<Seq<char>, Seq<char>>, strategy: DataTransferStrategy)
    ensures
        params.contains_key("data_transfer_strategy"@) && crate::data_item::strategy_named(
            params["data_transfer_strategy"@],
        ) == Some(strategy) ==> configured_strategy(params) == strategy,
        !params.contains_key("data_transfer_strategy"@) ==> configured_strategy(params) == DataTransferStrategy::Eager,
        params.contains_key("data_transfer_strategy"@) && crate::data_item::strategy_named(
            params["data_transfer_strategy"@],
        ) is None ==> configured_strategy(params) == DataTransferStrategy::Eager,
        configured_strategy(
            params.insert("data_transfer_strategy"@, crate::data_item::strategy_text(strategy)),
        ) == strategy,
{
    let set = params.insert("data_transfer_strategy"@, crate::data_item::strategy_text(strategy));
    crate::data_item::lemma_strategy_named(crate::data_item::strategy_text(strategy), strategy);
    assert(set["data_transfer_strategy"@] == crate::data_item::strategy_text(strategy));
}

} // verus!
