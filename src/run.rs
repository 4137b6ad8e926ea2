use vstd::prelude::*;

verus! {

/// How the simulation reacts to nodes that crash while the tree is built.
#[derive(Clone, Copy, Debug, PartialEq, Eq, Structural)]
pub enum FailureHandlingMode {
    /// No recovery: a dead receiver swallows its messages.
    FullFailurePropagation,
    /// Subtrees under a node that died during construction are switched off.
    LocalFailurePropagation,
    /// Every failure during construction is repaired, at a cost in construction time.
    NodeReplacement,
}

impl FailureHandlingMode {
    /// The variant's name, as written in traces.
    pub fn name(&self) -> (r: &'static str)
        ensures
            r@ == failure_mode_name(*self),
    {
        match self {
            FailureHandlingMode::FullFailurePropagation => "FullFailurePropagation",
            FailureHandlingMode::LocalFailurePropagation => "LocalFailurePropagation",
            FailureHandlingMode::NodeReplacement => "NodeReplacement",
        }
    }
}

/// Name of a failure-handling mode.
pub open spec fn failure_mode_name(m: FailureHandlingMode) -> Seq<char> {
    match m {
        FailureHandlingMode::FullFailurePropagation => "FullFailurePropagation"@,
        FailureHandlingMode::LocalFailurePropagation => "LocalFailurePropagation"@,
        FailureHandlingMode::NodeReplacement => "NodeReplacement"@,
    }
}

/// The configuration knobs that select failure-handling semantics.
#[derive(Clone, Copy, Debug, PartialEq, Eq, Structural)]
pub struct BuildingBlocks {
    pub failure_handling: FailureHandlingMode,
}

impl BuildingBlocks {
    /// The default building blocks: the minimal ones.
    pub fn default() -> (r: BuildingBlocks)
        ensures
            r.failure_handling == FailureHandlingMode::FullFailurePropagation,
    {
        BuildingBlocks::minimal()
    }

    /// No failure handling at all.
    pub fn minimal() -> (r: BuildingBlocks)
        ensures
            r.failure_handling == FailureHandlingMode::FullFailurePropagation,
    {
        BuildingBlocks { failure_handling: FailureHandlingMode::FullFailurePropagation }
    }

    /// Failed subtrees are dropped by their parents.
    pub fn tolerant() -> (r: BuildingBlocks)
        ensures
            r.failure_handling == FailureHandlingMode::LocalFailurePropagation,
    {
        BuildingBlocks { failure_handling: FailureHandlingMode::LocalFailurePropagation }
    }

    /// Failed nodes are replaced.
    pub fn resilient() -> (r: BuildingBlocks)
        ensures
            r.failure_handling == FailureHandlingMode::NodeReplacement,
    {
        BuildingBlocks { failure_handling: FailureHandlingMode::NodeReplacement }
    }
}

/// Cost of each kind of operation, in time units.
#[derive(Clone, Copy, Debug, PartialEq, Eq, Structural)]
pub struct CostsSettings {
    pub crypto: u64,
    pub comm: u64,
    pub compute: u64,
}

/// Shape of the tree.
#[derive(Clone, Copy, Debug, PartialEq, Eq, Structural)]
pub struct TreeSettings {
    pub fanout: u8,
    pub depth: u8,
    pub group_size: u8,
}

/// Everything a run is configured with.
#[derive(Debug)]
pub struct RunSettings {
    pub building_blocks: BuildingBlocks,
    /// Mean lifetime of a node, in time units.
    pub average_failure_time: u64,
    pub health_check_period: u64,
    pub costs: CostsSettings,
    pub tree: TreeSettings,
    pub seed: String,
}

/// Largest value that a time computed here may take; longer spans stop there.
pub open spec fn clamp_time(t: int) -> u64 {
    if t > u64::MAX {
        u64::MAX
    } else if t < 0 {
        0
    } else {
        t as u64
    }
}

/// Time needed to build a tree of the given depth: per level four signatures and
/// two message latencies.
pub open spec fn construction_latency(tree: TreeSettings, costs: CostsSettings) -> u64 {
    clamp_time(tree.depth as int * (4 * costs.crypto as int + 2 * costs.comm as int))
}

impl RunSettings {
    /// A copy of these settings.
    pub fn copy(&self) -> (r: RunSettings)
        ensures
            r == *self,
    {
        RunSettings {
            building_blocks: self.building_blocks,
            average_failure_time: self.average_failure_time,
            health_check_period: self.health_check_period,
            costs: self.costs,
            tree: self.tree,
            seed: self.seed.clone(),
        }
    }

    /// Time that building the tree takes before the first message is handled
    /// (the largest time, where that does not fit).
    pub fn tree_construction_latency(&self) -> (r: u64)
        ensures
            r == construction_latency(self.tree, self.costs),
    {
        let per_level: u128 = 4 * (self.costs.crypto as u128) + 2 * (self.costs.comm as u128);
        let depth: u128 = self.tree.depth as u128;
        assert(depth * per_level <= 255 * (6 * u64::MAX as int)) by (nonlinear_arith)
            requires
                depth <= 255,
                per_level <= 6 * u64::MAX as int,
        ;
        let total: u128 = depth * per_level;
        if total > u64::MAX as u128 {
            u64::MAX
        } else {
            total as u64
        }
    }
}

} // verus!
