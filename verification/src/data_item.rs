//! Settings of how task inputs and outputs move between resources.
use vstd::prelude::*;

verus! {

/// When the outputs of a task are sent to the resources of its consumers.
#[derive(Clone, Copy, Debug, PartialEq, Eq, Structural)]
pub enum DataTransferStrategy {
    /// Outputs are sent as soon as they are produced.
    Eager,
    /// Outputs are sent when a consumer needs them.
    Lazy,
}

/// How data items travel between resources.
#[derive(Clone, Copy, Debug, PartialEq, Eq, Structural)]
pub enum DataTransferMode {
    /// Through the master node.
    ViaMasterNode,
    /// Directly between resources.
    Direct,
    /// As the scheduler orders.
    Manual,
}

/// The strategy that a parameter value names: `Eager` or `Lazy`, written
/// exactly so.
pub open spec fn strategy_named(text: Seq<char>) -> Option<DataTransferStrategy> {
    if text == "Eager"@ {
        Some(DataTransferStrategy::Eager)
    } else if text == "Lazy"@ {
        Some(DataTransferStrategy::Lazy)
    } else {
        None
    }
}

impl DataTransferStrategy {
    /// Parses a strategy name; `None` for any other text.
    pub fn parse(text: &String) -> (r: Option<DataTransferStrategy>)
        ensures
            r == strategy_named(text@),
    {
        let eager: String = "Eager".to_owned();
        let lazy: String = "Lazy".to_owned();
        if text.eq(&eager) {
            Some(DataTransferStrategy::Eager)
        } else if text.eq(&lazy) {
            Some(DataTransferStrategy::Lazy)
        } else {
            None
        }
    }
}

/// The name of each strategy.
pub open spec fn strategy_text(strategy: DataTransferStrategy) -> Seq<char> {
    match strategy {
        DataTransferStrategy::Eager => "Eager"@,
        DataTransferStrategy::Lazy => "Lazy"@,
    }
}

/// A text names a strategy exactly when it is that strategy's name.
pub proof fn lemma_strategy_named(text: Seq<char>, strategy: DataTransferStrategy)
    ensures
        strategy_named(text) == Some(strategy) <==> text == strategy_text(strategy),
{
    reveal_strlit("Eager");
    reveal_strlit("Lazy");
    assert("Eager"@ =~= seq!['E', 'a', 'g', 'e', 'r']);
    assert("Lazy"@ =~= seq!['L', 'a', 'z', 'y']);
}

} // verus!
