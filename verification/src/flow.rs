//! What a step moves: out of each source, into each sink, through each node;
//! the graph after the step, and when a step may be applied.

use crate::amount::Qty;
use crate::model::GraphModel;
use crate::model::NodeModel;
use crate::model::SinkModel;
use crate::model::SourceModel;
use crate::model::StepModel;
use vstd::prelude::*;

verus! {

/// What the sink `j` receives when each entry of `sinks` gets `per`.
pub open spec fn spread(sinks: Seq<usize>, per: real, j: int) -> real
    decreases sinks.len(),
{
    if sinks.len() == 0 {
        0real
    } else {
        spread(sinks.drop_last(), per, j) + (if sinks.last() == j {
            per
        } else {
            0real
        })
    }
}

/// What passes through the node `u` when each sink gets `per`: for each
/// record of the node, `per` times the number of sinks that it feeds.
pub open spec fn charge(nodes: Seq<(usize, nat)>, per: real, u: int) -> real
    decreases nodes.len(),
{
    if nodes.len() == 0 {
        0real
    } else {
        charge(nodes.drop_last(), per, u) + (if nodes.last().0 == u {
            per * (nodes.last().1 as real)
        } else {
            0real
        })
    }
}

/// The nodes recorded for the source `src`: those of the first node entry,
/// from the `q`-th on, that names it; none where no entry does.
pub open spec fn nodes_from(
    node_entries: Seq<(usize, Seq<(usize, nat)>)>,
    src: usize,
    q: nat,
) -> Seq<(usize, nat)>
    decreases node_entries.len() - q,
{
    if q >= node_entries.len() {
        Seq::empty()
    } else if node_entries[q as int].0 == src {
        node_entries[q as int].1
    } else {
        nodes_from(node_entries, src, q + 1)
    }
}

/// The share of one sink of an entry: the step's amount split evenly.
pub open spec fn per_sink(amount: real, sinks: Seq<usize>) -> real {
    amount / (sinks.len() as real)
}

/// What leaves the source `i` in a step of `amount` with these entries.
pub open spec fn outflow(entries: Seq<(usize, Seq<usize>)>, amount: real, i: int) -> real
    decreases entries.len(),
{
    if entries.len() == 0 {
        0real
    } else {
        outflow(entries.drop_last(), amount, i) + (if entries.last().0 == i {
            amount
        } else {
            0real
        })
    }
}

/// What the sink `j` receives in a step of `amount` with these entries.
pub open spec fn inflow(entries: Seq<(usize, Seq<usize>)>, amount: real, j: int) -> real
    decreases entries.len(),
{
    if entries.len() == 0 {
        0real
    } else {
        inflow(entries.drop_last(), amount, j) + spread(
            entries.last().1,
            per_sink(amount, entries.last().1),
            j,
        )
    }
}

/// What passes through the node `u` in a step of `amount` with these entries.
pub open spec fn node_flow(
    entries: Seq<(usize, Seq<usize>)>,
    node_entries: Seq<(usize, Seq<(usize, nat)>)>,
    amount: real,
    u: int,
) -> real
    decreases entries.len(),
{
    if entries.len() == 0 {
        0real
    } else {
        node_flow(entries.drop_last(), node_entries, amount, u) + charge(
            nodes_from(node_entries, entries.last().0, 0),
            per_sink(amount, entries.last().1),
            u,
        )
    }
}

impl StepModel {
    /// The step speaks of this graph: its sources, sinks and nodes are the
    /// graph's, every source has a sink, and its amount is finite unless no
    /// source takes part.
    pub open spec fn fits(self, g: GraphModel) -> bool {
        &&& self.entries.len() == 0 || self.amount is Fin
        &&& forall|k: int|
            0 <= k < self.entries.len() ==> (#[trigger] self.entries[k]).0 < g.sources.len()
                && self.entries[k].1.len() > 0
        &&& forall|k: int, t: int|
            0 <= k < self.entries.len() && 0 <= t < self.entries[k].1.len() ==> (
            #[trigger] self.entries[k].1[t]) < g.sinks.len()
        &&& forall|k: int, t: int|
            0 <= k < self.node_entries.len() && 0 <= t < self.node_entries[k].1.len() ==> (
            #[trigger] self.node_entries[k].1[t]).0 < g.nodes.len()
    }

    /// What leaves the source `i`.
    pub open spec fn out_of(self, i: int) -> real {
        outflow(self.entries, self.amount.val(), i)
    }

    /// What the sink `j` receives.
    pub open spec fn into(self, j: int) -> real {
        inflow(self.entries, self.amount.val(), j)
    }

    /// What passes through the node `u`.
    pub open spec fn through(self, u: int) -> real {
        node_flow(self.entries, self.node_entries, self.amount.val(), u)
    }
}

/// The step takes from no source more than it has, and leaves every sink
/// and node that it touches within its capacity.
pub open spec fn admissible(g: GraphModel, s: StepModel) -> bool {
    &&& forall|i: int| 0 <= i < g.sources.len() ==> #[trigger] s.out_of(i) <= g.sources[i].amount
    &&& forall|j: int|
        0 <= j < g.sinks.len() ==> #[trigger] s.into(j) == 0real || Qty::Fin(
            g.sinks[j].holdings() + s.into(j),
        ).le(g.sinks[j].capacity)
    &&& forall|u: int|
        0 <= u < g.nodes.len() ==> #[trigger] s.through(u) == 0real || Qty::Fin(
            g.nodes[u].amount + s.through(u),
        ).le(g.nodes[u].capacity)
}

/// The graph after the step: each source has given, each sink has received
/// and each node has let through what the step says; nothing else changes.
pub open spec fn applied(g: GraphModel, s: StepModel) -> GraphModel {
    GraphModel {
        sources: Seq::new(
            g.sources.len(),
            |i: int| SourceModel { amount: g.sources[i].amount - s.out_of(i), ..g.sources[i] },
        ),
        sinks: Seq::new(
            g.sinks.len(),
            |j: int| SinkModel { inflow: g.sinks[j].inflow + s.into(j), ..g.sinks[j] },
        ),
        nodes: Seq::new(
            g.nodes.len(),
            |u: int| NodeModel { amount: g.nodes[u].amount + s.through(u), ..g.nodes[u] },
        ),
    }
}

} // verus!
