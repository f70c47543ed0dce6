//! The mathematical model of the allocation: graphs, probes and steps as
//! plain values over exact numbers, and what one step does to a graph.

use crate::amount::Qty;
use crate::date::Date;
use crate::flow::charge;
use vstd::prelude::*;

verus! {

/// A routing expression: groups in the order in which they are tried, each a
/// list of node indices that take part together.
pub type Route = Seq<Seq<usize>>;

/// What a routing node leads to.
pub enum Target {
    /// A sink, by index.
    Val(usize),
    /// A nested routing expression.
    Expr(Route),
}

/// A routing node: where it leads, what has passed through it and how much may.
pub struct NodeModel {
    pub target: Target,
    pub amount: real,
    pub capacity: Qty,
}

/// A sink: how much it may hold, what it held at the start and what has come in.
pub struct SinkModel {
    pub capacity: Qty,
    pub balance: real,
    pub inflow: real,
    pub date: Option<Date>,
    pub ask_for_balance: bool,
}

/// A source: what it still has to give, where it sends it, and whether its
/// amount was declared.
pub struct SourceModel {
    pub amount: real,
    pub to: Route,
    pub declared: bool,
}

/// A graph: sources, sinks and the arena of routing nodes.
pub struct GraphModel {
    pub sources: Seq<SourceModel>,
    pub sinks: Seq<SinkModel>,
    pub nodes: Seq<NodeModel>,
}

/// Why a step is no larger than it is.
#[derive(Clone, Copy, Debug, PartialEq, Eq, Structural)]
pub enum StopReason {
    NodeFull,
    SourceDepleted,
    SinkFull,
}

/// Every node index of `r` is below `bound`.
pub open spec fn route_below(r: Route, bound: int) -> bool {
    forall|j: int, k: int| 0 <= j < r.len() && 0 <= k < r[j].len() ==> (#[trigger] r[j][k]) < bound
}

impl SinkModel {
    /// What the sink holds: its opening balance and what has come in.
    pub open spec fn holdings(self) -> real {
        self.balance + self.inflow
    }

    /// The sink takes nothing more.
    pub open spec fn full(self) -> bool {
        self.capacity.le(Qty::Fin(self.holdings()))
    }

    /// The sink holds no more than it may, or has never received anything.
    pub open spec fn within_capacity(self) -> bool {
        self.inflow == 0real || Qty::Fin(self.holdings()).le(self.capacity)
    }

    /// The sink holds no more than it may.
    pub open spec fn holds_within(self) -> bool {
        Qty::Fin(self.holdings()).le(self.capacity)
    }
}

impl NodeModel {
    /// Nothing more may pass through the node.
    pub open spec fn saturated(self) -> bool {
        self.capacity.le(Qty::Fin(self.amount))
    }

    /// What may still pass through the node.
    pub open spec fn rest(self) -> Qty {
        match self.capacity {
            Qty::Inf => Qty::Inf,
            Qty::Fin(c) => Qty::Fin(c - self.amount),
        }
    }

    /// No more has passed through the node than may.
    pub open spec fn within_capacity(self) -> bool {
        Qty::Fin(self.amount).le(self.capacity)
    }
}

impl GraphModel {
    /// Indices point where they should: a node to a sink or to nodes made
    /// before it, a source to nodes. No source has less than nothing, and
    /// the sources can be numbered by machine integers.
    pub open spec fn wf(self) -> bool {
        &&& self.sources.len() <= usize::MAX
        &&& forall|i: int| 0 <= i < self.sources.len() ==> (#[trigger] self.sources[i]).amount >= 0real
        &&& forall|u: int|
            0 <= u < self.nodes.len() ==> match (#[trigger] self.nodes[u]).target {
                Target::Val(i) => i < self.sinks.len(),
                Target::Expr(e) => route_below(e, u),
            }
        &&& forall|i: int|
            0 <= i < self.sources.len() ==> route_below(
                (#[trigger] self.sources[i]).to,
                self.nodes.len() as int,
            )
    }

    /// No sink that has received anything and no node holds more than it may.
    pub open spec fn within_capacity(self) -> bool {
        &&& forall|j: int| 0 <= j < self.sinks.len() ==> (#[trigger] self.sinks[j]).within_capacity()
        &&& forall|u: int| 0 <= u < self.nodes.len() ==> (#[trigger] self.nodes[u]).within_capacity()
    }

    /// No sink and no node holds more than it may, opening balances counted.
    pub open spec fn holds_within(self) -> bool {
        &&& forall|j: int| 0 <= j < self.sinks.len() ==> (#[trigger] self.sinks[j]).holds_within()
        &&& forall|u: int| 0 <= u < self.nodes.len() ==> (#[trigger] self.nodes[u]).within_capacity()
    }
}

/// What a probe of a routing expression finds: the sinks that can be reached,
/// the capped nodes on the way with the number of sinks that each feeds, and
/// the tightest room met, per sink.
pub struct Probe {
    pub sinks: Seq<usize>,
    pub nodes: Seq<(usize, nat)>,
    pub limit: Qty,
}

impl Probe {
    /// The probe with these three parts.
    pub open spec fn of(sinks: Seq<usize>, nodes: Seq<(usize, nat)>, limit: Qty) -> Probe {
        Probe { sinks, nodes, limit }
    }

    /// Nothing found, nothing limiting.
    pub open spec fn empty() -> Probe {
        Probe { sinks: Seq::empty(), nodes: Seq::empty(), limit: Qty::Inf }
    }
}

/// The room `rest` split over the `m` sinks that a node feeds.
pub open spec fn per_fed(rest: Qty, m: nat) -> Qty {
    match rest {
        Qty::Inf => Qty::Inf,
        Qty::Fin(r) => Qty::Fin(r / (m as real)),
    }
}

/// The smaller of two bounds; the first where they are equal.
pub open spec fn tighter(a: Qty, b: Qty) -> Qty {
    if b.lt(a) {
        b
    } else {
        a
    }
}

/// The probe `acc` after the node `u`. A saturated node, a node that leads
/// to a full sink and a nested expression that reaches no sink are dead
/// paths and change nothing. Otherwise the sinks that the node feeds are
/// added; a capped node is recorded with their number, and its room, split
/// over them, tightens the limit. An uncapped node bounds nothing.
pub open spec fn probe_member(g: GraphModel, u: usize, acc: Probe, bound: nat) -> Probe
    decreases bound, 0nat, 0nat,
{
    if u >= bound || g.nodes[u as int].saturated() {
        acc
    } else {
        let node = g.nodes[u as int];
        match node.target {
            Target::Val(i) => if g.sinks[i as int].full() {
                acc
            } else {
                Probe {
                    sinks: acc.sinks.push(i),
                    nodes: if node.capacity is Fin {
                        acc.nodes.push((u, 1nat))
                    } else {
                        acc.nodes
                    },
                    limit: tighter(acc.limit, per_fed(node.rest(), 1)),
                }
            },
            Target::Expr(e) => {
                let sub = probe_groups(g, e, 0, u as nat);
                if sub.sinks.len() == 0 {
                    acc
                } else {
                    Probe {
                        sinks: acc.sinks + sub.sinks,
                        nodes: if node.capacity is Fin {
                            (acc.nodes + sub.nodes).push((u, sub.sinks.len()))
                        } else {
                            acc.nodes + sub.nodes
                        },
                        limit: tighter(
                            tighter(acc.limit, sub.limit),
                            per_fed(node.rest(), sub.sinks.len()),
                        ),
                    }
                }
            },
        }
    }
}

/// The probe `acc` after the first `k` members of the group `and`.
pub open spec fn probe_group(g: GraphModel, and: Seq<usize>, k: nat, acc: Probe, bound: nat) -> Probe
    decreases bound, 1nat, k,
{
    if k == 0 || k > and.len() {
        acc
    } else {
        probe_member(g, and[k - 1], probe_group(g, and, (k - 1) as nat, acc, bound), bound)
    }
}

/// The probe of the groups of `or` from the `j`-th on: the first group that
/// reaches a sink is the result; a group that reaches none leaves no trace.
pub open spec fn probe_groups(g: GraphModel, or: Route, j: nat, bound: nat) -> Probe
    decreases bound, 2nat, or.len() - j,
{
    if j >= or.len() {
        Probe::empty()
    } else {
        let p = probe_group(g, or[j as int], or[j as int].len(), Probe::empty(), bound);
        if p.sinks.len() > 0 {
            p
        } else {
            probe_groups(g, or, j + 1, bound)
        }
    }
}

/// The probe of a routing expression of the graph.
pub open spec fn probe(g: GraphModel, or: Route) -> Probe {
    probe_groups(g, or, 0, g.nodes.len())
}

/// One step of the allocation: for each source that takes part its sinks and
/// the capped nodes on the way, the amount that each of these sources gives,
/// and what kept the amount from being larger.
pub struct StepModel {
    pub entries: Seq<(usize, Seq<usize>)>,
    pub node_entries: Seq<(usize, Seq<(usize, nat)>)>,
    pub amount: Qty,
    pub reason: StopReason,
}

/// A step under construction, with the share of it that each sink receives
/// and the share of it that passes through each node.
pub struct PlanAcc {
    pub step: StepModel,
    pub fracs: Seq<real>,
    pub node_fracs: Seq<real>,
}

/// The shares `fracs` after each of the first `k` entries of `sinks` got
/// `share` more.
pub open spec fn add_shares(fracs: Seq<real>, sinks: Seq<usize>, k: nat, share: real) -> Seq<real>
    decreases k,
{
    if k == 0 || k > sinks.len() {
        fracs
    } else {
        let f = add_shares(fracs, sinks, (k - 1) as nat, share);
        let i = sinks[k - 1] as int;
        if i < f.len() {
            f.update(i, f[i] + share)
        } else {
            f
        }
    }
}

/// The shares of the nodes after a source with these records gave each of
/// its sinks `share`: every record adds `share` once for each sink that the
/// node feeds.
pub open spec fn add_node_shares(node_fracs: Seq<real>, nodes: Seq<(usize, nat)>, share: real) -> Seq<
    real,
> {
    Seq::new(node_fracs.len(), |u: int| node_fracs[u] + charge(nodes, share, u))
}

/// `limit` taken `n` times; unbounded stays unbounded.
pub open spec fn scaled(limit: Qty, n: nat) -> Qty {
    match limit {
        Qty::Inf => Qty::Inf,
        Qty::Fin(l) => Qty::Fin(l * (n as real)),
    }
}

/// The step after the first `n` sources were looked at. A source with
/// nothing left, and one that reaches no sink, is passed over. Any other
/// takes part: it bounds the step by what it has left and by the limit of
/// its probe for each of its sinks, and gives each sink an equal share.
pub open spec fn plan_sources(g: GraphModel, n: nat) -> PlanAcc
    decreases n,
{
    if n == 0 || n > g.sources.len() {
        PlanAcc {
            step: StepModel {
                entries: Seq::empty(),
                node_entries: Seq::empty(),
                amount: Qty::Inf,
                reason: StopReason::NodeFull,
            },
            fracs: Seq::new(g.sinks.len(), |j: int| 0real),
            node_fracs: Seq::new(g.nodes.len(), |u: int| 0real),
        }
    } else {
        let a = plan_sources(g, (n - 1) as nat);
        let i = (n - 1) as usize;
        let src = g.sources[n - 1];
        let p = probe(g, src.to);
        if src.amount == 0real || p.sinks.len() == 0 {
            a
        } else {
            let own = Qty::Fin(src.amount);
            let first = own.lt(a.step.amount);
            let amt1 = if first {
                own
            } else {
                a.step.amount
            };
            let r1 = if first {
                StopReason::SourceDepleted
            } else {
                a.step.reason
            };
            let lim = scaled(p.limit, p.sinks.len());
            let second = lim.lt(amt1);
            let share = 1real / (p.sinks.len() as real);
            PlanAcc {
                step: StepModel {
                    entries: a.step.entries.push((i, p.sinks)),
                    node_entries: a.step.node_entries.push((i, p.nodes)),
                    amount: if second {
                        lim
                    } else {
                        amt1
                    },
                    reason: if second {
                        StopReason::NodeFull
                    } else {
                        r1
                    },
                },
                fracs: add_shares(a.fracs, p.sinks, p.sinks.len(), share),
                node_fracs: add_node_shares(a.node_fracs, p.nodes, share),
            }
        }
    }
}

/// The largest step that a node with this share of it can let through;
/// unbounded where the node has no share, no room or no cap.
pub open spec fn node_bound(n: NodeModel, share: real) -> Qty {
    match n.capacity {
        Qty::Inf => Qty::Inf,
        Qty::Fin(c) => if share != 0real && c - n.amount > 0real {
            Qty::Fin((c - n.amount) / share)
        } else {
            Qty::Inf
        },
    }
}

/// The largest step that a sink with this share of it can take; unbounded
/// where the sink has no share, no room or no cap.
pub open spec fn sink_bound(s: SinkModel, frac: real) -> Qty {
    match s.capacity {
        Qty::Inf => Qty::Inf,
        Qty::Fin(c) => if frac != 0real && c - s.holdings() > 0real {
            Qty::Fin((c - s.holdings()) / frac)
        } else {
            Qty::Inf
        },
    }
}

/// The step `a` after the bounds of the first `m` nodes were taken in: a
/// node on the way of several sources or paths is bounded over all of them.
pub open spec fn plan_nodes(g: GraphModel, a: PlanAcc, m: nat) -> StepModel
    decreases m,
{
    if m == 0 || m > g.nodes.len() || m > a.node_fracs.len() {
        a.step
    } else {
        let s = plan_nodes(g, a, (m - 1) as nat);
        let b = node_bound(g.nodes[m - 1], a.node_fracs[m - 1]);
        if b.lt(s.amount) {
            StepModel { amount: b, reason: StopReason::NodeFull, ..s }
        } else {
            s
        }
    }
}

/// The step under construction with the bounds of all nodes taken in.
pub open spec fn after_nodes(g: GraphModel, a: PlanAcc) -> PlanAcc {
    PlanAcc { step: plan_nodes(g, a, g.nodes.len()), ..a }
}

/// The step `a` after the bounds of the first `m` sinks were taken in.
pub open spec fn plan_sinks(g: GraphModel, a: PlanAcc, m: nat) -> StepModel
    decreases m,
{
    if m == 0 || m > g.sinks.len() || m > a.fracs.len() {
        a.step
    } else {
        let s = plan_sinks(g, a, (m - 1) as nat);
        let b = sink_bound(g.sinks[m - 1], a.fracs[m - 1]);
        if b.lt(s.amount) {
            StepModel { amount: b, reason: StopReason::SinkFull, ..s }
        } else {
            s
        }
    }
}

/// The next step of the allocation on `g`: the sources are looked at, then
/// the nodes, then the sinks.
pub open spec fn plan(g: GraphModel) -> StepModel {
    plan_sinks(g, after_nodes(g, plan_sources(g, g.sources.len())), g.sinks.len())
}

impl Probe {
    /// Sinks and nodes are indices of the graph; no sink is full; every
    /// node is capped, has room and feeds a sink.
    pub open spec fn within(self, g: GraphModel) -> bool {
        &&& forall|k: int|
            0 <= k < self.sinks.len() ==> (#[trigger] self.sinks[k]) < g.sinks.len()
                && !g.sinks[self.sinks[k] as int].full()
        &&& forall|k: int|
            0 <= k < self.nodes.len() ==> (#[trigger] self.nodes[k]).0 < g.nodes.len()
                && !g.nodes[self.nodes[k].0 as int].saturated() && g.nodes[self.nodes[k].0 as int].capacity
                is Fin && self.nodes[k].1 > 0
    }

    /// The limit is the room of one of the recorded nodes, split over the
    /// sinks that the node feeds; or there is no limit.
    pub open spec fn tight(self, g: GraphModel) -> bool {
        self.limit is Inf || exists|k: int|
            0 <= k < self.nodes.len() && self.limit == #[trigger] per_fed(
                g.nodes[self.nodes[k].0 as int].rest(),
                self.nodes[k].1,
            )
    }
}

/// A node adds a sink to the probe or changes nothing; and a probe that is
/// within the graph and tight stays so.
pub proof fn lemma_member_within(g: GraphModel, u: usize, acc: Probe, bound: nat)
    requires
        g.wf(),
        bound <= g.nodes.len(),
        acc.within(g),
        acc.tight(g),
    ensures
        probe_member(g, u, acc, bound).within(g),
        probe_member(g, u, acc, bound).tight(g),
        probe_member(g, u, acc, bound) == acc || probe_member(g, u, acc, bound).sinks.len()
            > acc.sinks.len(),
    decreases bound, 0nat, 0nat,
{
    if u >= bound || g.nodes[u as int].saturated() {
    } else {
        let node = g.nodes[u as int];
        let r = probe_member(g, u, acc, bound);
        match node.target {
            Target::Val(i) => {
                if !g.sinks[i as int].full() {
                    lemma_tight_kept(g, acc, r, (u, 1nat));
                }
            },
            Target::Expr(e) => {
                lemma_groups_within(g, e, 0, u as nat);
                let sub = probe_groups(g, e, 0, u as nat);
                if sub.sinks.len() > 0 {
                    let merged = acc.nodes + sub.nodes;
                    assert forall|k: int| 0 <= k < merged.len() implies (#[trigger] merged[k]).0
                        < g.nodes.len() && !g.nodes[merged[k].0 as int].saturated()
                        && g.nodes[merged[k].0 as int].capacity is Fin && merged[k].1 > 0 by {
                        if k < acc.nodes.len() {
                            assert(merged[k] == acc.nodes[k]);
                        } else {
                            assert(merged[k] == sub.nodes[k - acc.nodes.len()]);
                        }
                    }
                    let both = Probe {
                        sinks: acc.sinks + sub.sinks,
                        nodes: merged,
                        limit: tighter(acc.limit, sub.limit),
                    };
                    assert(both.tight(g)) by {
                        if both.limit is Fin {
                            if sub.limit.lt(acc.limit) {
                                let k = choose|k: int|
                                    0 <= k < sub.nodes.len() && sub.limit == #[trigger] per_fed(
                                        g.nodes[sub.nodes[k].0 as int].rest(),
                                        sub.nodes[k].1,
                                    );
                                assert(merged[acc.nodes.len() + k] == sub.nodes[k]);
                                assert(both.limit == per_fed(
                                    g.nodes[merged[acc.nodes.len() + k].0 as int].rest(),
                                    merged[acc.nodes.len() + k].1,
                                ));
                            } else {
                                let k = choose|k: int|
                                    0 <= k < acc.nodes.len() && acc.limit == #[trigger] per_fed(
                                        g.nodes[acc.nodes[k].0 as int].rest(),
                                        acc.nodes[k].1,
                                    );
                                assert(merged[k] == acc.nodes[k]);
                                assert(both.limit == per_fed(
                                    g.nodes[merged[k].0 as int].rest(),
                                    merged[k].1,
                                ));
                            }
                        }
                    }
                    lemma_tight_kept(g, both, r, (u, sub.sinks.len()));
                }
            },
        }
    }
}

/// Where a probe is tight, so is the probe that has the same nodes, or one
/// record more, and a limit tightened by the room of that record's node.
pub proof fn lemma_tight_kept(g: GraphModel, before: Probe, after: Probe, rec: (usize, nat))
    requires
        before.tight(g),
        after.limit == tighter(before.limit, per_fed(g.nodes[rec.0 as int].rest(), rec.1)),
        (g.nodes[rec.0 as int].capacity is Fin && after.nodes == before.nodes.push(rec)) || (g.nodes[rec.0 as int].capacity
            is Inf && after.nodes == before.nodes),
    ensures
        after.tight(g),
{
    if after.limit is Fin {
        if after.limit == before.limit {
            let k = choose|k: int|
                0 <= k < before.nodes.len() && before.limit == #[trigger] per_fed(
                    g.nodes[before.nodes[k].0 as int].rest(),
                    before.nodes[k].1,
                );
            assert(after.nodes[k] == before.nodes[k]);
            assert(after.limit == per_fed(g.nodes[after.nodes[k].0 as int].rest(), after.nodes[k].1));
        } else {
            let k = before.nodes.len() as int;
            assert(after.nodes[k] == rec);
            assert(after.limit == per_fed(g.nodes[after.nodes[k].0 as int].rest(), after.nodes[k].1));
        }
    }
}

/// Over a group a probe gains sinks or stays as it was; and a probe that
/// is within the graph and tight stays so.
pub proof fn lemma_group_within(g: GraphModel, and: Seq<usize>, k: nat, acc: Probe, bound: nat)
    requires
        g.wf(),
        bound <= g.nodes.len(),
        acc.within(g),
        acc.tight(g),
    ensures
        probe_group(g, and, k, acc, bound).within(g),
        probe_group(g, and, k, acc, bound).tight(g),
        probe_group(g, and, k, acc, bound) == acc || probe_group(g, and, k, acc, bound).sinks.len()
            > acc.sinks.len(),
    decreases bound, 1nat, k,
{
    if k == 0 || k > and.len() {
    } else {
        lemma_group_within(g, and, (k - 1) as nat, acc, bound);
        lemma_member_within(g, and[k - 1], probe_group(g, and, (k - 1) as nat, acc, bound), bound);
    }
}

/// The probe of an expression is within the graph and tight.
pub proof fn lemma_groups_within(g: GraphModel, or: Route, j: nat, bound: nat)
    requires
        g.wf(),
        bound <= g.nodes.len(),
    ensures
        probe_groups(g, or, j, bound).within(g),
        probe_groups(g, or, j, bound).tight(g),
    decreases bound, 2nat, or.len() - j,
{
    if j >= or.len() {
    } else {
        lemma_group_within(g, or[j as int], or[j as int].len(), Probe::empty(), bound);
        let p = probe_group(g, or[j as int], or[j as int].len(), Probe::empty(), bound);
        if p.sinks.len() > 0 {
        } else {
            lemma_groups_within(g, or, j + 1, bound);
        }
    }
}

/// Every sink and node that a probe names is one of the graph's and has
/// room, and its limit is the room of one of its nodes for each sink fed.
pub proof fn lemma_probe_within(g: GraphModel, or: Route)
    requires
        g.wf(),
    ensures
        probe(g, or).within(g),
        probe(g, or).tight(g),
{
    lemma_groups_within(g, or, 0, g.nodes.len());
}

} // verus!
