//! The graph of sources, sinks and routing nodes, and the probe that finds
//! where a source's amount can go.

use crate::amount::Amount;
use crate::amount::Qty;
use crate::date::Date;
use crate::apply::zeros;
use crate::flow::charge;
use crate::model::add_shares;
use crate::model::after_nodes;
use crate::model::lemma_group_within;
use crate::model::plan_nodes;
use crate::model::lemma_probe_within;
use crate::model::plan_sinks;
use crate::model::plan_sources;
use crate::model::probe_group;
use crate::model::probe_groups;
use crate::model::probe_member;
use crate::model::route_below;
use crate::model::GraphModel;
use crate::model::NodeModel;
use crate::model::Probe;
use crate::model::Route;
use crate::model::SinkModel;
use crate::model::SourceModel;
use crate::model::StepModel;
use crate::model::StopReason;
use crate::model::Target;
use vstd::prelude::*;

verus! {

/// The routing expression that a vector of groups holds.
pub open spec fn route_of(v: Seq<Vec<usize>>) -> Route {
    Seq::new(v.len(), |j: int| v[j]@)
}

/// An entity with an amount to distribute.
#[derive(Debug)]
pub struct Source {
    pub amount: Amount,
    pub to: Vec<Vec<usize>>,
    pub declared: bool,
}

/// A terminal accumulator.
#[derive(Debug)]
pub struct Sink {
    pub capacity: Amount,
    pub balance: Amount,
    pub add_amount: Amount,
    pub date: Option<Date>,
    pub ask_for_balance: bool,
}

/// What a routing node leads to: a sink, or a nested routing expression.
#[derive(Debug)]
pub enum Unary {
    Val(usize),
    Expr(Vec<Vec<usize>>),
}

/// A routing node with what has passed through it and what may.
#[derive(Debug)]
pub struct UnaryCap {
    pub unary: Unary,
    pub amount: Amount,
    pub capacity: Amount,
}

/// Sources, sinks and the arena of routing nodes.
#[derive(Debug)]
pub struct Graph {
    pub sources: Vec<Source>,
    pub sinks: Vec<Sink>,
    pub unaries: Vec<UnaryCap>,
}

/// One step of the allocation, as the planner hands it to those who apply it.
#[derive(Debug)]
pub struct Step {
    pub src_to_snks: Vec<(usize, Vec<usize>)>,
    pub src_to_unaries: Vec<(usize, Vec<(usize, usize)>)>,
    pub amount: Amount,
    pub stop_reason: StopReason,
}

/// The entries of a step: each source with its sinks.
pub open spec fn entries_of(v: Seq<(usize, Vec<usize>)>) -> Seq<(usize, Seq<usize>)> {
    Seq::new(v.len(), |k: int| (v[k].0, v[k].1@))
}

/// Records of nodes with the number of sinks that each feeds.
pub open spec fn nodes_of(v: Seq<(usize, usize)>) -> Seq<(usize, nat)> {
    Seq::new(v.len(), |k: int| (v[k].0, v[k].1 as nat))
}

/// The node entries of a step: each source with the capped nodes on its way.
pub open spec fn node_entries_of(v: Seq<(usize, Vec<(usize, usize)>)>) -> Seq<
    (usize, Seq<(usize, nat)>),
> {
    Seq::new(v.len(), |k: int| (v[k].0, nodes_of(v[k].1@)))
}

/// The step with these four parts.
pub open spec fn step_of(
    snks: Seq<(usize, Vec<usize>)>,
    uns: Seq<(usize, Vec<(usize, usize)>)>,
    amount: Qty,
    reason: StopReason,
) -> StepModel {
    StepModel { entries: entries_of(snks), node_entries: node_entries_of(uns), amount, reason }
}

impl View for Step {
    type V = StepModel;

    open spec fn view(&self) -> StepModel {
        step_of(self.src_to_snks@, self.src_to_unaries@, self.amount@, self.stop_reason)
    }
}

impl View for Source {
    type V = SourceModel;

    open spec fn view(&self) -> SourceModel {
        SourceModel { amount: self.amount@.val(), to: route_of(self.to@), declared: self.declared }
    }
}

impl View for Sink {
    type V = SinkModel;

    open spec fn view(&self) -> SinkModel {
        SinkModel {
            capacity: self.capacity@,
            balance: self.balance@.val(),
            inflow: self.add_amount@.val(),
            date: self.date,
            ask_for_balance: self.ask_for_balance,
        }
    }
}

impl View for Unary {
    type V = Target;

    open spec fn view(&self) -> Target {
        match self {
            Unary::Val(i) => Target::Val(*i),
            Unary::Expr(e) => Target::Expr(route_of(e@)),
        }
    }
}

impl View for UnaryCap {
    type V = NodeModel;

    open spec fn view(&self) -> NodeModel {
        NodeModel { target: self.unary@, amount: self.amount@.val(), capacity: self.capacity@ }
    }
}

impl View for Graph {
    type V = GraphModel;

    open spec fn view(&self) -> GraphModel {
        GraphModel {
            sources: self.sources@.map_values(|s: Source| s@),
            sinks: self.sinks@.map_values(|s: Sink| s@),
            nodes: self.unaries@.map_values(|u: UnaryCap| u@),
        }
    }
}

impl Source {
    /// The amount is a finite number.
    pub open spec fn wf(&self) -> bool {
        self.amount.wf() && self.amount@ is Fin
    }
}

impl Sink {
    /// Balance and inflow are finite numbers; the capacity may be unbounded.
    pub open spec fn wf(&self) -> bool {
        &&& self.capacity.wf()
        &&& self.balance.wf()
        &&& self.balance@ is Fin
        &&& self.add_amount.wf()
        &&& self.add_amount@ is Fin
    }

    /// What the sink holds: its opening balance and what has come in.
    pub fn amount(&self) -> (r: Amount)
        requires
            self.wf(),
        ensures
            r.wf(),
            r@ == Qty::Fin(self@.holdings()),
    {
        self.balance.add(&self.add_amount)
    }
}

impl UnaryCap {
    /// The amount is a finite number; the capacity may be unbounded.
    pub open spec fn wf(&self) -> bool {
        &&& self.capacity.wf()
        &&& self.amount.wf()
        &&& self.amount@ is Fin
    }
}

impl Graph {
    /// Every part is well formed, and so is the graph as a whole.
    pub open spec fn wf(&self) -> bool {
        &&& self@.wf()
        &&& forall|i: int| 0 <= i < self.sources@.len() ==> (#[trigger] self.sources@[i]).wf()
        &&& forall|j: int| 0 <= j < self.sinks@.len() ==> (#[trigger] self.sinks@[j]).wf()
        &&& forall|u: int| 0 <= u < self.unaries@.len() ==> (#[trigger] self.unaries@[u]).wf()
    }

    /// An empty graph.
    pub fn new() -> (r: Graph)
        ensures
            r.wf(),
            r@.sources.len() == 0,
            r@.sinks.len() == 0,
            r@.nodes.len() == 0,
    {
        Graph { sources: Vec::new(), sinks: Vec::new(), unaries: Vec::new() }
    }

    /// Adds a sink; its index is returned.
    pub fn add_sink(&mut self, sink: Sink) -> (i: usize)
        requires
            old(self).wf(),
            sink.wf(),
        ensures
            final(self).wf(),
            i == old(self)@.sinks.len(),
            final(self)@ == (GraphModel { sinks: old(self)@.sinks.push(sink@), ..old(self)@ }),
    {
        let ghost g = self@;
        self.sinks.push(sink);
        proof {
            let h = self@;
            assert(h.sinks =~= g.sinks.push(sink@));
            assert(h.sources =~= g.sources);
            assert(h.nodes =~= g.nodes);
            assert forall|u: int| 0 <= u < h.nodes.len() implies match (#[trigger] h.nodes[u]).target {
                Target::Val(i) => i < h.sinks.len(),
                Target::Expr(e) => route_below(e, u),
            } by {
                assert(h.nodes[u] == g.nodes[u]);
            }
            assert forall|j: int| 0 <= j < self.sinks@.len() implies (#[trigger] self.sinks@[j]).wf() by {
                if j < old(self).sinks@.len() {
                    assert(self.sinks@[j] == old(self).sinks@[j]);
                }
            }
        }
        self.sinks.len() - 1
    }

    /// Adds a source whose route names nodes of the graph; its index is returned.
    pub fn add_source(&mut self, source: Source) -> (i: usize)
        requires
            old(self).wf(),
            source.wf(),
            route_below(source@.to, old(self)@.nodes.len() as int),
        ensures
            final(self).wf(),
            i == old(self)@.sources.len(),
            final(self)@ == (GraphModel { sources: old(self)@.sources.push(source@), ..old(self)@ }),
    {
        let ghost g = self@;
        proof {
            source.amount.lemma_nonneg();
        }
        self.sources.push(source);
        let n = self.sources.len();
        proof {
            let h = self@;
            assert(h.sources =~= g.sources.push(source@));
            assert forall|k: int| 0 <= k < h.sources.len() implies (#[trigger] h.sources[k]).amount
                >= 0real by {
                if k < g.sources.len() {
                    assert(h.sources[k] == g.sources[k]);
                }
            }
            assert(h.sinks =~= g.sinks);
            assert(h.nodes =~= g.nodes);
            assert forall|i: int| 0 <= i < h.sources.len() implies route_below(
                (#[trigger] h.sources[i]).to,
                h.nodes.len() as int,
            ) by {
                if i < g.sources.len() {
                    assert(h.sources[i] == g.sources[i]);
                }
            }
            assert forall|j: int| 0 <= j < self.sources@.len() implies (
            #[trigger] self.sources@[j]).wf() by {
                if j < old(self).sources@.len() {
                    assert(self.sources@[j] == old(self).sources@[j]);
                }
            }
        }
        self.sources.len() - 1
    }

    /// Adds a routing node that leads to a sink of the graph or to nodes of
    /// the graph; its index is returned.
    pub fn add_node(&mut self, node: UnaryCap) -> (u: usize)
        requires
            old(self).wf(),
            node.wf(),
            match node@.target {
                Target::Val(i) => i < old(self)@.sinks.len(),
                Target::Expr(e) => route_below(e, old(self)@.nodes.len() as int),
            },
        ensures
            final(self).wf(),
            u == old(self)@.nodes.len(),
            final(self)@ == (GraphModel { nodes: old(self)@.nodes.push(node@), ..old(self)@ }),
    {
        let ghost g = self@;
        self.unaries.push(node);
        proof {
            let h = self@;
            assert(h.nodes =~= g.nodes.push(node@));
            assert(h.sinks =~= g.sinks);
            assert(h.sources =~= g.sources);
            assert forall|u: int| 0 <= u < h.nodes.len() implies match (#[trigger] h.nodes[u]).target {
                Target::Val(i) => i < h.sinks.len(),
                Target::Expr(e) => route_below(e, u),
            } by {
                if u < g.nodes.len() {
                    assert(h.nodes[u] == g.nodes[u]);
                }
            }
            assert forall|i: int| 0 <= i < h.sources.len() implies route_below(
                (#[trigger] h.sources[i]).to,
                h.nodes.len() as int,
            ) by {
                assert(h.sources[i] == g.sources[i]);
                assert(route_below(g.sources[i].to, g.nodes.len() as int));
            }
            assert forall|j: int| 0 <= j < self.unaries@.len() implies (
            #[trigger] self.unaries@[j]).wf() by {
                if j < old(self).unaries@.len() {
                    assert(self.unaries@[j] == old(self).unaries@[j]);
                }
            }
        }
        self.unaries.len() - 1
    }

    /// Declares what the `i`-th source has to give.
    pub fn set_source_amount(&mut self, i: usize, amount: Amount)
        requires
            old(self).wf(),
            i < old(self)@.sources.len(),
            amount.wf(),
            amount@ is Fin,
        ensures
            final(self).wf(),
            final(self)@ == (GraphModel {
                sources: old(self)@.sources.update(
                    i as int,
                    (SourceModel {
                        amount: amount@.val(),
                        declared: true,
                        ..old(self)@.sources[i as int]
                    }),
                ),
                ..old(self)@
            }),
    {
        let ghost g = self@;
        proof {
            amount.lemma_nonneg();
        }
        self.sources[i].amount = amount;
        self.sources[i].declared = true;
        proof {
            let h = self@;
            assert(h.sources =~= g.sources.update(
                i as int,
                (SourceModel { amount: amount@.val(), declared: true, ..g.sources[i as int] }),
            ));
            assert forall|k: int| 0 <= k < h.sources.len() implies (#[trigger] h.sources[k]).amount
                >= 0real by {
                if k != i {
                    assert(h.sources[k] == g.sources[k]);
                }
            }
            assert(h.sinks =~= g.sinks);
            assert(h.nodes =~= g.nodes);
            assert forall|k: int| 0 <= k < h.sources.len() implies route_below(
                (#[trigger] h.sources[k]).to,
                h.nodes.len() as int,
            ) by {
                assert(h.sources[k].to == g.sources[k].to);
            }
            assert forall|k: int| 0 <= k < self.sources@.len() implies (
            #[trigger] self.sources@[k]).wf() by {
                if k != i {
                    assert(self.sources@[k] == old(self).sources@[k]);
                }
            }
        }
    }

    /// Gives the `i`-th source a new route, which names nodes of the graph.
    pub fn set_route(&mut self, i: usize, route: Vec<Vec<usize>>)
        requires
            old(self).wf(),
            i < old(self)@.sources.len(),
            route_below(route_of(route@), old(self)@.nodes.len() as int),
        ensures
            final(self).wf(),
            final(self)@ == (GraphModel {
                sources: old(self)@.sources.update(
                    i as int,
                    (SourceModel { to: route_of(route@), ..old(self)@.sources[i as int] }),
                ),
                ..old(self)@
            }),
    {
        let ghost g = self@;
        self.sources[i].to = route;
        proof {
            let h = self@;
            assert(h.sources =~= g.sources.update(
                i as int,
                (SourceModel { to: route_of(route@), ..g.sources[i as int] }),
            ));
            assert forall|k: int| 0 <= k < h.sources.len() implies (#[trigger] h.sources[k]).amount
                >= 0real by {
                assert(h.sources[k].amount == g.sources[k].amount);
            }
            assert(h.sinks =~= g.sinks);
            assert(h.nodes =~= g.nodes);
            assert forall|k: int| 0 <= k < h.sources.len() implies route_below(
                (#[trigger] h.sources[k]).to,
                h.nodes.len() as int,
            ) by {
                if k != i {
                    assert(h.sources[k] == g.sources[k]);
                }
            }
            assert forall|k: int| 0 <= k < self.sources@.len() implies (
            #[trigger] self.sources@[k]).wf() by {
                if k != i {
                    assert(self.sources@[k] == old(self).sources@[k]);
                } else {
                    assert(old(self).sources@[k].wf());
                }
            }
        }
    }

    /// Gives the `j`-th sink an opening balance for a period.
    pub fn set_balance(&mut self, j: usize, date: Date, balance: Amount)
        requires
            old(self).wf(),
            j < old(self)@.sinks.len(),
            balance.wf(),
            balance@ is Fin,
        ensures
            final(self).wf(),
            final(self)@ == (GraphModel {
                sinks: old(self)@.sinks.update(
                    j as int,
                    (SinkModel {
                        balance: balance@.val(),
                        date: Some(date),
                        ..old(self)@.sinks[j as int]
                    }),
                ),
                ..old(self)@
            }),
    {
        let ghost g = self@;
        self.sinks[j].date = Some(date);
        self.sinks[j].balance = balance;
        proof {
            let h = self@;
            assert(h.sinks =~= g.sinks.update(
                j as int,
                (SinkModel { balance: balance@.val(), date: Some(date), ..g.sinks[j as int] }),
            ));
            assert(h.sources =~= g.sources);
            assert(h.nodes =~= g.nodes);
            assert forall|u: int| 0 <= u < h.nodes.len() implies match (#[trigger] h.nodes[u]).target {
                Target::Val(i) => i < h.sinks.len(),
                Target::Expr(e) => route_below(e, u),
            } by {
                assert(h.nodes[u] == g.nodes[u]);
            }
            assert forall|k: int| 0 <= k < self.sinks@.len() implies (#[trigger] self.sinks@[k]).wf() by {
                if k != j {
                    assert(self.sinks@[k] == old(self).sinks@[k]);
                } else {
                    assert(old(self).sinks@[k].wf());
                }
            }
        }
    }

    /// Probes the routing expression `or`: the sinks that it reaches now,
    /// the capped nodes on the way with the number of sinks that each
    /// feeds, and the tightest room met, per sink. The amount offered
    /// bounds nothing: a path without a cap admits all of it.
    #[allow(unused_variables)]
    pub fn next_sinks(&self, or: &Vec<Vec<usize>>, amount_to_send: &Amount) -> (r: (
        Vec<usize>,
        Vec<(usize, usize)>,
        Amount,
    ))
        requires
            self.wf(),
            route_below(route_of(or@), self.unaries@.len() as int),
        ensures
            r.0@ == crate::model::probe(self@, route_of(or@)).sinks,
            nodes_of(r.1@) == crate::model::probe(self@, route_of(or@)).nodes,
            r.2@ == crate::model::probe(self@, route_of(or@)).limit,
            r.2.wf(),
    {
        self.probe_below(or, Ghost(self.unaries@.len()))
    }

    /// The probe of an expression whose nodes all lie below `bound`.
    fn probe_below(&self, or: &Vec<Vec<usize>>, Ghost(bound): Ghost<nat>) -> (r: (
        Vec<usize>,
        Vec<(usize, usize)>,
        Amount,
    ))
        requires
            self.wf(),
            bound <= self.unaries@.len(),
            route_below(route_of(or@), bound as int),
        ensures
            Probe::of(r.0@, nodes_of(r.1@), r.2@) == probe_groups(self@, route_of(or@), 0, bound),
            r.2.wf(),
        decreases bound,
    {
        let ghost g = self@;
        let ghost route = route_of(or@);
        let mut sinks: Vec<usize> = Vec::new();
        let mut unaries: Vec<(usize, usize)> = Vec::new();
        let mut limited = Amount::infinity();
        let mut j: usize = 0;
        assert(nodes_of(unaries@) =~= Seq::empty());
        while j < or.len() && sinks.len() == 0
            invariant
                self.wf(),
                limited.wf(),
                g == self@,
                route == route_of(or@),
                bound <= self.unaries@.len(),
                route_below(route, bound as int),
                j <= or@.len(),
                sinks@.len() == 0 ==> Probe::of(sinks@, nodes_of(unaries@), limited@) == Probe::empty(),
                probe_groups(g, route, 0, bound) == (if sinks@.len() > 0 {
                    Probe::of(sinks@, nodes_of(unaries@), limited@)
                } else {
                    probe_groups(g, route, j as nat, bound)
                }),
            decreases or@.len() - j,
        {
            let and = &or[j];
            let mut k: usize = 0;
            while k < and.len()
                invariant
                    self.wf(),
                    limited.wf(),
                    g == self@,
                    route == route_of(or@),
                    bound <= self.unaries@.len(),
                    route_below(route, bound as int),
                    j < or@.len(),
                    and@ == route[j as int],
                    k <= and@.len(),
                    Probe::of(sinks@, nodes_of(unaries@), limited@) == probe_group(
                        g,
                        and@,
                        k as nat,
                        Probe::empty(),
                        bound,
                    ),
                decreases and@.len() - k,
            {
                let ui = and[k];
                let ghost acc = Probe::of(sinks@, nodes_of(unaries@), limited@);
                let ghost old_unaries = unaries@;
                assert(ui == route[j as int][k as int]);
                assert(ui < bound);
                let unary = &self.unaries[ui];
                assert(unary.wf());
                assert(g.nodes[ui as int] == unary@);
                if unary.amount.lt(&unary.capacity) {
                    match &unary.unary {
                        Unary::Val(i) => {
                            assert(*i < self.sinks@.len());
                            let snk = &self.sinks[*i];
                            assert(snk.wf());
                            assert(g.sinks[*i as int] == snk@);
                            let held = snk.amount();
                            if !snk.capacity.le(&held) {
                                sinks.push(*i);
                                if !unary.capacity.is_infinite() {
                                    unaries.push((ui, 1));
                                    assert(nodes_of(unaries@) =~= nodes_of(old_unaries).push((ui, 1nat)));
                                    let rest = unary.capacity.checked_sub(&unary.amount).unwrap();
                                    assert(rest@.val() / 1real == rest@.val());
                                    if rest.lt(&limited) {
                                        limited = rest;
                                    }
                                }
                            }
                        },
                        Unary::Expr(e) => {
                            assert(route_below(route_of(e@), ui as int));
                            let (mut more_sinks, mut more_unaries, new_limited) = self.probe_below(
                                e,
                                Ghost(ui as nat),
                            );
                            if more_sinks.len() > 0 {
                                let ghost sub_nodes = more_unaries@;
                                if new_limited.lt(&limited) {
                                    limited = new_limited;
                                }
                                let n = more_sinks.len();
                                unaries.append(&mut more_unaries);
                                sinks.append(&mut more_sinks);
                                assert(nodes_of(unaries@) =~= nodes_of(old_unaries) + nodes_of(sub_nodes));
                                if !unary.capacity.is_infinite() {
                                    unaries.push((ui, n));
                                    assert(nodes_of(unaries@) =~= (nodes_of(old_unaries) + nodes_of(
                                        sub_nodes,
                                    )).push((ui, n as nat)));
                                    let rest = unary.capacity.checked_sub(&unary.amount).unwrap();
                                    let per = rest.checked_div(&Amount::from_usize(n)).unwrap();
                                    if per.lt(&limited) {
                                        limited = per;
                                    }
                                }
                            }
                        },
                    }
                }
                assert(Probe::of(sinks@, nodes_of(unaries@), limited@) == probe_member(
                    g,
                    ui,
                    acc,
                    bound,
                ));
                k += 1;
            }
            proof {
                lemma_group_within(g, and@, and@.len(), Probe::empty(), bound);
            }
            j += 1;
        }
        (sinks, unaries, limited)
    }

    /// Plans the next step: the amount that every source that reaches a
    /// sink gives at once. It is bounded by what each of these sources has
    /// left, by the room of each node over the share of the step that
    /// passes through it, and by the room of each sink over its share.
    pub fn next_step(&self) -> (r: Step)
        requires
            self.wf(),
        ensures
            r@ == crate::model::plan(self@),
            r.amount.wf(),
    {
        let ghost g = self@;
        let mut src_to_snks: Vec<(usize, Vec<usize>)> = Vec::new();
        let mut src_to_unaries: Vec<(usize, Vec<(usize, usize)>)> = Vec::new();
        let mut amount = Amount::infinity();
        let mut reason = StopReason::NodeFull;
        let mut fracs = zeros(self.sinks.len());
        let mut node_fracs = zeros(self.unaries.len());
        assert(entries_of(src_to_snks@) =~= Seq::empty());
        assert(node_entries_of(src_to_unaries@) =~= Seq::empty());
        let mut i: usize = 0;
        while i < self.sources.len()
            invariant
                self.wf(),
                g == self@,
                i <= self.sources@.len(),
                amount.wf(),
                step_of(src_to_snks@, src_to_unaries@, amount@, reason) == plan_sources(
                    g,
                    i as nat,
                ).step,
                fracs@.len() == g.sinks.len(),
                node_fracs@.len() == g.nodes.len(),
                plan_sources(g, i as nat).fracs.len() == g.sinks.len(),
                plan_sources(g, i as nat).node_fracs.len() == g.nodes.len(),
                forall|t: int|
                    0 <= t < fracs@.len() ==> (#[trigger] fracs@[t]).wf() && fracs@[t]@ == Qty::Fin(
                        plan_sources(g, i as nat).fracs[t],
                    ),
                forall|t: int|
                    0 <= t < node_fracs@.len() ==> (#[trigger] node_fracs@[t]).wf() && node_fracs@[t]@
                        == Qty::Fin(plan_sources(g, i as nat).node_fracs[t]),
            decreases self.sources@.len() - i,
        {
            let ghost a = plan_sources(g, i as nat);
            let src = &self.sources[i];
            assert(src.wf());
            assert(g.sources[i as int] == src@);
            assert(route_below(route_of(src.to@), self.unaries@.len() as int));
            let ghost p = crate::model::probe(g, src@.to);
            if !src.amount.is_zero() {
                let (sinks, unaries, limit) = self.next_sinks(&src.to, &src.amount);
                if sinks.len() > 0 {
                    proof {
                        lemma_probe_within(g, src@.to);
                    }
                    if src.amount.lt(&amount) {
                        amount = src.amount.dup();
                        reason = StopReason::SourceDepleted;
                    }
                    let n = Amount::from_usize(sinks.len());
                    if !limit.is_infinite() {
                        let lim = limit.checked_mul(&n).unwrap();
                        if lim.lt(&amount) {
                            amount = lim;
                            reason = StopReason::NodeFull;
                        }
                    }
                    let share = Amount::from_u64(1).checked_div(&n).unwrap();
                    let ghost sh = 1real / (sinks@.len() as real);
                    assert(share@ == Qty::Fin(sh));
                    let mut k: usize = 0;
                    while k < sinks.len()
                        invariant
                            k <= sinks@.len(),
                            share.wf(),
                            share@ == Qty::Fin(sh),
                            sinks@ == p.sinks,
                            p.within(g),
                            a.fracs.len() == g.sinks.len(),
                            fracs@.len() == g.sinks.len(),
                            add_shares(a.fracs, sinks@, k as nat, sh).len() == g.sinks.len(),
                            forall|t: int|
                                0 <= t < fracs@.len() ==> (#[trigger] fracs@[t]).wf() && fracs@[t]@
                                    == Qty::Fin(add_shares(a.fracs, sinks@, k as nat, sh)[t]),
                        decreases sinks@.len() - k,
                    {
                        let t = sinks[k];
                        assert(t < g.sinks.len());
                        let f = fracs[t].add(&share);
                        fracs.set(t, f);
                        k += 1;
                    }
                    let ghost recs = nodes_of(unaries@);
                    assert(recs.take(0) =~= Seq::empty());
                    let mut k: usize = 0;
                    while k < unaries.len()
                        invariant
                            k <= unaries@.len(),
                            share.wf(),
                            share@ == Qty::Fin(sh),
                            recs == nodes_of(unaries@),
                            recs == p.nodes,
                            p.within(g),
                            a.node_fracs.len() == g.nodes.len(),
                            node_fracs@.len() == g.nodes.len(),
                            forall|t: int|
                                0 <= t < node_fracs@.len() ==> (#[trigger] node_fracs@[t]).wf()
                                    && node_fracs@[t]@ == Qty::Fin(
                                    a.node_fracs[t] + charge(recs.take(k as int), sh, t),
                                ),
                        decreases unaries@.len() - k,
                    {
                        let u0 = unaries[k].0;
                        let mul = unaries[k].1;
                        proof {
                            assert(recs[k as int] == (u0, mul as nat));
                            assert(p.nodes[k as int].0 < g.nodes.len());
                            assert(recs.take(k + 1).drop_last() =~= recs.take(k as int));
                            assert(recs.take(k + 1).last() == (u0, mul as nat));
                        }
                        let w = share.checked_mul(&Amount::from_usize(mul)).unwrap();
                        let f = node_fracs[u0].add(&w);
                        node_fracs.set(u0, f);
                        k += 1;
                    }
                    assert(recs.take(recs.len() as int) =~= recs);
                    let ghost old_snks = src_to_snks@;
                    let ghost old_uns = src_to_unaries@;
                    src_to_snks.push((i, sinks));
                    src_to_unaries.push((i, unaries));
                    assert(entries_of(src_to_snks@) =~= entries_of(old_snks).push((i, p.sinks)));
                    assert(node_entries_of(src_to_unaries@) =~= node_entries_of(old_uns).push(
                        (i, p.nodes),
                    ));
                }
            }
            i += 1;
        }
        let ghost acc = plan_sources(g, g.sources.len());
        let mut u: usize = 0;
        while u < self.unaries.len()
            invariant
                self.wf(),
                g == self@,
                u <= self.unaries@.len(),
                amount.wf(),
                acc.node_fracs.len() == g.nodes.len(),
                node_fracs@.len() == g.nodes.len(),
                forall|t: int|
                    0 <= t < node_fracs@.len() ==> (#[trigger] node_fracs@[t]).wf() && node_fracs@[t]@
                        == Qty::Fin(acc.node_fracs[t]),
                step_of(src_to_snks@, src_to_unaries@, amount@, reason) == plan_nodes(
                    g,
                    acc,
                    u as nat,
                ),
            decreases self.unaries@.len() - u,
        {
            let node = &self.unaries[u];
            assert(node.wf());
            assert(g.nodes[u as int] == node@);
            assert(node_fracs@[u as int].wf());
            if !node_fracs[u].is_zero() && !node.capacity.is_infinite() {
                match node.capacity.checked_sub(&node.amount) {
                    Some(d) => {
                        if !d.is_zero() {
                            let c = d.checked_div(&node_fracs[u]).unwrap();
                            if c.lt(&amount) {
                                amount = c;
                                reason = StopReason::NodeFull;
                            }
                        }
                    },
                    None => {},
                }
            }
            u += 1;
        }
        let ghost acc2 = after_nodes(g, acc);
        let mut m: usize = 0;
        while m < self.sinks.len()
            invariant
                self.wf(),
                g == self@,
                m <= self.sinks@.len(),
                amount.wf(),
                acc2 == after_nodes(g, acc),
                acc.fracs.len() == g.sinks.len(),
                fracs@.len() == g.sinks.len(),
                forall|t: int|
                    0 <= t < fracs@.len() ==> (#[trigger] fracs@[t]).wf() && fracs@[t]@ == Qty::Fin(
                        acc.fracs[t],
                    ),
                step_of(src_to_snks@, src_to_unaries@, amount@, reason) == plan_sinks(
                    g,
                    acc2,
                    m as nat,
                ),
            decreases self.sinks@.len() - m,
        {
            let snk = &self.sinks[m];
            assert(snk.wf());
            assert(g.sinks[m as int] == snk@);
            assert(fracs@[m as int].wf());
            if !fracs[m].is_zero() && !snk.capacity.is_infinite() {
                let held = snk.amount();
                match snk.capacity.checked_sub(&held) {
                    Some(d) => {
                        if !d.is_zero() {
                            let c = d.checked_div(&fracs[m]).unwrap();
                            if c.lt(&amount) {
                                amount = c;
                                reason = StopReason::SinkFull;
                            }
                        }
                    },
                    None => {},
                }
            }
            m += 1;
        }
        Step { src_to_snks, src_to_unaries, amount, stop_reason: reason }
    }
}

} // verus!
