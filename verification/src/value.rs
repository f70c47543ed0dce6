//! A graph under construction with the names of its sources and sinks, and
//! the allocation run on it.

use crate::amount::Amount;
use crate::amount::Qty;
use crate::book::booked;
use crate::book::Book;
use crate::book::BookModel;
use crate::date::Date;
use crate::error::BuildError;
use crate::error::FlowError;
use crate::flow::admissible;
use crate::flow::applied;
use crate::graph::route_of;
use crate::graph::Graph;
use crate::graph::Sink;
use crate::graph::Source;
use crate::graph::Step;
use crate::graph::Unary;
use crate::graph::UnaryCap;
use crate::laws::agrees;
use crate::laws::law_capacity_respected;
use crate::laws::law_conservation;
use crate::laws::law_ledger_agrees;
use crate::laws::law_run_conserves;
use crate::laws::law_run_ledger_agrees;
use crate::laws::law_holdings_respected;
use crate::laws::law_run_respects_capacity;
use crate::laws::law_run_respects_holdings;
use crate::planned::law_plan_admissible;
use crate::progress::law_run_converges_within_bound;
use crate::progress::law_run_is_never_refused;
use crate::progress::step_bound;
use crate::laws::lemma_plan_fits;
use crate::laws::total_in;
use crate::laws::total_left;
use crate::model::plan;
use crate::model::route_below;
use crate::model::GraphModel;
use crate::model::NodeModel;
use crate::model::SinkModel;
use crate::model::SourceModel;
use crate::model::Target;
use crate::names::get_or_insert;
use crate::names::texts;
use vstd::prelude::*;

verus! {

/// Names, graph and ledger as plain values.
pub struct FukoModel {
    pub source_names: Seq<Seq<char>>,
    pub sink_names: Seq<Seq<char>>,
    pub graph: GraphModel,
    pub book: BookModel,
}

/// The index that `name` has in `names`, or will have once it is appended.
pub open spec fn slot(names: Seq<Seq<char>>, name: Seq<char>) -> int {
    match names.index_of_first(name) {
        Some(i) => i,
        None => names.len() as int,
    }
}

/// A sink as it is made on first mention: unbounded, empty, undated.
pub open spec fn fresh_sink() -> SinkModel {
    SinkModel {
        capacity: Qty::Inf,
        balance: 0real,
        inflow: 0real,
        date: None,
        ask_for_balance: false,
    }
}

/// A source as it is made on first mention: nothing to give, no route.
pub open spec fn fresh_source() -> SourceModel {
    SourceModel { amount: 0real, to: Seq::empty(), declared: false }
}

impl FukoModel {
    /// With one more sink, under a new name.
    pub open spec fn push_sink(self, name: Seq<char>, sink: SinkModel) -> FukoModel {
        FukoModel {
            sink_names: self.sink_names.push(name),
            graph: GraphModel { sinks: self.graph.sinks.push(sink), ..self.graph },
            ..self
        }
    }

    /// With a sink of this name: a fresh one is appended where there is none.
    pub open spec fn with_sink(self, name: Seq<char>) -> FukoModel {
        if self.sink_names.contains(name) {
            self
        } else {
            self.push_sink(name, fresh_sink())
        }
    }

    /// With a source of this name: a fresh one is appended where there is none.
    pub open spec fn with_source(self, name: Seq<char>) -> FukoModel {
        if self.source_names.contains(name) {
            self
        } else {
            FukoModel {
                source_names: self.source_names.push(name),
                graph: GraphModel { sources: self.graph.sources.push(fresh_source()), ..self.graph },
                ..self
            }
        }
    }

    /// With the `i`-th source replaced.
    pub open spec fn set_source(self, i: int, s: SourceModel) -> FukoModel {
        FukoModel {
            graph: GraphModel { sources: self.graph.sources.update(i, s), ..self.graph },
            ..self
        }
    }

    /// With the `i`-th sink replaced.
    pub open spec fn set_sink(self, i: int, s: SinkModel) -> FukoModel {
        FukoModel { graph: GraphModel { sinks: self.graph.sinks.update(i, s), ..self.graph }, ..self }
    }

    /// With one more routing node.
    pub open spec fn push_node(self, n: NodeModel) -> FukoModel {
        FukoModel { graph: GraphModel { nodes: self.graph.nodes.push(n), ..self.graph }, ..self }
    }

    /// Nothing has flowed yet: the ledger is empty, no sink has received
    /// and no node has let through anything.
    pub open spec fn untouched(self) -> bool {
        &&& self.book.len() == 0
        &&& forall|j: int| 0 <= j < self.graph.sinks.len() ==> (#[trigger] self.graph.sinks[j]).inflow == 0real
        &&& forall|u: int|
            0 <= u < self.graph.nodes.len() ==> (#[trigger] self.graph.nodes[u]).amount == 0real
                && Qty::Fin(0real).le(self.graph.nodes[u].capacity)
    }

    /// Every sink and node is within its capacity, and the ledger holds for
    /// every sink what the sink has received.
    pub open spec fn sound(self) -> bool {
        self.graph.within_capacity() && agrees(self.graph, self.book)
    }

    /// The first sink that asks for an opening balance and has none, from
    /// the `j`-th on; the number of sinks where there is none.
    pub open spec fn first_unbalanced(self, j: nat) -> nat
        decreases self.graph.sinks.len() - j,
    {
        if j >= self.graph.sinks.len() {
            self.graph.sinks.len()
        } else if self.graph.sinks[j as int].ask_for_balance && self.graph.sinks[j as int].date is None {
            j
        } else {
            self.first_unbalanced(j + 1)
        }
    }
}

/// Names, graph and ledger of one allocation.
#[derive(Debug)]
pub struct FukoValue {
    pub source_names: Vec<String>,
    pub sink_names: Vec<String>,
    pub graph: Graph,
    pub book: Book,
}

impl View for FukoValue {
    type V = FukoModel;

    open spec fn view(&self) -> FukoModel {
        FukoModel {
            source_names: texts(self.source_names@),
            sink_names: texts(self.sink_names@),
            graph: self.graph@,
            book: self.book@,
        }
    }
}

impl FukoValue {
    /// Graph and ledger are well formed, and every source and sink has a name.
    pub open spec fn wf(&self) -> bool {
        &&& self.graph.wf()
        &&& self.book.wf()
        &&& self@.source_names.len() == self@.graph.sources.len()
        &&& self@.sink_names.len() == self@.graph.sinks.len()
    }

    /// Nothing declared yet.
    pub fn new() -> (r: FukoValue)
        ensures
            r.wf(),
            r@.source_names.len() == 0,
            r@.sink_names.len() == 0,
            r@.graph.sources.len() == 0,
            r@.graph.sinks.len() == 0,
            r@.graph.nodes.len() == 0,
            r@.book.len() == 0,
            r@.untouched(),
    {
        FukoValue {
            source_names: Vec::new(),
            sink_names: Vec::new(),
            graph: Graph::new(),
            book: Book::new(),
        }
    }

    /// Adds `sink` under the name `ident`, unless a sink has that name.
    pub fn set_sink(&mut self, ident: &str, sink: Sink) -> (ok: bool)
        requires
            old(self).wf(),
            sink.wf(),
        ensures
            final(self).wf(),
            ok == !old(self)@.sink_names.contains(ident@),
            !ok ==> final(self)@ == old(self)@,
            ok ==> final(self)@ == old(self)@.push_sink(ident@, sink@),
            old(self)@.untouched() && sink@.inflow == 0real ==> final(self)@.untouched(),
    {
        let (_, ok) = get_or_insert(&mut self.sink_names, ident);
        if !ok {
            return false;
        }
        self.graph.add_sink(sink);
        true
    }

    /// The index of the sink named `ident`; a fresh sink is added first
    /// where none has that name.
    pub fn get_or_insert_sink(&mut self, ident: &str) -> (i: usize)
        requires
            old(self).wf(),
        ensures
            final(self).wf(),
            final(self)@ == old(self)@.with_sink(ident@),
            i == slot(old(self)@.sink_names, ident@),
            i < final(self)@.graph.sinks.len(),
            final(self)@.sink_names[i as int] == ident@,
            old(self)@.untouched() ==> final(self)@.untouched(),
    {
        let (i, ok) = get_or_insert(&mut self.sink_names, ident);
        if ok {
            let s = Sink {
                capacity: Amount::infinity(),
                balance: Amount::zero(),
                add_amount: Amount::zero(),
                date: None,
                ask_for_balance: false,
            };
            assert(s@ == fresh_sink());
            self.graph.add_sink(s);
            proof {
                old(self)@.sink_names.index_of_first_ensures(ident@);
            }
        }
        i
    }

    /// The index of the source named `ident`; a fresh source is added first
    /// where none has that name.
    pub fn get_or_insert_source(&mut self, ident: &str) -> (i: usize)
        requires
            old(self).wf(),
        ensures
            final(self).wf(),
            final(self)@ == old(self)@.with_source(ident@),
            i == slot(old(self)@.source_names, ident@),
            i < final(self)@.graph.sources.len(),
            final(self)@.source_names[i as int] == ident@,
            old(self)@.untouched() ==> final(self)@.untouched(),
    {
        let (i, ok) = get_or_insert(&mut self.source_names, ident);
        if ok {
            let s = Source { amount: Amount::zero(), to: Vec::new(), declared: false };
            assert(s@.to =~= Seq::empty());
            assert(s@ == fresh_source());
            self.graph.add_source(s);
            proof {
                old(self)@.source_names.index_of_first_ensures(ident@);
            }
        }
        i
    }
}

/// How the planning of a run went on its last look at the graph.
pub enum Outcome {
    /// No source could give anything more.
    Converged,
    /// The planned step was not admissible.
    Refused,
    /// The number of steps allowed was used up.
    Running,
}

/// Graph and ledger after a run of at most `fuel` steps, and how it ended:
/// the next step is planned; if no source takes part, the run has converged;
/// if no step is left, it stops; if the step is not admissible, it is
/// refused; else graph and ledger take the step and the run goes on.
pub open spec fn run_model(g: GraphModel, b: BookModel, fuel: nat) -> (GraphModel, BookModel, Outcome)
    decreases fuel,
{
    let p = plan(g);
    if p.entries.len() == 0 {
        (g, b, Outcome::Converged)
    } else if fuel == 0 {
        (g, b, Outcome::Running)
    } else if !admissible(g, p) {
        (g, b, Outcome::Refused)
    } else {
        run_model(applied(g, p), booked(b, p.entries, p.amount.val(), p.entries.len()), (fuel - 1) as nat)
    }
}

/// How a run ended that met no fault.
#[derive(Clone, Copy, Debug, PartialEq, Eq, Structural)]
pub enum RunEnd {
    /// No source can give anything more.
    Converged,
    /// The number of steps allowed was used up.
    StepLimit,
}

impl FukoValue {
    /// Declares a sink with a capacity. A name that a sink already has, by
    /// declaration or by mention, is refused.
    pub fn declare_sink(&mut self, ident: &str, capacity: Amount, ask_for_balance: bool) -> (r: Result<
        (),
        BuildError,
    >)
        requires
            old(self).wf(),
            capacity.wf(),
        ensures
            final(self).wf(),
            old(self)@.sink_names.contains(ident@) ==> (r matches Err(
                BuildError::RecipientDeclaredTwice,
            )) && final(self)@ == old(self)@,
            !old(self)@.sink_names.contains(ident@) ==> (r is Ok) && final(self)@ == old(self)@.push_sink(
                ident@,
                (SinkModel {
                    capacity: capacity@,
                    balance: 0real,
                    inflow: 0real,
                    date: None,
                    ask_for_balance,
                }),
            ),
            old(self)@.untouched() ==> final(self)@.untouched(),
    {
        let s = Sink {
            capacity,
            balance: Amount::zero(),
            add_amount: Amount::zero(),
            date: None,
            ask_for_balance,
        };
        if !self.set_sink(ident, s) {
            return Err(BuildError::RecipientDeclaredTwice);
        }
        Ok(())
    }

    /// Declares what a source has to give. A source whose amount was
    /// declared before is refused, whatever that amount was; one that was
    /// only named by a route is not.
    pub fn declare_source(&mut self, ident: &str, amount: Amount) -> (r: Result<(), BuildError>)
        requires
            old(self).wf(),
            amount.wf(),
            amount@ is Fin,
        ensures
            final(self).wf(),
            old(self)@.with_source(ident@).graph.sources[slot(
                old(self)@.source_names,
                ident@,
            )].declared ==> (r matches Err(BuildError::SenderDeclaredTwice)) && final(self)@ == old(
                self,
            )@,
            !old(self)@.with_source(ident@).graph.sources[slot(
                old(self)@.source_names,
                ident@,
            )].declared ==> (r is Ok) && final(self)@ == old(self)@.with_source(ident@).set_source(
                slot(old(self)@.source_names, ident@),
                (SourceModel {
                    amount: amount@.val(),
                    declared: true,
                    ..old(self)@.with_source(ident@).graph.sources[slot(
                        old(self)@.source_names,
                        ident@,
                    )]
                }),
            ),
            old(self)@.untouched() ==> final(self)@.untouched(),
    {
        let i = self.get_or_insert_source(ident);
        assert(self@.graph.sources[i as int] == self.graph.sources@[i as int]@);
        if self.graph.sources[i].declared {
            proof {
                if !old(self)@.source_names.contains(ident@) {
                    assert(self@.graph.sources[i as int] == fresh_source());
                }
            }
            return Err(BuildError::SenderDeclaredTwice);
        }
        self.graph.set_source_amount(i, amount);
        Ok(())
    }

    /// Gives the source named `ident` its route, which names nodes of the
    /// graph. The source is added first where none has that name.
    pub fn attach_route(&mut self, ident: &str, route: Vec<Vec<usize>>)
        requires
            old(self).wf(),
            route_below(route_of(route@), old(self)@.graph.nodes.len() as int),
        ensures
            final(self).wf(),
            final(self)@ == old(self)@.with_source(ident@).set_source(
                slot(old(self)@.source_names, ident@),
                (SourceModel {
                    to: route_of(route@),
                    ..old(self)@.with_source(ident@).graph.sources[slot(
                        old(self)@.source_names,
                        ident@,
                    )]
                }),
            ),
            old(self)@.untouched() ==> final(self)@.untouched(),
    {
        let i = self.get_or_insert_source(ident);
        self.graph.set_route(i, route);
    }

    /// Declares the opening balance of the sink named `ident` for a period.
    /// It replaces the balance that the sink has only if the sink has none
    /// yet or one for an earlier period. The sink is added first where none
    /// has that name.
    pub fn declare_balance(&mut self, date: Date, ident: &str, amount: Amount)
        requires
            old(self).wf(),
            amount.wf(),
            amount@ is Fin,
        ensures
            final(self).wf(),
            final(self)@ == (if later_than(
                date,
                old(self)@.with_sink(ident@).graph.sinks[slot(old(self)@.sink_names, ident@)].date,
            ) {
                old(self)@.with_sink(ident@).set_sink(
                    slot(old(self)@.sink_names, ident@),
                    (SinkModel {
                        balance: amount@.val(),
                        date: Some(date),
                        ..old(self)@.with_sink(ident@).graph.sinks[slot(old(self)@.sink_names, ident@)]
                    }),
                )
            } else {
                old(self)@.with_sink(ident@)
            }),
            old(self)@.untouched() ==> final(self)@.untouched(),
    {
        let i = self.get_or_insert_sink(ident);
        let newer = match &self.graph.sinks[i].date {
            Some(d) => date.after(d),
            None => true,
        };
        if newer {
            self.graph.set_balance(i, date, amount);
        }
    }

    /// Adds a routing node that leads to the sink named `ident`, with a
    /// capacity; the sink is added first where none has that name. The
    /// node's index is returned.
    pub fn add_sink_node(&mut self, ident: &str, capacity: Amount) -> (u: usize)
        requires
            old(self).wf(),
            capacity.wf(),
        ensures
            final(self).wf(),
            u == old(self)@.graph.nodes.len(),
            final(self)@ == old(self)@.with_sink(ident@).push_node(
                (NodeModel {
                    target: Target::Val(slot(old(self)@.sink_names, ident@) as usize),
                    amount: 0real,
                    capacity: capacity@,
                }),
            ),
            old(self)@.untouched() ==> final(self)@.untouched(),
    {
        proof {
            capacity.lemma_nonneg();
        }
        let i = self.get_or_insert_sink(ident);
        let node = UnaryCap { unary: Unary::Val(i), amount: Amount::zero(), capacity };
        self.graph.add_node(node)
    }

    /// Adds a routing node that leads to the nested expression `route`,
    /// which names nodes of the graph, with a capacity. The node's index is
    /// returned.
    pub fn add_expr_node(&mut self, route: Vec<Vec<usize>>, capacity: Amount) -> (u: usize)
        requires
            old(self).wf(),
            capacity.wf(),
            route_below(route_of(route@), old(self)@.graph.nodes.len() as int),
        ensures
            final(self).wf(),
            u == old(self)@.graph.nodes.len(),
            final(self)@ == old(self)@.push_node(
                (NodeModel { target: Target::Expr(route_of(route@)), amount: 0real, capacity: capacity@ }),
            ),
            old(self)@.untouched() ==> final(self)@.untouched(),
    {
        proof {
            capacity.lemma_nonneg();
        }
        let node = UnaryCap { unary: Unary::Expr(route), amount: Amount::zero(), capacity };
        self.graph.add_node(node)
    }

    /// Whether every node index of `route` is one of the graph's.
    pub fn knows_route(&self, route: &Vec<Vec<usize>>) -> (r: bool)
        ensures
            r == route_below(route_of(route@), self@.graph.nodes.len() as int),
    {
        let n = self.graph.unaries.len();
        let ghost rt = route_of(route@);
        let mut j: usize = 0;
        while j < route.len()
            invariant
                n == self@.graph.nodes.len(),
                rt == route_of(route@),
                j <= route@.len(),
                forall|a: int, b: int| 0 <= a < j && 0 <= b < rt[a].len() ==> (#[trigger] rt[a][b]) < n,
            decreases route@.len() - j,
        {
            let mut k: usize = 0;
            while k < route[j].len()
                invariant
                    n == self@.graph.nodes.len(),
                    rt == route_of(route@),
                    j < route@.len(),
                    k <= route@[j as int]@.len(),
                    forall|a: int, b: int| 0 <= a < j && 0 <= b < rt[a].len() ==> (#[trigger] rt[a][b]) < n,
                    forall|b: int| 0 <= b < k ==> (#[trigger] rt[j as int][b]) < n,
                decreases route@[j as int]@.len() - k,
            {
                if route[j][k] >= n {
                    assert(!(rt[j as int][k as int] < n));
                    return false;
                }
                k += 1;
            }
            j += 1;
        }
        true
    }

    /// Checks that every sink that asks for an opening balance got one. The
    /// error names the first sink that did not.
    pub fn validate(&self) -> (r: Result<(), BuildError>)
        requires
            self.wf(),
        ensures
            self@.first_unbalanced(0) >= self@.graph.sinks.len() ==> (r is Ok),
            self@.first_unbalanced(0) < self@.graph.sinks.len() ==> (r matches Err(
                BuildError::MissingBalance(name),
            ) && name@ == self@.sink_names[self@.first_unbalanced(0) as int]),
    {
        let mut j: usize = 0;
        while j < self.graph.sinks.len()
            invariant
                self.wf(),
                j <= self@.graph.sinks.len(),
                self@.first_unbalanced(j as nat) == self@.first_unbalanced(0),
            decreases self@.graph.sinks.len() - j,
        {
            let s = &self.graph.sinks[j];
            assert(self@.graph.sinks[j as int] == s@);
            if s.ask_for_balance && s.date.is_none() {
                assert(self@.sink_names.len() == self@.graph.sinks.len());
                assert(self.sink_names@.len() == texts(self.sink_names@).len());
                let name = self.sink_names[j].clone();
                assert(name@ == texts(self.sink_names@)[j as int]);
                return Err(BuildError::MissingBalance(name));
            }
            j += 1;
        }
        Ok(())
    }

    /// What every sink has received, in the order of the sinks: its name,
    /// what came in, and the period of its opening balance if it has one.
    pub fn inflows(&self) -> (r: Vec<(String, Amount, Option<Date>)>)
        requires
            self.wf(),
        ensures
            r@.len() == self@.graph.sinks.len(),
            forall|j: int|
                0 <= j < r@.len() ==> (#[trigger] r@[j]).0@ == self@.sink_names[j] && r@[j].1@ == Qty::Fin(
                    self@.graph.sinks[j].inflow,
                ) && r@[j].1.wf() && r@[j].2 == self@.graph.sinks[j].date,
    {
        let mut r: Vec<(String, Amount, Option<Date>)> = Vec::new();
        let mut j: usize = 0;
        while j < self.graph.sinks.len()
            invariant
                self.wf(),
                j <= self@.graph.sinks.len(),
                r@.len() == j,
                forall|k: int|
                    0 <= k < j ==> (#[trigger] r@[k]).0@ == self@.sink_names[k] && r@[k].1@ == Qty::Fin(
                        self@.graph.sinks[k].inflow,
                    ) && r@[k].1.wf() && r@[k].2 == self@.graph.sinks[k].date,
            decreases self@.graph.sinks.len() - j,
        {
            let s = &self.graph.sinks[j];
            assert(s.wf());
            assert(self@.graph.sinks[j as int] == s@);
            assert(self@.sink_names.len() == self@.graph.sinks.len());
            assert(self.sink_names@.len() == texts(self.sink_names@).len());
            let name = self.sink_names[j].clone();
            assert(name@ == texts(self.sink_names@)[j as int]);
            r.push((name, s.add_amount.dup(), s.date));
            j += 1;
        }
        r
    }

    /// Plans the next step and lets graph and ledger take it. `None` says
    /// that no source can give anything more: the allocation has converged.
    /// A planned step is always admissible, so the step is never refused.
    pub fn advance(&mut self) -> (r: Result<Option<Step>, FlowError>)
        requires
            old(self).wf(),
        ensures
            final(self).wf(),
            final(self)@.source_names == old(self)@.source_names,
            final(self)@.sink_names == old(self)@.sink_names,
            plan(old(self)@.graph).entries.len() == 0 ==> (r matches Ok(None)) && final(self)@ == old(
                self,
            )@,
            plan(old(self)@.graph).entries.len() > 0 && !admissible(
                old(self)@.graph,
                plan(old(self)@.graph),
            ) ==> (r is Err) && final(self)@ == old(self)@,
            plan(old(self)@.graph).entries.len() > 0 && admissible(
                old(self)@.graph,
                plan(old(self)@.graph),
            ) ==> (r matches Ok(Some(s)) && s@ == plan(old(self)@.graph) && final(self)@.graph
                == applied(old(self)@.graph, s@) && final(self)@.book == booked(
                old(self)@.book,
                s@.entries,
                s@.amount.val(),
                s@.entries.len(),
            )),
            r is Ok,
            total_in(final(self)@.graph) + total_left(final(self)@.graph) == total_in(old(self)@.graph)
                + total_left(old(self)@.graph),
            old(self)@.sound() ==> final(self)@.sound(),
            old(self)@.graph.holds_within() ==> final(self)@.graph.holds_within(),
    {
        let s = self.graph.next_step();
        if s.src_to_snks.len() == 0 {
            return Ok(None);
        }
        proof {
            lemma_plan_fits(self.graph@);
            law_plan_admissible(self.graph@);
        }
        match self.graph.apply_step(&s) {
            Err(e) => Err(e),
            Ok(()) => {
                self.book.apply_step(&s);
                proof {
                    law_conservation(old(self)@.graph, s@);
                    if old(self)@.graph.holds_within() {
                        law_holdings_respected(old(self)@.graph, s@);
                    }
                    if old(self)@.sound() {
                        law_capacity_respected(old(self)@.graph, s@);
                        law_ledger_agrees(old(self)@.graph, old(self)@.book, s@);
                    }
                }
                Ok(Some(s))
            },
        }
    }

    /// Runs the allocation: steps are planned and taken until no source can
    /// give anything more or `max_steps` steps were taken. One step for
    /// each source, each capped node and each capped sink is enough to
    /// converge. Whatever the end, nothing was created or destroyed; and if
    /// capacities were respected and ledger and graph agreed before, they
    /// are and do so after.
    pub fn run(&mut self, max_steps: usize) -> (r: Result<RunEnd, FlowError>)
        requires
            old(self).wf(),
        ensures
            final(self).wf(),
            final(self)@.source_names == old(self)@.source_names,
            final(self)@.sink_names == old(self)@.sink_names,
            final(self)@.graph == run_model(old(self)@.graph, old(self)@.book, max_steps as nat).0,
            final(self)@.book == run_model(old(self)@.graph, old(self)@.book, max_steps as nat).1,
            r == ended(run_model(old(self)@.graph, old(self)@.book, max_steps as nat).2),
            r is Ok,
            max_steps >= step_bound(old(self)@.graph) ==> r == Ok::<RunEnd, FlowError>(RunEnd::Converged),
            total_in(final(self)@.graph) + total_left(final(self)@.graph) == total_in(old(self)@.graph)
                + total_left(old(self)@.graph),
            old(self)@.sound() ==> final(self)@.sound(),
            old(self)@.graph.holds_within() ==> final(self)@.graph.holds_within(),
    {
        let r = self.run_steps(max_steps);
        proof {
            law_run_is_never_refused(old(self)@.graph, old(self)@.book, max_steps as nat);
            if max_steps >= step_bound(old(self)@.graph) {
                law_run_converges_within_bound(old(self)@.graph, old(self)@.book, max_steps as nat);
            }
            if old(self)@.graph.holds_within() {
                law_run_respects_holdings(old(self)@.graph, old(self)@.book, max_steps as nat);
            }
            law_run_conserves(old(self)@.graph, old(self)@.book, max_steps as nat);
            if old(self)@.sound() {
                law_run_respects_capacity(old(self)@.graph, old(self)@.book, max_steps as nat);
                law_run_ledger_agrees(old(self)@.graph, old(self)@.book, max_steps as nat);
            }
        }
        r
    }

    /// The loop of the run.
    fn run_steps(&mut self, max_steps: usize) -> (r: Result<RunEnd, FlowError>)
        requires
            old(self).wf(),
        ensures
            final(self).wf(),
            final(self)@.source_names == old(self)@.source_names,
            final(self)@.sink_names == old(self)@.sink_names,
            final(self)@.graph == run_model(old(self)@.graph, old(self)@.book, max_steps as nat).0,
            final(self)@.book == run_model(old(self)@.graph, old(self)@.book, max_steps as nat).1,
            r == ended(run_model(old(self)@.graph, old(self)@.book, max_steps as nat).2),
    {
        let mut left: usize = max_steps;
        loop
            invariant
                self.wf(),
                self@.source_names == old(self)@.source_names,
                self@.sink_names == old(self)@.sink_names,
                run_model(self@.graph, self@.book, left as nat) == run_model(
                    old(self)@.graph,
                    old(self)@.book,
                    max_steps as nat,
                ),
            decreases left,
        {
            let s = self.graph.next_step();
            if s.src_to_snks.len() == 0 {
                return Ok(RunEnd::Converged);
            }
            if left == 0 {
                return Ok(RunEnd::StepLimit);
            }
            proof {
                lemma_plan_fits(self.graph@);
            }
            match self.graph.apply_step(&s) {
                Err(e) => {
                    return Err(e);
                },
                Ok(()) => {
                    self.book.apply_step(&s);
                },
            }
            left -= 1;
        }
    }
}

/// Whether a balance for the period `date` replaces one for `held`.
pub open spec fn later_than(date: Date, held: Option<Date>) -> bool {
    match held {
        Some(d) => date.year > d.year || (date.year == d.year && date.month > d.month),
        None => true,
    }
}

/// What a run returns for each way in which it can end.
pub open spec fn ended(o: Outcome) -> Result<RunEnd, FlowError> {
    match o {
        Outcome::Converged => Ok(RunEnd::Converged),
        Outcome::Running => Ok(RunEnd::StepLimit),
        Outcome::Refused => Err(FlowError::ArithmeticInvariantViolation),
    }
}

/// A graph on which nothing has flowed is sound: every sink and node is
/// within its capacity, and the empty ledger agrees with it.
pub proof fn law_untouched_is_sound(m: FukoModel)
    requires
        m.untouched(),
    ensures
        m.sound(),
{
    assert forall|j: int| 0 <= j < m.graph.sinks.len() implies crate::laws::ledger_total(m.book, j) == (
    #[trigger] m.graph.sinks[j]).inflow by {}
}

} // verus!
