//! How long a run can take: what is still open in a graph, that every
//! planned step closes something, and that a run therefore converges
//! within as many steps as there are sources, capped nodes and capped sinks.

use crate::amount::lemma_div_mul;
use crate::amount::Qty;
use crate::book::booked;
use crate::book::BookModel;
use crate::flow::applied;
use crate::laws::lemma_applied_wf;
use crate::laws::lemma_plan_keeps;
use crate::laws::lemma_plan_sources_fit;
use crate::model::after_nodes;
use crate::model::lemma_probe_within;
use crate::model::node_bound;
use crate::model::per_fed;
use crate::model::plan;
use crate::model::plan_nodes;
use crate::model::plan_sinks;
use crate::model::plan_sources;
use crate::model::probe;
use crate::model::scaled;
use crate::model::sink_bound;
use crate::model::GraphModel;
use crate::model::PlanAcc;
use crate::model::StopReason;
use crate::planned::law_plan_admissible;
use crate::planned::lemma_charge_at_least;
use crate::planned::lemma_plan_node_shares;
use crate::planned::lemma_plan_nodes_bound;
use crate::planned::lemma_plan_outflow;
use crate::planned::lemma_plan_shares;
use crate::planned::takes_part;
use crate::value::run_model;
use vstd::prelude::*;

verus! {

/// How many entries of `s` are true.
pub open spec fn count(s: Seq<bool>) -> nat
    decreases s.len(),
{
    if s.len() == 0 {
        0
    } else {
        count(s.drop_last()) + (if s.last() {
            1nat
        } else {
            0nat
        })
    }
}

/// For each source, whether it has something left.
pub open spec fn open_sources(g: GraphModel) -> Seq<bool> {
    Seq::new(g.sources.len(), |i: int| g.sources[i].amount != 0real)
}

/// For each node, whether it has a capacity and room under it.
pub open spec fn open_nodes(g: GraphModel) -> Seq<bool> {
    Seq::new(g.nodes.len(), |u: int| g.nodes[u].capacity is Fin && !g.nodes[u].saturated())
}

/// For each sink, whether it has a capacity and room under it.
pub open spec fn open_sinks(g: GraphModel) -> Seq<bool> {
    Seq::new(g.sinks.len(), |j: int| g.sinks[j].capacity is Fin && !g.sinks[j].full())
}

/// What is still open in the graph: the sources with something left and the
/// capped nodes and sinks with room.
pub open spec fn pending(g: GraphModel) -> nat {
    count(open_sources(g)) + count(open_nodes(g)) + count(open_sinks(g))
}

/// The number of steps that a run needs at most: one for each source, each
/// capped node and each capped sink.
pub open spec fn step_bound(g: GraphModel) -> nat {
    g.sources.len() + count(Seq::new(g.nodes.len(), |u: int| g.nodes[u].capacity is Fin)) + count(
        Seq::new(g.sinks.len(), |j: int| g.sinks[j].capacity is Fin),
    )
}

/// From `g` to `h` something was closed: a source was exhausted, a capped
/// node saturated or a capped sink filled.
pub open spec fn closes_something(g: GraphModel, h: GraphModel) -> bool {
    ||| exists|i: int| 0 <= i < g.sources.len() && open_sources(g)[i] && !open_sources(h)[i]
    ||| exists|u: int| 0 <= u < g.nodes.len() && open_nodes(g)[u] && !open_nodes(h)[u]
    ||| exists|j: int| 0 <= j < g.sinks.len() && open_sinks(g)[j] && !open_sinks(h)[j]
}

/// Where `b` is true only where `a` is, no more entries of `b` are true.
pub proof fn lemma_count_mono(a: Seq<bool>, b: Seq<bool>)
    requires
        a.len() == b.len(),
        forall|i: int| 0 <= i < a.len() ==> (#[trigger] b[i] ==> a[i]),
    ensures
        count(b) <= count(a),
    decreases a.len(),
{
    if a.len() > 0 {
        assert(b[b.len() - 1] ==> a[a.len() - 1]);
        assert forall|i: int| 0 <= i < a.drop_last().len() implies (#[trigger] b.drop_last()[i]
            ==> a.drop_last()[i]) by {
            assert(b[i] ==> a[i]);
        }
        lemma_count_mono(a.drop_last(), b.drop_last());
    }
}

/// Where `b` is true only where `a` is, and false in one place where `a` is
/// true, fewer entries of `b` are true.
pub proof fn lemma_count_drop(a: Seq<bool>, b: Seq<bool>, k: int)
    requires
        a.len() == b.len(),
        forall|i: int| 0 <= i < a.len() ==> (#[trigger] b[i] ==> a[i]),
        0 <= k < a.len(),
        a[k],
        !b[k],
    ensures
        count(b) < count(a),
    decreases a.len(),
{
    assert(b[b.len() - 1] ==> a[a.len() - 1]);
    assert forall|i: int| 0 <= i < a.drop_last().len() implies (#[trigger] b.drop_last()[i]
        ==> a.drop_last()[i]) by {
        assert(b[i] ==> a[i]);
    }
    if k == a.len() - 1 {
        lemma_count_mono(a.drop_last(), b.drop_last());
    } else {
        assert(a.drop_last()[k] == a[k]);
        assert(b.drop_last()[k] == b[k]);
        lemma_count_drop(a.drop_last(), b.drop_last(), k);
    }
}

/// Where no entry is counted, every entry is false.
pub proof fn lemma_count_none(a: Seq<bool>, k: int)
    requires
        count(a) == 0,
        0 <= k < a.len(),
    ensures
        !a[k],
    decreases a.len(),
{
    if k < a.len() - 1 {
        assert(a.drop_last()[k] == a[k]);
        lemma_count_none(a.drop_last(), k);
    }
}

/// Of `n` entries that are all true, `n` are counted.
pub proof fn lemma_count_all(n: nat)
    ensures
        count(Seq::new(n, |i: int| true)) == n,
    decreases n,
{
    if n > 0 {
        assert(Seq::new(n, |i: int| true).drop_last() =~= Seq::new((n - 1) as nat, |i: int| true));
        lemma_count_all((n - 1) as nat);
    }
}

/// No more is pending than the step bound counts.
pub proof fn lemma_pending_bounded(g: GraphModel)
    ensures
        pending(g) <= step_bound(g),
{
    lemma_count_mono(Seq::new(g.sources.len(), |i: int| true), open_sources(g));
    lemma_count_all(g.sources.len());
    lemma_count_mono(Seq::new(g.nodes.len(), |u: int| g.nodes[u].capacity is Fin), open_nodes(g));
    lemma_count_mono(Seq::new(g.sinks.len(), |j: int| g.sinks[j].capacity is Fin), open_sinks(g));
}

/// Where no source has anything left, the step planned has no entry.
pub proof fn lemma_nothing_left(g: GraphModel, n: nat)
    requires
        n <= g.sources.len(),
        forall|i: int| 0 <= i < g.sources.len() ==> (#[trigger] g.sources[i]).amount == 0real,
    ensures
        plan_sources(g, n).step.entries.len() == 0,
    decreases n,
{
    if n > 0 {
        lemma_nothing_left(g, (n - 1) as nat);
    }
}

/// What stopped the step while the sources were looked at: never a sink;
/// and once a source takes part, a source that takes part, by what it has
/// left or by the limit of its probe for each of its sinks.
pub proof fn lemma_source_stop(g: GraphModel, n: nat) -> (i: int)
    requires
        n <= g.sources.len(),
    ensures
        plan_sources(g, n).step.reason != StopReason::SinkFull,
        plan_sources(g, n).step.entries.len() == 0 ==> plan_sources(g, n).step.amount is Inf
            && plan_sources(g, n).step.reason == StopReason::NodeFull,
        plan_sources(g, n).step.entries.len() > 0 ==> takes_part(g, n, i) && plan_sources(
            g,
            n,
        ).step.amount is Fin,
        plan_sources(g, n).step.entries.len() > 0 && plan_sources(g, n).step.reason
            == StopReason::SourceDepleted ==> plan_sources(g, n).step.amount == Qty::Fin(
            g.sources[i].amount,
        ),
        plan_sources(g, n).step.entries.len() > 0 && plan_sources(g, n).step.reason
            == StopReason::NodeFull ==> plan_sources(g, n).step.amount == scaled(
            probe(g, g.sources[i].to).limit,
            probe(g, g.sources[i].to).sinks.len(),
        ),
    decreases n,
{
    if n == 0 {
        0
    } else {
        let before = lemma_source_stop(g, (n - 1) as nat);
        let prev = plan_sources(g, (n - 1) as nat);
        let src = g.sources[n - 1];
        let p = probe(g, src.to);
        if src.amount == 0real || p.sinks.len() == 0 {
            before
        } else {
            let own = Qty::Fin(src.amount);
            let first = own.lt(prev.step.amount);
            let amt1 = if first {
                own
            } else {
                prev.step.amount
            };
            let second = scaled(p.limit, p.sinks.len()).lt(amt1);
            if first || second {
                n - 1
            } else {
                before
            }
        }
    }
}

/// What stopped the step once the nodes were looked at: the node that is
/// named, at whose bound the step then is; or, where none is named, what
/// had stopped it before.
pub proof fn lemma_node_stop(g: GraphModel, acc: PlanAcc, m: nat) -> (u: int)
    requires
        m <= g.nodes.len(),
        m <= acc.node_fracs.len(),
        acc.step.reason != StopReason::SinkFull,
    ensures
        plan_nodes(g, acc, m).reason != StopReason::SinkFull,
        u < 0 ==> plan_nodes(g, acc, m) == acc.step,
        u >= 0 ==> u < m && plan_nodes(g, acc, m).amount is Fin && plan_nodes(g, acc, m).amount
            == node_bound(g.nodes[u], acc.node_fracs[u]) && plan_nodes(g, acc, m).reason
            == StopReason::NodeFull,
    decreases m,
{
    if m == 0 {
        -1
    } else {
        let before = lemma_node_stop(g, acc, (m - 1) as nat);
        let b = node_bound(g.nodes[m - 1], acc.node_fracs[m - 1]);
        if b.lt(plan_nodes(g, acc, (m - 1) as nat).amount) {
            m - 1
        } else {
            before
        }
    }
}

/// What stopped the step once the sinks were looked at: the sink that is
/// named, at whose bound the step then is; or, where none is named, what
/// had stopped it before.
pub proof fn lemma_sink_stop(g: GraphModel, acc: PlanAcc, m: nat) -> (j: int)
    requires
        m <= g.sinks.len(),
        m <= acc.fracs.len(),
    ensures
        j < 0 ==> plan_sinks(g, acc, m) == acc.step,
        j >= 0 ==> j < m && plan_sinks(g, acc, m).amount is Fin && plan_sinks(g, acc, m).amount
            == sink_bound(g.sinks[j], acc.fracs[j]) && plan_sinks(g, acc, m).reason
            == StopReason::SinkFull,
    decreases m,
{
    if m == 0 {
        -1
    } else {
        let before = lemma_sink_stop(g, acc, (m - 1) as nat);
        let b = sink_bound(g.sinks[m - 1], acc.fracs[m - 1]);
        if b.lt(plan_sinks(g, acc, (m - 1) as nat).amount) {
            m - 1
        } else {
            before
        }
    }
}

/// A planned step opens nothing: a source with nothing left, a saturated
/// node and a full sink are after the step what they were before it.
pub proof fn law_planned_step_opens_nothing(g: GraphModel)
    requires
        g.wf(),
    ensures
        forall|i: int|
            0 <= i < g.sources.len() ==> (#[trigger] open_sources(applied(g, plan(g)))[i]
                ==> open_sources(g)[i]),
        forall|u: int|
            0 <= u < g.nodes.len() ==> (#[trigger] open_nodes(applied(g, plan(g)))[u] ==> open_nodes(g)[u]),
        forall|j: int|
            0 <= j < g.sinks.len() ==> (#[trigger] open_sinks(applied(g, plan(g)))[j] ==> open_sinks(g)[j]),
{
    let n = g.sources.len();
    let s = plan(g);
    let a = s.amount.val();
    let h = applied(g, s);
    lemma_plan_keeps(g);
    assert forall|i: int| 0 <= i < g.sources.len() implies (#[trigger] open_sources(h)[i]
        ==> open_sources(g)[i]) by {
        lemma_plan_outflow(g, n, a, i);
    }
    assert forall|u: int| 0 <= u < g.nodes.len() implies (#[trigger] open_nodes(h)[u] ==> open_nodes(
        g,
    )[u]) by {
        if g.nodes[u].saturated() {
            lemma_plan_node_shares(g, n, a, u);
            assert(a * 0real == 0real) by (nonlinear_arith);
            assert(s.through(u) == 0real);
        }
    }
    assert forall|j: int| 0 <= j < g.sinks.len() implies (#[trigger] open_sinks(h)[j] ==> open_sinks(
        g,
    )[j]) by {
        if g.sinks[j].full() {
            lemma_plan_shares(g, n, a, j);
            assert(a * 0real == 0real) by (nonlinear_arith);
            assert(s.into(j) == 0real);
        }
    }
}

/// A step that a sink stopped fills a sink: a capped sink that had room
/// before the step holds exactly its capacity after it.
pub proof fn law_sink_stop_fills_a_sink(g: GraphModel) -> (j: int)
    requires
        g.wf(),
        plan(g).reason == StopReason::SinkFull,
    ensures
        0 <= j < g.sinks.len(),
        open_sinks(g)[j],
        !open_sinks(applied(g, plan(g)))[j],
        applied(g, plan(g)).sinks[j].holdings() == g.sinks[j].capacity.val(),
{
    let n = g.sources.len();
    let acc = plan_sources(g, n);
    let acc2 = after_nodes(g, acc);
    let s = plan(g);
    let a = s.amount.val();
    let h = applied(g, s);
    lemma_plan_keeps(g);
    lemma_plan_sources_fit(g, n);
    let i = lemma_source_stop(g, n);
    let u = lemma_node_stop(g, acc, g.nodes.len());
    let j = lemma_sink_stop(g, acc2, g.sinks.len());
    lemma_plan_shares(g, n, a, j);
    let f = acc.fracs[j];
    let d = g.sinks[j].capacity.val() - g.sinks[j].holdings();
    assert(a == d / f);
    assert(a * f == d) by (nonlinear_arith)
        requires
            a == d / f,
            f != 0real,
    ;
    assert(s.into(j) == d);
    assert(h.sinks[j].inflow == g.sinks[j].inflow + d);
    j
}

/// A step that a source stopped exhausts a source: a source that takes
/// part in the step has exactly the step's amount and nothing after it.
pub proof fn law_source_stop_exhausts_a_source(g: GraphModel) -> (i: int)
    requires
        g.wf(),
        plan(g).reason == StopReason::SourceDepleted,
    ensures
        takes_part(g, g.sources.len(), i),
        plan(g).amount == Qty::Fin(g.sources[i].amount),
        open_sources(g)[i],
        !open_sources(applied(g, plan(g)))[i],
{
    let n = g.sources.len();
    let acc = plan_sources(g, n);
    let acc2 = after_nodes(g, acc);
    let s = plan(g);
    let h = applied(g, s);
    lemma_plan_keeps(g);
    lemma_plan_sources_fit(g, n);
    let i = lemma_source_stop(g, n);
    let u = lemma_node_stop(g, acc, g.nodes.len());
    let j = lemma_sink_stop(g, acc2, g.sinks.len());
    assert(s == acc.step);
    lemma_plan_outflow(g, n, s.amount.val(), i);
    assert(h.sources[i].amount == g.sources[i].amount - s.out_of(i));
    i
}

/// A step that a node stopped saturates a node: a capped node that had
/// room before the step has let through exactly its capacity after it.
pub proof fn law_node_stop_saturates_a_node(g: GraphModel) -> (v: int)
    requires
        g.wf(),
        plan(g).entries.len() > 0,
        plan(g).reason == StopReason::NodeFull,
    ensures
        0 <= v < g.nodes.len(),
        open_nodes(g)[v],
        !open_nodes(applied(g, plan(g)))[v],
        applied(g, plan(g)).nodes[v].amount == g.nodes[v].capacity.val(),
{
    let n = g.sources.len();
    let acc = plan_sources(g, n);
    let acc2 = after_nodes(g, acc);
    let s = plan(g);
    let a = s.amount.val();
    let h = applied(g, s);
    lemma_plan_keeps(g);
    lemma_plan_sources_fit(g, n);
    let i = lemma_source_stop(g, n);
    let u = lemma_node_stop(g, acc, g.nodes.len());
    let j = lemma_sink_stop(g, acc2, g.sinks.len());
    assert(s == acc2.step);
    if u >= 0 {
        lemma_plan_node_shares(g, n, a, u);
        let f = acc.node_fracs[u];
        let d = g.nodes[u].capacity.val() - g.nodes[u].amount;
        assert(a == d / f);
        assert(a * f == d) by (nonlinear_arith)
            requires
                a == d / f,
                f != 0real,
        ;
        assert(s.through(u) == d);
        assert(h.nodes[u].amount == g.nodes[u].amount + d);
        u
    } else {
        assert(s == acc.step);
        let p = probe(g, g.sources[i].to);
        lemma_probe_within(g, g.sources[i].to);
        let l = p.limit.val();
        let ns = p.sinks.len() as real;
        let sh = 1real / ns;
        let k = choose|k: int|
            0 <= k < p.nodes.len() && p.limit == #[trigger] per_fed(
                g.nodes[p.nodes[k].0 as int].rest(),
                p.nodes[k].1,
            );
        let v = p.nodes[k].0 as int;
        let m = p.nodes[k].1 as real;
        let d = g.nodes[v].capacity.val() - g.nodes[v].amount;
        assert(l == d / m);
        assert(d > 0real);
        lemma_plan_node_shares(g, n, a, v);
        let f = acc.node_fracs[v];
        assert(f >= charge_of(g, i, v));
        lemma_div_mul(1real, ns);
        assert(sh >= 0real) by (nonlinear_arith)
            requires
                sh == 1real / ns,
                ns > 0real,
        ;
        lemma_charge_at_least(p.nodes, sh, v, k);
        lemma_div_mul(d, m);
        assert(a * (sh * m) == d) by (nonlinear_arith)
            requires
                a == l * ns,
                l * m == d,
                sh * ns == 1real,
        ;
        assert(sh * m > 0real && a > 0real) by (nonlinear_arith)
            requires
                a * (sh * m) == d,
                d > 0real,
                sh >= 0real,
                m > 0real,
        ;
        assert(a * f >= d) by (nonlinear_arith)
            requires
                a * (sh * m) == d,
                a > 0real,
                f >= sh * m,
        ;
        lemma_plan_nodes_bound(g, acc, g.nodes.len(), v);
        assert(a <= d / f);
        assert(a * f <= d) by (nonlinear_arith)
            requires
                a <= d / f,
                f > 0real,
        ;
        assert(s.through(v) == d);
        assert(h.nodes[v].amount == g.nodes[v].amount + d);
        v
    }
}

/// Every planned step in which a source takes part closes something: it
/// exhausts a source, saturates a capped node or fills a capped sink.
pub proof fn law_planned_step_closes(g: GraphModel)
    requires
        g.wf(),
        plan(g).entries.len() > 0,
    ensures
        closes_something(g, applied(g, plan(g))),
{
    match plan(g).reason {
        StopReason::SinkFull => {
            law_sink_stop_fills_a_sink(g);
        },
        StopReason::SourceDepleted => {
            law_source_stop_exhausts_a_source(g);
        },
        StopReason::NodeFull => {
            law_node_stop_saturates_a_node(g);
        },
    }
}

/// What the records of the `i`-th source charge the node `v` for each unit
/// of a step.
pub open spec fn charge_of(g: GraphModel, i: int, v: int) -> real {
    crate::flow::charge(
        probe(g, g.sources[i].to).nodes,
        1real / (probe(g, g.sources[i].to).sinks.len() as real),
        v,
    )
}

/// A planned step in which a source takes part leaves less pending than
/// there was.
pub proof fn lemma_pending_drops(g: GraphModel)
    requires
        g.wf(),
        plan(g).entries.len() > 0,
    ensures
        pending(applied(g, plan(g))) < pending(g),
{
    let h = applied(g, plan(g));
    law_planned_step_closes(g);
    law_planned_step_opens_nothing(g);
    lemma_count_mono(open_sources(g), open_sources(h));
    lemma_count_mono(open_nodes(g), open_nodes(h));
    lemma_count_mono(open_sinks(g), open_sinks(h));
    if exists|i: int| 0 <= i < g.sources.len() && open_sources(g)[i] && !open_sources(h)[i] {
        let i = choose|i: int| 0 <= i < g.sources.len() && open_sources(g)[i] && !open_sources(h)[i];
        lemma_count_drop(open_sources(g), open_sources(h), i);
    } else if exists|u: int| 0 <= u < g.nodes.len() && open_nodes(g)[u] && !open_nodes(h)[u] {
        let u = choose|u: int| 0 <= u < g.nodes.len() && open_nodes(g)[u] && !open_nodes(h)[u];
        lemma_count_drop(open_nodes(g), open_nodes(h), u);
    } else {
        let j = choose|j: int| 0 <= j < g.sinks.len() && open_sinks(g)[j] && !open_sinks(h)[j];
        lemma_count_drop(open_sinks(g), open_sinks(h), j);
    }
}

/// A run never meets a step that is refused.
pub proof fn law_run_is_never_refused(g: GraphModel, b: BookModel, fuel: nat)
    requires
        g.wf(),
    ensures
        !(run_model(g, b, fuel).2 is Refused),
    decreases fuel,
{
    let p = plan(g);
    law_plan_admissible(g);
    if p.entries.len() > 0 && fuel > 0 {
        lemma_applied_wf(g, p);
        law_run_is_never_refused(
            applied(g, p),
            booked(b, p.entries, p.amount.val(), p.entries.len()),
            (fuel - 1) as nat,
        );
    }
}

/// Termination: a run that may take as many steps as there are sources
/// with something left and capped nodes and sinks with room has converged.
pub proof fn law_run_converges(g: GraphModel, b: BookModel, fuel: nat)
    requires
        g.wf(),
        fuel >= pending(g),
    ensures
        run_model(g, b, fuel).2 is Converged,
    decreases fuel,
{
    let p = plan(g);
    law_plan_admissible(g);
    if p.entries.len() == 0 {
    } else if fuel == 0 {
        assert forall|i: int| 0 <= i < g.sources.len() implies (#[trigger] g.sources[i]).amount
            == 0real by {
            lemma_count_none(open_sources(g), i);
        }
        lemma_nothing_left(g, g.sources.len());
        lemma_plan_keeps(g);
    } else {
        lemma_pending_drops(g);
        lemma_applied_wf(g, p);
        law_run_converges(
            applied(g, p),
            booked(b, p.entries, p.amount.val(), p.entries.len()),
            (fuel - 1) as nat,
        );
    }
}

/// Termination within the bound: a run that may take one step for each
/// source, each capped node and each capped sink has converged.
pub proof fn law_run_converges_within_bound(g: GraphModel, b: BookModel, fuel: nat)
    requires
        g.wf(),
        fuel >= step_bound(g),
    ensures
        run_model(g, b, fuel).2 is Converged,
{
    lemma_pending_bounded(g);
    law_run_converges(g, b, fuel);
}

} // verus!
