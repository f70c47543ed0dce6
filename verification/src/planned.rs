//! What holds of every planned step: it is admissible. The shares that the
//! planner keeps for sinks and nodes say exactly what a step brings each
//! sink and sends through each node.

use crate::amount::Qty;
use crate::flow::admissible;
use crate::flow::charge;
use crate::flow::inflow;
use crate::flow::node_flow;
use crate::flow::nodes_from;
use crate::flow::outflow;
use crate::flow::per_sink;
use crate::flow::spread;
use crate::laws::lemma_add_shares_len;
use crate::laws::lemma_plan_keeps;
use crate::laws::lemma_plan_sources_fit;
use crate::model::add_shares;
use crate::model::after_nodes;
use crate::model::lemma_probe_within;
use crate::model::node_bound;
use crate::model::plan;
use crate::model::plan_nodes;
use crate::model::plan_sinks;
use crate::model::plan_sources;
use crate::model::probe;
use crate::model::scaled;
use crate::model::sink_bound;
use crate::model::GraphModel;
use crate::model::PlanAcc;
use vstd::prelude::*;

verus! {

/// The `i`-th source is among the first `n`, has something left and reaches a sink.
pub open spec fn takes_part(g: GraphModel, n: nat, i: int) -> bool {
    &&& 0 <= i < n
    &&& i < g.sources.len()
    &&& g.sources[i].amount != 0real
    &&& probe(g, g.sources[i].to).sinks.len() > 0
}

/// A sink that is not among `sinks` gets nothing; no sink gets less than
/// nothing of a share that is not negative.
pub proof fn lemma_spread_sign(sinks: Seq<usize>, share: real, j: int)
    requires
        share >= 0real,
    ensures
        spread(sinks, share, j) >= 0real,
        (forall|t: int| 0 <= t < sinks.len() ==> sinks[t] != j) ==> spread(sinks, share, j) == 0real,
    decreases sinks.len(),
{
    if sinks.len() > 0 {
        lemma_spread_sign(sinks.drop_last(), share, j);
        if forall|t: int| 0 <= t < sinks.len() ==> sinks[t] != j {
            assert forall|t: int| 0 <= t < sinks.drop_last().len() implies sinks.drop_last()[t] != j by {
                assert(sinks.drop_last()[t] == sinks[t]);
            }
            assert(sinks[sinks.len() - 1] != j);
        }
    }
}

/// What a sink gets of `a` times a share is `a` times what it gets of the share.
pub proof fn lemma_spread_scales(sinks: Seq<usize>, a: real, share: real, j: int)
    ensures
        spread(sinks, a * share, j) == a * spread(sinks, share, j),
    decreases sinks.len(),
{
    if sinks.len() == 0 {
        assert(a * 0real == 0real) by (nonlinear_arith);
    } else {
        lemma_spread_scales(sinks.drop_last(), a, share, j);
        let rest = spread(sinks.drop_last(), share, j);
        assert(a * (rest + share) == a * rest + a * share) by (nonlinear_arith);
        assert(a * (rest + 0real) == a * rest + 0real) by (nonlinear_arith);
    }
}

/// A node that is not among `nodes` is charged nothing; no node is charged
/// less than nothing of a share that is not negative.
pub proof fn lemma_charge_sign(nodes: Seq<(usize, nat)>, share: real, u: int)
    requires
        share >= 0real,
    ensures
        charge(nodes, share, u) >= 0real,
        (forall|t: int| 0 <= t < nodes.len() ==> (#[trigger] nodes[t]).0 != u) ==> charge(nodes, share, u)
            == 0real,
    decreases nodes.len(),
{
    if nodes.len() > 0 {
        lemma_charge_sign(nodes.drop_last(), share, u);
        let m = nodes.last().1 as real;
        assert(share * m >= 0real) by (nonlinear_arith)
            requires
                share >= 0real,
                m >= 0real,
        ;
        if forall|t: int| 0 <= t < nodes.len() ==> (#[trigger] nodes[t]).0 != u {
            assert forall|t: int| 0 <= t < nodes.drop_last().len() implies (
            #[trigger] nodes.drop_last()[t]).0 != u by {
                assert(nodes.drop_last()[t] == nodes[t]);
            }
            assert(nodes[nodes.len() - 1].0 != u);
        }
    }
}

/// A node is charged at least what one of its records charges it.
pub proof fn lemma_charge_at_least(nodes: Seq<(usize, nat)>, share: real, u: int, k: int)
    requires
        share >= 0real,
        0 <= k < nodes.len(),
        nodes[k].0 == u,
    ensures
        charge(nodes, share, u) >= share * (nodes[k].1 as real),
    decreases nodes.len(),
{
    lemma_charge_sign(nodes.drop_last(), share, u);
    if k < nodes.len() - 1 {
        assert(nodes.drop_last()[k] == nodes[k]);
        lemma_charge_at_least(nodes.drop_last(), share, u, k);
        let m = nodes.last().1 as real;
        assert(share * m >= 0real) by (nonlinear_arith)
            requires
                share >= 0real,
                m >= 0real,
        ;
    }
}

/// What a node is charged of `a` times a share is `a` times what it is
/// charged of the share.
pub proof fn lemma_charge_scales(nodes: Seq<(usize, nat)>, a: real, share: real, u: int)
    ensures
        charge(nodes, a * share, u) == a * charge(nodes, share, u),
    decreases nodes.len(),
{
    if nodes.len() == 0 {
        assert(a * 0real == 0real) by (nonlinear_arith);
    } else {
        lemma_charge_scales(nodes.drop_last(), a, share, u);
        let rest = charge(nodes.drop_last(), share, u);
        let m = nodes.last().1 as real;
        assert(a * (rest + share * m) == a * rest + (a * share) * m) by (nonlinear_arith);
        assert(a * (rest + 0real) == a * rest + 0real) by (nonlinear_arith);
    }
}

/// After the first `k` sinks got their share, the share of the sink `j` has
/// grown by what these brought it.
pub proof fn lemma_shares(fracs: Seq<real>, sinks: Seq<usize>, k: nat, share: real, j: int)
    requires
        k <= sinks.len(),
        0 <= j < fracs.len(),
        forall|t: int| 0 <= t < sinks.len() ==> (#[trigger] sinks[t]) < fracs.len(),
    ensures
        add_shares(fracs, sinks, k, share).len() == fracs.len(),
        add_shares(fracs, sinks, k, share)[j] == fracs[j] + spread(sinks.take(k as int), share, j),
    decreases k,
{
    lemma_add_shares_len(fracs, sinks, k, share);
    if k == 0 {
        assert(sinks.take(0) =~= Seq::empty());
    } else {
        lemma_shares(fracs, sinks, (k - 1) as nat, share, j);
        assert(sinks.take(k as int).drop_last() =~= sinks.take(k - 1));
        assert(sinks.take(k as int).last() == sinks[k - 1]);
        assert(sinks[k - 1] < fracs.len());
    }
}

/// A node entry of another source changes nothing in the nodes recorded
/// for a source.
pub proof fn lemma_nodes_from_push(
    ne: Seq<(usize, Seq<(usize, nat)>)>,
    rec: (usize, Seq<(usize, nat)>),
    src: usize,
    q: nat,
)
    requires
        rec.0 != src,
    ensures
        nodes_from(ne.push(rec), src, q) == nodes_from(ne, src, q),
    decreases ne.len() + 1 - q,
{
    let more = ne.push(rec);
    if q < ne.len() {
        assert(more[q as int] == ne[q as int]);
        if ne[q as int].0 != src {
            lemma_nodes_from_push(ne, rec, src, q + 1);
        }
    } else if q == ne.len() {
        assert(more[q as int] == rec);
        assert(nodes_from(more, src, q + 1).len() == 0);
        assert(nodes_from(more, src, q) =~= nodes_from(ne, src, q));
    }
}

/// The node entry of a source that has none before it gives the nodes
/// recorded for that source.
pub proof fn lemma_nodes_from_new(
    ne: Seq<(usize, Seq<(usize, nat)>)>,
    rec: (usize, Seq<(usize, nat)>),
    q: nat,
)
    requires
        q <= ne.len(),
        forall|k: int| 0 <= k < ne.len() ==> (#[trigger] ne[k]).0 != rec.0,
    ensures
        nodes_from(ne.push(rec), rec.0, q) == rec.1,
    decreases ne.len() - q,
{
    let more = ne.push(rec);
    if q < ne.len() {
        assert(more[q as int] == ne[q as int]);
        lemma_nodes_from_new(ne, rec, q + 1);
    } else {
        assert(more[q as int] == rec);
    }
}

/// A node entry of a source that is in none of the entries changes
/// nothing in what passes through a node.
pub proof fn lemma_node_flow_push(
    entries: Seq<(usize, Seq<usize>)>,
    ne: Seq<(usize, Seq<(usize, nat)>)>,
    rec: (usize, Seq<(usize, nat)>),
    amount: real,
    u: int,
)
    requires
        forall|k: int| 0 <= k < entries.len() ==> (#[trigger] entries[k]).0 != rec.0,
    ensures
        node_flow(entries, ne.push(rec), amount, u) == node_flow(entries, ne, amount, u),
    decreases entries.len(),
{
    if entries.len() > 0 {
        assert forall|k: int| 0 <= k < entries.drop_last().len() implies (
        #[trigger] entries.drop_last()[k]).0 != rec.0 by {
            assert(entries.drop_last()[k] == entries[k]);
        }
        lemma_node_flow_push(entries.drop_last(), ne, rec, amount, u);
        assert(entries[entries.len() - 1].0 != rec.0);
        lemma_nodes_from_push(ne, rec, entries.last().0, 0);
    }
}

/// The shares of the sinks say what a step brings them: what the sink `j`
/// receives of a step of any amount `a` is `a` times its share. No share is
/// negative, and a full sink has none.
pub proof fn lemma_plan_shares(g: GraphModel, n: nat, a: real, j: int)
    requires
        g.wf(),
        n <= g.sources.len(),
        0 <= j < g.sinks.len(),
    ensures
        plan_sources(g, n).fracs.len() == g.sinks.len(),
        inflow(plan_sources(g, n).step.entries, a, j) == a * plan_sources(g, n).fracs[j],
        plan_sources(g, n).fracs[j] >= 0real,
        g.sinks[j].full() ==> plan_sources(g, n).fracs[j] == 0real,
    decreases n,
{
    lemma_plan_sources_fit(g, n);
    if n == 0 {
        assert(a * 0real == 0real) by (nonlinear_arith);
    } else {
        lemma_plan_shares(g, (n - 1) as nat, a, j);
        lemma_plan_sources_fit(g, (n - 1) as nat);
        let prev = plan_sources(g, (n - 1) as nat);
        let src = g.sources[n - 1];
        let p = probe(g, src.to);
        lemma_probe_within(g, src.to);
        if src.amount == 0real || p.sinks.len() == 0 {
        } else {
            let len = p.sinks.len() as real;
            let share = 1real / len;
            let now = plan_sources(g, n);
            assert(now.step.entries == prev.step.entries.push(((n - 1) as usize, p.sinks)));
            assert(now.step.entries.drop_last() =~= prev.step.entries);
            assert(now.step.entries.last() == ((n - 1) as usize, p.sinks));
            lemma_shares(prev.fracs, p.sinks, p.sinks.len(), share, j);
            assert(p.sinks.take(p.sinks.len() as int) =~= p.sinks);
            lemma_spread_scales(p.sinks, a, share, j);
            assert(share >= 0real) by (nonlinear_arith)
                requires
                    share == 1real / len,
                    len > 0real,
            ;
            lemma_spread_sign(p.sinks, share, j);
            assert(per_sink(a, p.sinks) == a * share) by (nonlinear_arith)
                requires
                    per_sink(a, p.sinks) == a / len,
                    share == 1real / len,
                    len > 0real,
            ;
            let sp = spread(p.sinks, share, j);
            assert(a * (prev.fracs[j] + sp) == a * prev.fracs[j] + a * sp) by (nonlinear_arith);
            if g.sinks[j].full() {
                assert forall|t: int| 0 <= t < p.sinks.len() implies p.sinks[t] != j by {
                    assert(!g.sinks[p.sinks[t] as int].full());
                }
            }
        }
    }
}

/// The shares of the nodes say what a step sends through them: what
/// passes through the node `u` in a step of any amount `a` is `a` times its
/// share. No share is negative; a node without a cap or without room has
/// none; and every source that takes part adds what its records charge.
pub proof fn lemma_plan_node_shares(g: GraphModel, n: nat, a: real, u: int)
    requires
        g.wf(),
        n <= g.sources.len(),
        0 <= u < g.nodes.len(),
    ensures
        plan_sources(g, n).node_fracs.len() == g.nodes.len(),
        node_flow(plan_sources(g, n).step.entries, plan_sources(g, n).step.node_entries, a, u) == a
            * plan_sources(g, n).node_fracs[u],
        plan_sources(g, n).node_fracs[u] >= 0real,
        g.nodes[u].saturated() || g.nodes[u].capacity is Inf ==> plan_sources(g, n).node_fracs[u]
            == 0real,
        forall|k: int|
            0 <= k < plan_sources(g, n).step.node_entries.len() ==> (#[trigger] plan_sources(
                g,
                n,
            ).step.node_entries[k]).0 < n,
        forall|i: int|
            takes_part(g, n, i) ==> plan_sources(g, n).node_fracs[u] >= #[trigger] charge(
                probe(g, g.sources[i].to).nodes,
                1real / (probe(g, g.sources[i].to).sinks.len() as real),
                u,
            ),
    decreases n,
{
    lemma_plan_sources_fit(g, n);
    if n == 0 {
        assert(a * 0real == 0real) by (nonlinear_arith);
    } else {
        lemma_plan_node_shares(g, (n - 1) as nat, a, u);
        lemma_plan_sources_fit(g, (n - 1) as nat);
        let prev = plan_sources(g, (n - 1) as nat);
        let now = plan_sources(g, n);
        let src = g.sources[n - 1];
        let p = probe(g, src.to);
        lemma_probe_within(g, src.to);
        if src.amount == 0real || p.sinks.len() == 0 {
            assert forall|i: int| takes_part(g, n, i) implies now.node_fracs[u] >= #[trigger] charge(
                probe(g, g.sources[i].to).nodes,
                1real / (probe(g, g.sources[i].to).sinks.len() as real),
                u,
            ) by {
                assert(takes_part(g, (n - 1) as nat, i));
            }
        } else {
            let len = p.sinks.len() as real;
            let share = 1real / len;
            let me = (n - 1) as usize;
            let rec = (me, p.nodes);
            assert(now.step.entries == prev.step.entries.push((me, p.sinks)));
            assert(now.step.node_entries == prev.step.node_entries.push(rec));
            assert(now.step.entries.drop_last() =~= prev.step.entries);
            assert(now.step.entries.last() == (me, p.sinks));
            assert forall|k: int| 0 <= k < prev.step.entries.len() implies (
            #[trigger] prev.step.entries[k]).0 != me by {}
            lemma_node_flow_push(prev.step.entries, prev.step.node_entries, rec, a, u);
            lemma_nodes_from_new(prev.step.node_entries, rec, 0);
            assert(share >= 0real) by (nonlinear_arith)
                requires
                    share == 1real / len,
                    len > 0real,
            ;
            assert(per_sink(a, p.sinks) == a * share) by (nonlinear_arith)
                requires
                    per_sink(a, p.sinks) == a / len,
                    share == 1real / len,
                    len > 0real,
            ;
            lemma_charge_scales(p.nodes, a, share, u);
            lemma_charge_sign(p.nodes, share, u);
            let ch = charge(p.nodes, share, u);
            assert(now.node_fracs[u] == prev.node_fracs[u] + ch);
            assert(a * (prev.node_fracs[u] + ch) == a * prev.node_fracs[u] + a * ch) by (nonlinear_arith);
            if g.nodes[u].saturated() || g.nodes[u].capacity is Inf {
                assert forall|t: int| 0 <= t < p.nodes.len() implies (#[trigger] p.nodes[t]).0 != u by {
                    assert(!g.nodes[p.nodes[t].0 as int].saturated());
                }
            }
            assert forall|k: int| 0 <= k < now.step.node_entries.len() implies (
            #[trigger] now.step.node_entries[k]).0 < n by {
                if k < prev.step.node_entries.len() {
                    assert(now.step.node_entries[k] == prev.step.node_entries[k]);
                }
            }
            assert forall|i: int| takes_part(g, n, i) implies now.node_fracs[u] >= #[trigger] charge(
                probe(g, g.sources[i].to).nodes,
                1real / (probe(g, g.sources[i].to).sinks.len() as real),
                u,
            ) by {
                if i < n - 1 {
                    assert(takes_part(g, (n - 1) as nat, i));
                }
            }
        }
    }
}

/// What leaves a source in a step of `a` over the entries planned for the
/// first `n` sources: `a` if the source takes part, nothing if not.
pub proof fn lemma_plan_outflow(g: GraphModel, n: nat, a: real, i: int)
    requires
        n <= g.sources.len() <= usize::MAX,
        0 <= i,
    ensures
        outflow(plan_sources(g, n).step.entries, a, i) == (if takes_part(g, n, i) {
            a
        } else {
            0real
        }),
    decreases n,
{
    if n == 0 {
    } else {
        lemma_plan_outflow(g, (n - 1) as nat, a, i);
        let prev = plan_sources(g, (n - 1) as nat);
        let src = g.sources[n - 1];
        let p = probe(g, src.to);
        if src.amount == 0real || p.sinks.len() == 0 {
        } else {
            let now = plan_sources(g, n);
            assert(now.step.entries == prev.step.entries.push(((n - 1) as usize, p.sinks)));
            assert(now.step.entries.drop_last() =~= prev.step.entries);
            assert(now.step.entries.last().0 == n - 1);
        }
    }
}

/// The step planned over the first `n` sources is no larger than what any
/// source that takes part has, nor than the limit of its probe taken once
/// for each of its sinks.
pub proof fn lemma_plan_amount(g: GraphModel, n: nat, i: int)
    requires
        n <= g.sources.len(),
        takes_part(g, n, i),
    ensures
        plan_sources(g, n).step.amount.le(Qty::Fin(g.sources[i].amount)),
        plan_sources(g, n).step.amount.le(
            scaled(probe(g, g.sources[i].to).limit, probe(g, g.sources[i].to).sinks.len()),
        ),
    decreases n,
{
    if i < n - 1 {
        lemma_plan_amount(g, (n - 1) as nat, i);
    }
}

/// Once the bounds of the first `m` nodes are taken in, the step is no
/// larger than the bound of any of them.
pub proof fn lemma_plan_nodes_bound(g: GraphModel, acc: PlanAcc, m: nat, u: int)
    requires
        m <= g.nodes.len(),
        m <= acc.node_fracs.len(),
        0 <= u < m,
    ensures
        plan_nodes(g, acc, m).amount.le(node_bound(g.nodes[u], acc.node_fracs[u])),
    decreases m,
{
    if u < m - 1 {
        lemma_plan_nodes_bound(g, acc, (m - 1) as nat, u);
    }
}

/// Once the bounds of the first `m` sinks are taken in, the step is no
/// larger than the bound of any of them.
pub proof fn lemma_plan_sinks_bound(g: GraphModel, acc: PlanAcc, m: nat, j: int)
    requires
        m <= g.sinks.len(),
        m <= acc.fracs.len(),
        0 <= j < m,
    ensures
        plan_sinks(g, acc, m).amount.le(sink_bound(g.sinks[j], acc.fracs[j])),
    decreases m,
{
    if j < m - 1 {
        lemma_plan_sinks_bound(g, acc, (m - 1) as nat, j);
    }
}

/// A planned step is admissible: it takes from no source more than the
/// source has, and it leaves every sink and every node that it touches
/// within its capacity.
pub proof fn law_plan_admissible(g: GraphModel)
    requires
        g.wf(),
    ensures
        admissible(g, plan(g)),
{
    let n = g.sources.len();
    let acc = plan_sources(g, n);
    let s = plan(g);
    let a = s.amount.val();
    lemma_plan_keeps(g);
    lemma_plan_sources_fit(g, n);
    assert forall|i: int| 0 <= i < g.sources.len() implies #[trigger] s.out_of(i) <= g.sources[i].amount by {
        lemma_plan_outflow(g, n, a, i);
        if takes_part(g, n, i) {
            lemma_plan_amount(g, n, i);
        }
    }
    assert forall|j: int| 0 <= j < g.sinks.len() implies #[trigger] s.into(j) == 0real || Qty::Fin(
        g.sinks[j].holdings() + s.into(j),
    ).le(g.sinks[j].capacity) by {
        lemma_plan_shares(g, n, a, j);
        let f = acc.fracs[j];
        if f == 0real {
            assert(a * 0real == 0real) by (nonlinear_arith);
        } else {
            lemma_plan_sinks_bound(g, after_nodes(g, acc), g.sinks.len(), j);
            match g.sinks[j].capacity {
                Qty::Inf => {},
                Qty::Fin(c) => {
                    let d = c - g.sinks[j].holdings();
                    assert(d > 0real);
                    if s.amount is Fin {
                        assert(a <= d / f);
                        assert(a * f <= d) by (nonlinear_arith)
                            requires
                                a <= d / f,
                                f > 0real,
                        ;
                    } else {
                        assert(a * f == 0real) by (nonlinear_arith)
                            requires
                                a == 0real,
                        ;
                    }
                },
            }
        }
    }
    assert forall|u: int| 0 <= u < g.nodes.len() implies #[trigger] s.through(u) == 0real || Qty::Fin(
        g.nodes[u].amount + s.through(u),
    ).le(g.nodes[u].capacity) by {
        lemma_plan_node_shares(g, n, a, u);
        let f = acc.node_fracs[u];
        if f == 0real {
            assert(a * 0real == 0real) by (nonlinear_arith);
        } else {
            lemma_plan_nodes_bound(g, acc, g.nodes.len(), u);
            match g.nodes[u].capacity {
                Qty::Inf => {},
                Qty::Fin(c) => {
                    let d = c - g.nodes[u].amount;
                    assert(d > 0real);
                    if s.amount is Fin {
                        assert(a <= d / f);
                        assert(a * f <= d) by (nonlinear_arith)
                            requires
                                a <= d / f,
                                f > 0real,
                        ;
                    } else {
                        assert(a * f == 0real) by (nonlinear_arith)
                            requires
                                a == 0real,
                        ;
                    }
                },
            }
        }
    }
}

} // verus!
