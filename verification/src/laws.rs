//! What holds of every graph, step and ledger.

use crate::amount::Qty;
use crate::book::booked;
use crate::book::credit;
use crate::book::credit_all;
use crate::book::find_from;
use crate::book::find_to;
use crate::book::with_record;
use crate::book::with_transfer;
use crate::book::BookModel;
use crate::book::TransferModel;
use crate::flow::admissible;
use crate::flow::applied;
use crate::amount::lemma_div_mul;
use crate::flow::inflow;
use crate::flow::outflow;
use crate::flow::per_sink;
use crate::flow::spread;
use crate::model::lemma_probe_within;
use crate::model::probe_group;
use crate::model::Probe;
use crate::model::Route;
use crate::value::run_model;
use crate::model::plan;
use crate::model::after_nodes;
use crate::model::plan_nodes;
use crate::model::plan_sinks;
use crate::model::probe_groups;
use crate::model::plan_sources;
use crate::model::probe;
use crate::model::GraphModel;
use crate::model::PlanAcc;
use crate::model::StepModel;
use vstd::prelude::*;

verus! {

/// The sources of the entries are below `n`, and the step, if it has an
/// entry, fits the graph.
pub open spec fn fits_below(s: StepModel, g: GraphModel, n: nat) -> bool {
    &&& s.entries.len() > 0 ==> s.amount is Fin
    &&& forall|k: int|
        0 <= k < s.entries.len() ==> (#[trigger] s.entries[k]).0 < n && s.entries[k].1.len() > 0
    &&& forall|k: int, t: int|
        0 <= k < s.entries.len() && 0 <= t < s.entries[k].1.len() ==> (#[trigger] s.entries[k].1[t])
            < g.sinks.len()
    &&& forall|k: int, t: int|
        0 <= k < s.node_entries.len() && 0 <= t < s.node_entries[k].1.len() ==> (
        #[trigger] s.node_entries[k].1[t]).0 < g.nodes.len()
}

/// The step planned over the first `n` sources names only sources below `n`,
/// sinks and nodes of the graph, and has a finite amount once a source takes part.
pub proof fn lemma_plan_sources_fit(g: GraphModel, n: nat)
    requires
        g.wf(),
        n <= g.sources.len(),
    ensures
        fits_below(plan_sources(g, n).step, g, n),
        plan_sources(g, n).fracs.len() == g.sinks.len(),
        plan_sources(g, n).node_fracs.len() == g.nodes.len(),
        plan_sources(g, n).step.entries.len() == plan_sources(g, n).step.node_entries.len(),
    decreases n,
{
    if n == 0 {
    } else {
        lemma_plan_sources_fit(g, (n - 1) as nat);
        let a = plan_sources(g, (n - 1) as nat);
        let src = g.sources[n - 1];
        let p = probe(g, src.to);
        lemma_probe_within(g, src.to);
        lemma_add_shares_len(a.fracs, p.sinks, p.sinks.len(), 1real / (p.sinks.len() as real));
        if src.amount == 0real || p.sinks.len() == 0 {
        } else {
            let r = plan_sources(g, n).step;
            assert(r.entries == a.step.entries.push(((n - 1) as usize, p.sinks)));
            assert(r.node_entries == a.step.node_entries.push(((n - 1) as usize, p.nodes)));
            assert forall|k: int, t: int|
                0 <= k < r.entries.len() && 0 <= t < r.entries[k].1.len() implies (
            #[trigger] r.entries[k].1[t]) < g.sinks.len() by {
                if k < a.step.entries.len() {
                    assert(r.entries[k] == a.step.entries[k]);
                }
            }
            assert forall|k: int, t: int|
                0 <= k < r.node_entries.len() && 0 <= t < r.node_entries[k].1.len() implies (
            #[trigger] r.node_entries[k].1[t]).0 < g.nodes.len() by {
                if k < a.step.node_entries.len() {
                    assert(r.node_entries[k] == a.step.node_entries[k]);
                }
            }
        }
    }
}

/// Adding shares changes no length.
pub proof fn lemma_add_shares_len(fracs: Seq<real>, sinks: Seq<usize>, k: nat, share: real)
    ensures
        crate::model::add_shares(fracs, sinks, k, share).len() == fracs.len(),
    decreases k,
{
    if k == 0 || k > sinks.len() {
    } else {
        lemma_add_shares_len(fracs, sinks, (k - 1) as nat, share);
    }
}

/// Taking in the bounds of the sinks changes the amount and the reason only,
/// and leaves a finite amount finite.
pub proof fn lemma_plan_sinks_keep(g: GraphModel, a: PlanAcc, m: nat)
    ensures
        plan_sinks(g, a, m).entries == a.step.entries,
        plan_sinks(g, a, m).node_entries == a.step.node_entries,
        a.step.amount is Fin ==> plan_sinks(g, a, m).amount is Fin,
        plan_sinks(g, a, m).amount.le(a.step.amount),
    decreases m,
{
    if m == 0 || m > g.sinks.len() || m > a.fracs.len() {
    } else {
        lemma_plan_sinks_keep(g, a, (m - 1) as nat);
    }
}

/// Taking in the bounds of the nodes changes the amount and the reason only,
/// and leaves a finite amount finite.
pub proof fn lemma_plan_nodes_keep(g: GraphModel, a: PlanAcc, m: nat)
    ensures
        plan_nodes(g, a, m).entries == a.step.entries,
        plan_nodes(g, a, m).node_entries == a.step.node_entries,
        a.step.amount is Fin ==> plan_nodes(g, a, m).amount is Fin,
        plan_nodes(g, a, m).amount.le(a.step.amount),
    decreases m,
{
    if m == 0 || m > g.nodes.len() || m > a.node_fracs.len() {
    } else {
        lemma_plan_nodes_keep(g, a, (m - 1) as nat);
    }
}

/// The planned step has the entries that the look at the sources gave it,
/// and an amount that is no larger, and finite once a source takes part.
pub proof fn lemma_plan_keeps(g: GraphModel)
    ensures
        plan(g).entries == plan_sources(g, g.sources.len()).step.entries,
        plan(g).node_entries == plan_sources(g, g.sources.len()).step.node_entries,
        plan_sources(g, g.sources.len()).step.amount is Fin ==> plan(g).amount is Fin,
        plan(g).amount.le(after_nodes(g, plan_sources(g, g.sources.len())).step.amount),
        after_nodes(g, plan_sources(g, g.sources.len())).step.amount.le(
            plan_sources(g, g.sources.len()).step.amount,
        ),
{
    let acc = plan_sources(g, g.sources.len());
    lemma_plan_nodes_keep(g, acc, g.nodes.len());
    lemma_plan_sinks_keep(g, after_nodes(g, acc), g.sinks.len());
}

/// A planned step fits the graph.
pub proof fn lemma_plan_fits(g: GraphModel)
    requires
        g.wf(),
    ensures
        plan(g).fits(g),
{
    lemma_plan_sources_fit(g, g.sources.len());
    lemma_plan_keeps(g);
}

/// Capacity is respected: a step that is admissible leaves every sink and
/// every node within its capacity, if they were within it before.
pub proof fn law_capacity_respected(g: GraphModel, s: StepModel)
    requires
        g.within_capacity(),
        admissible(g, s),
    ensures
        applied(g, s).within_capacity(),
{
    let h = applied(g, s);
    assert forall|j: int| 0 <= j < h.sinks.len() implies (#[trigger] h.sinks[j]).within_capacity() by {
        assert(g.sinks[j].within_capacity());
        assert(s.into(j) == 0real || Qty::Fin(g.sinks[j].holdings() + s.into(j)).le(
            g.sinks[j].capacity,
        ));
    }
    assert forall|u: int| 0 <= u < h.nodes.len() implies (#[trigger] h.nodes[u]).within_capacity() by {
        assert(g.nodes[u].within_capacity());
        assert(s.through(u) == 0real || Qty::Fin(g.nodes[u].amount + s.through(u)).le(
            g.nodes[u].capacity,
        ));
    }
}

/// The first group that reaches a sink decides: where the first group of an
/// expression reaches a sink, the probe of the expression is the probe of
/// that group, whatever the later groups hold.
pub proof fn law_or_short_circuit(g: GraphModel, or: Route)
    requires
        or.len() > 0,
        probe_group(g, or[0], or[0].len(), Probe::empty(), g.nodes.len()).sinks.len() > 0,
    ensures
        probe(g, or) == probe_group(g, or[0], or[0].len(), Probe::empty(), g.nodes.len()),
{
}

/// A group that reaches no sink leaves no trace: the probe of an expression
/// whose first group reaches none is the probe of the groups after it.
pub proof fn law_or_falls_through(g: GraphModel, or: Route)
    requires
        or.len() > 0,
        probe_group(g, or[0], or[0].len(), Probe::empty(), g.nodes.len()).sinks.len() == 0,
    ensures
        probe(g, or) == probe_groups(g, or, 1, g.nodes.len()),
{
}

/// Capacity is respected, opening balances counted: a step that is
/// admissible leaves every sink with no more than it may hold, and every
/// node with no more than may pass, if that was so before.
pub proof fn law_holdings_respected(g: GraphModel, s: StepModel)
    requires
        g.holds_within(),
        admissible(g, s),
    ensures
        applied(g, s).holds_within(),
{
    let h = applied(g, s);
    assert forall|j: int| 0 <= j < h.sinks.len() implies (#[trigger] h.sinks[j]).holds_within() by {
        assert(g.sinks[j].holds_within());
        assert(s.into(j) == 0real || Qty::Fin(g.sinks[j].holdings() + s.into(j)).le(
            g.sinks[j].capacity,
        ));
    }
    assert forall|u: int| 0 <= u < h.nodes.len() implies (#[trigger] h.nodes[u]).within_capacity() by {
        assert(g.nodes[u].within_capacity());
        assert(s.through(u) == 0real || Qty::Fin(g.nodes[u].amount + s.through(u)).le(
            g.nodes[u].capacity,
        ));
    }
}

/// What the first `n` sources still have.
pub open spec fn left_upto(g: GraphModel, n: nat) -> real
    decreases n,
{
    if n == 0 {
        0real
    } else {
        left_upto(g, (n - 1) as nat) + g.sources[n - 1].amount
    }
}

/// What the first `m` sinks have received.
pub open spec fn in_upto(g: GraphModel, m: nat) -> real
    decreases m,
{
    if m == 0 {
        0real
    } else {
        in_upto(g, (m - 1) as nat) + g.sinks[m - 1].inflow
    }
}

/// What all sources together still have.
pub open spec fn total_left(g: GraphModel) -> real {
    left_upto(g, g.sources.len())
}

/// What all sinks together have received.
pub open spec fn total_in(g: GraphModel) -> real {
    in_upto(g, g.sinks.len())
}

/// What leaves the first `n` sources in a step.
pub open spec fn out_upto(entries: Seq<(usize, Seq<usize>)>, amount: real, n: nat) -> real
    decreases n,
{
    if n == 0 {
        0real
    } else {
        out_upto(entries, amount, (n - 1) as nat) + outflow(entries, amount, n - 1)
    }
}

/// What the first `m` sinks receive in a step.
pub open spec fn into_upto(entries: Seq<(usize, Seq<usize>)>, amount: real, m: nat) -> real
    decreases m,
{
    if m == 0 {
        0real
    } else {
        into_upto(entries, amount, (m - 1) as nat) + inflow(entries, amount, m - 1)
    }
}

/// What the first `m` sinks receive when each entry of `sinks` gets `per`.
pub open spec fn spread_upto(sinks: Seq<usize>, per: real, m: nat) -> real
    decreases m,
{
    if m == 0 {
        0real
    } else {
        spread_upto(sinks, per, (m - 1) as nat) + spread(sinks, per, m - 1)
    }
}

/// Over sinks that are all below `m`, the first `m` sinks receive `per`
/// once for each entry.
pub proof fn lemma_spread_upto(sinks: Seq<usize>, per: real, m: nat)
    requires
        forall|t: int| 0 <= t < sinks.len() ==> (#[trigger] sinks[t]) < m,
    ensures
        spread_upto(sinks, per, m) == per * (sinks.len() as real),
    decreases sinks.len(),
{
    if sinks.len() == 0 {
        assert(sinks =~= Seq::empty());
        lemma_spread_none(per, m);
        assert(per * 0real == 0real) by (nonlinear_arith);
    } else {
        assert(sinks[sinks.len() - 1] < m);
        let front = sinks.drop_last();
        assert forall|t: int| 0 <= t < front.len() implies (#[trigger] front[t]) < m by {
            assert(front[t] == sinks[t]);
        }
        lemma_spread_upto(front, per, m);
        lemma_spread_last(sinks, per, m);
        let n = front.len() as real;
        assert(per * n + per == per * (n + 1real)) by (nonlinear_arith);
        assert(sinks.len() == front.len() + 1);
        assert(sinks.len() as real == n + 1real);
        assert(spread_upto(sinks, per, m) == per * n + per);
    }
}

/// An empty list of sinks brings nothing to any sink.
pub proof fn lemma_spread_none(per: real, m: nat)
    ensures
        spread_upto(Seq::<usize>::empty(), per, m) == 0real,
    decreases m,
{
    if m > 0 {
        lemma_spread_none(per, (m - 1) as nat);
    }
}

/// The last entry of a list of sinks brings `per` to the first `m` sinks
/// if it is one of them, and nothing if not.
pub proof fn lemma_spread_last(sinks: Seq<usize>, per: real, m: nat)
    requires
        sinks.len() > 0,
    ensures
        spread_upto(sinks, per, m) == spread_upto(sinks.drop_last(), per, m) + (if sinks.last() < m {
            per
        } else {
            0real
        }),
    decreases m,
{
    if m > 0 {
        lemma_spread_last(sinks, per, (m - 1) as nat);
    }
}

/// The last entry of a step takes the amount from the first `n` sources if
/// its source is one of them.
pub proof fn lemma_out_last(entries: Seq<(usize, Seq<usize>)>, amount: real, n: nat)
    requires
        entries.len() > 0,
    ensures
        out_upto(entries, amount, n) == out_upto(entries.drop_last(), amount, n) + (if entries.last().0
            < n {
            amount
        } else {
            0real
        }),
    decreases n,
{
    if n > 0 {
        lemma_out_last(entries, amount, (n - 1) as nat);
    }
}

/// The last entry of a step brings the first `m` sinks what its own sinks
/// among them get.
pub proof fn lemma_into_last(entries: Seq<(usize, Seq<usize>)>, amount: real, m: nat)
    requires
        entries.len() > 0,
    ensures
        into_upto(entries, amount, m) == into_upto(entries.drop_last(), amount, m) + spread_upto(
            entries.last().1,
            per_sink(amount, entries.last().1),
            m,
        ),
    decreases m,
{
    if m > 0 {
        lemma_into_last(entries, amount, (m - 1) as nat);
    }
}

/// A step without entries moves nothing.
pub proof fn lemma_no_entries(amount: real, n: nat, m: nat)
    ensures
        out_upto(Seq::empty(), amount, n) == 0real,
        into_upto(Seq::empty(), amount, m) == 0real,
    decreases n + m,
{
    if n > 0 {
        lemma_no_entries(amount, (n - 1) as nat, 0);
    }
    if m > 0 {
        lemma_no_entries(amount, 0, (m - 1) as nat);
    }
}

/// What the sources give in a step is what the sinks receive in it.
pub proof fn lemma_step_balanced(entries: Seq<(usize, Seq<usize>)>, amount: real, n: nat, m: nat)
    requires
        forall|k: int| 0 <= k < entries.len() ==> (#[trigger] entries[k]).0 < n && entries[k].1.len() > 0,
        forall|k: int, t: int|
            0 <= k < entries.len() && 0 <= t < entries[k].1.len() ==> (#[trigger] entries[k].1[t]) < m,
    ensures
        out_upto(entries, amount, n) == into_upto(entries, amount, m),
    decreases entries.len(),
{
    if entries.len() == 0 {
        lemma_no_entries(amount, n, m);
        assert(entries =~= Seq::empty());
    } else {
        let front = entries.drop_last();
        let e = entries.last();
        assert forall|k: int| 0 <= k < front.len() implies (#[trigger] front[k]).0 < n && front[k].1.len()
            > 0 by {
            assert(front[k] == entries[k]);
        }
        assert forall|k: int, t: int|
            0 <= k < front.len() && 0 <= t < front[k].1.len() implies (#[trigger] front[k].1[t]) < m by {
            assert(front[k] == entries[k]);
            assert(entries[k].1[t] < m);
        }
        lemma_step_balanced(front, amount, n, m);
        lemma_out_last(entries, amount, n);
        lemma_into_last(entries, amount, m);
        assert(e == entries[entries.len() - 1]);
        assert forall|t: int| 0 <= t < e.1.len() implies (#[trigger] e.1[t]) < m by {
            assert(entries[entries.len() - 1].1[t] < m);
        }
        lemma_spread_upto(e.1, per_sink(amount, e.1), m);
        lemma_div_mul(amount, e.1.len() as real);
    }
}

/// After a step the first `n` sources have what they had less what the
/// step took from them.
pub proof fn lemma_left_after(g: GraphModel, s: StepModel, n: nat)
    requires
        n <= g.sources.len(),
    ensures
        left_upto(applied(g, s), n) == left_upto(g, n) - out_upto(s.entries, s.amount.val(), n),
    decreases n,
{
    if n > 0 {
        lemma_left_after(g, s, (n - 1) as nat);
        assert(applied(g, s).sources[n - 1].amount == g.sources[n - 1].amount - s.out_of(n - 1));
    }
}

/// After a step the first `m` sinks have received what they had and what
/// the step brought them.
pub proof fn lemma_in_after(g: GraphModel, s: StepModel, m: nat)
    requires
        m <= g.sinks.len(),
    ensures
        in_upto(applied(g, s), m) == in_upto(g, m) + into_upto(s.entries, s.amount.val(), m),
    decreases m,
{
    if m > 0 {
        lemma_in_after(g, s, (m - 1) as nat);
        assert(applied(g, s).sinks[m - 1].inflow == g.sinks[m - 1].inflow + s.into(m - 1));
    }
}

/// Conservation: a step creates and destroys nothing. What the sinks have
/// received and what the sources still have add up to the same before and
/// after it.
pub proof fn law_conservation(g: GraphModel, s: StepModel)
    requires
        s.fits(g),
    ensures
        total_in(applied(g, s)) + total_left(applied(g, s)) == total_in(g) + total_left(g),
{
    lemma_left_after(g, s, g.sources.len());
    lemma_in_after(g, s, g.sinks.len());
    lemma_step_balanced(s.entries, s.amount.val(), g.sources.len(), g.sinks.len());
}

/// What a record counts for the sink `sink`.
pub open spec fn record_for(r: (usize, real), sink: int) -> real {
    if r.0 == sink {
        r.1
    } else {
        0real
    }
}

/// What the records of one transfer hold for the sink `sink`.
pub open spec fn row_total(to: Seq<(usize, real)>, sink: int) -> real
    decreases to.len(),
{
    if to.len() == 0 {
        0real
    } else {
        row_total(to.drop_last(), sink) + record_for(to.last(), sink)
    }
}

/// What the ledger holds for the sink `sink`, over all sources.
pub open spec fn ledger_total(b: BookModel, sink: int) -> real
    decreases b.len(),
{
    if b.len() == 0 {
        0real
    } else {
        ledger_total(b.drop_last(), sink) + row_total(b.last().to, sink)
    }
}

/// For every sink the ledger holds what the graph says the sink received.
pub open spec fn agrees(g: GraphModel, b: BookModel) -> bool {
    forall|j: int| 0 <= j < g.sinks.len() ==> ledger_total(b, j) == (#[trigger] g.sinks[j]).inflow
}

/// Replacing one record changes the total by the difference of the two.
pub proof fn lemma_row_update(to: Seq<(usize, real)>, at: int, r: (usize, real), sink: int)
    requires
        0 <= at < to.len(),
    ensures
        row_total(to.update(at, r), sink) == row_total(to, sink) - record_for(to[at], sink) + record_for(
            r,
            sink,
        ),
    decreases to.len(),
{
    let changed = to.update(at, r);
    if at == to.len() - 1 {
        assert(changed.drop_last() =~= to.drop_last());
    } else {
        assert(changed.drop_last() =~= to.drop_last().update(at, r));
        lemma_row_update(to.drop_last(), at, r, sink);
    }
}

/// Replacing one transfer changes the total by the difference of the two.
pub proof fn lemma_ledger_update(b: BookModel, at: int, t: TransferModel, sink: int)
    requires
        0 <= at < b.len(),
    ensures
        ledger_total(b.update(at, t), sink) == ledger_total(b, sink) - row_total(b[at].to, sink)
            + row_total(t.to, sink),
    decreases b.len(),
{
    let changed = b.update(at, t);
    if at == b.len() - 1 {
        assert(changed.drop_last() =~= b.drop_last());
    } else {
        assert(changed.drop_last() =~= b.drop_last().update(at, t));
        lemma_ledger_update(b.drop_last(), at, t, sink);
    }
}

/// Where a record for the sink is found, it is a record for that sink.
pub proof fn lemma_find_to(to: Seq<(usize, real)>, sink: usize, q: nat)
    requires
        q <= to.len(),
    ensures
        q <= find_to(to, sink, q) <= to.len(),
        find_to(to, sink, q) < to.len() ==> to[find_to(to, sink, q) as int].0 == sink,
    decreases to.len() - q,
{
    if q < to.len() && to[q as int].0 != sink {
        lemma_find_to(to, sink, q + 1);
    }
}

/// Where a transfer of the source is found, it lies in the ledger.
pub proof fn lemma_find_from(b: BookModel, from: usize, q: nat)
    requires
        q <= b.len(),
    ensures
        q <= find_from(b, from, q) <= b.len(),
    decreases b.len() - q,
{
    if q < b.len() && b[q as int].from != from {
        lemma_find_from(b, from, q + 1);
    }
}

/// One credit adds its amount to the total of its sink and to no other.
pub proof fn lemma_credit(b: BookModel, from: usize, sink: usize, per: real, j: int)
    ensures
        ledger_total(credit(b, from, sink, per), j) == ledger_total(b, j) + (if sink == j {
            per
        } else {
            0real
        }),
{
    lemma_find_from(b, from, 0);
    let i = find_from(b, from, 0) as int;
    let b1 = with_transfer(b, from);
    if i == b.len() {
        assert(b1.drop_last() =~= b);
        assert(row_total(Seq::<(usize, real)>::empty(), j) == 0real);
    }
    assert(ledger_total(b1, j) == ledger_total(b, j));
    let rec = b1[i].to;
    lemma_find_to(rec, sink, 0);
    let at = find_to(rec, sink, 0) as int;
    let to1 = with_record(rec, sink);
    if at == rec.len() {
        assert(to1.drop_last() =~= rec);
    }
    assert(row_total(to1, j) == row_total(rec, j));
    assert(to1[at].0 == sink);
    lemma_row_update(to1, at, (sink, to1[at].1 + per), j);
    lemma_ledger_update(
        b1,
        i,
        TransferModel { from: b1[i].from, to: to1.update(at, (sink, to1[at].1 + per)) },
        j,
    );
}

/// Crediting the first `t` sinks of a list adds to the total of a sink what
/// these bring it.
pub proof fn lemma_credit_all(b: BookModel, from: usize, sinks: Seq<usize>, t: nat, per: real, j: int)
    requires
        t <= sinks.len(),
    ensures
        ledger_total(credit_all(b, from, sinks, t, per), j) == ledger_total(b, j) + spread(
            sinks.take(t as int),
            per,
            j,
        ),
    decreases t,
{
    if t == 0 {
        assert(sinks.take(0) =~= Seq::empty());
    } else {
        lemma_credit_all(b, from, sinks, (t - 1) as nat, per, j);
        lemma_credit(credit_all(b, from, sinks, (t - 1) as nat, per), from, sinks[t - 1], per, j);
        assert(sinks.take(t as int).drop_last() =~= sinks.take(t - 1));
        assert(sinks.take(t as int).last() == sinks[t - 1]);
    }
}

/// Booking the first `k` entries of a step adds to the total of a sink what
/// these entries bring it.
pub proof fn lemma_booked(b: BookModel, entries: Seq<(usize, Seq<usize>)>, amount: real, k: nat, j: int)
    requires
        k <= entries.len(),
    ensures
        ledger_total(booked(b, entries, amount, k), j) == ledger_total(b, j) + inflow(
            entries.take(k as int),
            amount,
            j,
        ),
    decreases k,
{
    if k == 0 {
        assert(entries.take(0) =~= Seq::empty());
    } else {
        lemma_booked(b, entries, amount, (k - 1) as nat, j);
        let e = entries[k - 1];
        lemma_credit_all(
            booked(b, entries, amount, (k - 1) as nat),
            e.0,
            e.1,
            e.1.len(),
            per_sink(amount, e.1),
            j,
        );
        assert(e.1.take(e.1.len() as int) =~= e.1);
        assert(entries.take(k as int).drop_last() =~= entries.take(k - 1));
        assert(entries.take(k as int).last() == e);
    }
}

/// Ledger and graph agree: where the ledger held for every sink what the
/// sink had received, it does so again after both have taken the same step.
pub proof fn law_ledger_agrees(g: GraphModel, b: BookModel, s: StepModel)
    requires
        agrees(g, b),
    ensures
        agrees(applied(g, s), booked(b, s.entries, s.amount.val(), s.entries.len())),
{
    let h = applied(g, s);
    let c = booked(b, s.entries, s.amount.val(), s.entries.len());
    assert forall|j: int| 0 <= j < h.sinks.len() implies ledger_total(c, j) == (#[trigger] h.sinks[j]).inflow by {
        lemma_booked(b, s.entries, s.amount.val(), s.entries.len(), j);
        assert(s.entries.take(s.entries.len() as int) =~= s.entries);
        assert(ledger_total(b, j) == g.sinks[j].inflow);
    }
}

/// An admissible step changes no index and leaves no source with less than
/// nothing: the graph after it is well formed if the graph before it was.
pub proof fn lemma_applied_wf(g: GraphModel, s: StepModel)
    requires
        g.wf(),
        admissible(g, s),
    ensures
        applied(g, s).wf(),
{
    let h = applied(g, s);
    assert forall|u: int| 0 <= u < h.nodes.len() implies (#[trigger] h.nodes[u]).target
        == g.nodes[u].target by {}
    assert forall|i: int| 0 <= i < h.sources.len() implies (#[trigger] h.sources[i]).to
        == g.sources[i].to && h.sources[i].amount >= 0real by {
        assert(s.out_of(i) <= g.sources[i].amount);
    }
}

/// Conservation over a run: however the run ends, what the sinks have
/// received and what the sources still have add up to what they did at its
/// start. Nothing is created and nothing destroyed.
pub proof fn law_run_conserves(g: GraphModel, b: BookModel, fuel: nat)
    requires
        g.wf(),
    ensures
        total_in(run_model(g, b, fuel).0) + total_left(run_model(g, b, fuel).0) == total_in(g)
            + total_left(g),
    decreases fuel,
{
    let p = plan(g);
    if p.entries.len() > 0 && fuel > 0 && admissible(g, p) {
        lemma_plan_fits(g);
        law_conservation(g, p);
        lemma_applied_wf(g, p);
        law_run_conserves(
            applied(g, p),
            booked(b, p.entries, p.amount.val(), p.entries.len()),
            (fuel - 1) as nat,
        );
    }
}

/// Capacity is respected over a run: where every sink and node was within
/// its capacity at the start, it is so at the end, however the run ends.
pub proof fn law_run_respects_capacity(g: GraphModel, b: BookModel, fuel: nat)
    requires
        g.wf(),
        g.within_capacity(),
    ensures
        run_model(g, b, fuel).0.within_capacity(),
    decreases fuel,
{
    let p = plan(g);
    if p.entries.len() > 0 && fuel > 0 && admissible(g, p) {
        law_capacity_respected(g, p);
        lemma_applied_wf(g, p);
        law_run_respects_capacity(
            applied(g, p),
            booked(b, p.entries, p.amount.val(), p.entries.len()),
            (fuel - 1) as nat,
        );
    }
}

/// Capacity is respected over a run, opening balances counted: where no
/// sink held and no node had let through more than it may at the start,
/// none does at the end.
pub proof fn law_run_respects_holdings(g: GraphModel, b: BookModel, fuel: nat)
    requires
        g.wf(),
        g.holds_within(),
    ensures
        run_model(g, b, fuel).0.holds_within(),
    decreases fuel,
{
    let p = plan(g);
    if p.entries.len() > 0 && fuel > 0 && admissible(g, p) {
        law_holdings_respected(g, p);
        lemma_applied_wf(g, p);
        law_run_respects_holdings(
            applied(g, p),
            booked(b, p.entries, p.amount.val(), p.entries.len()),
            (fuel - 1) as nat,
        );
    }
}

/// Ledger and graph agree over a run: where the ledger held for every sink
/// what the sink had received at the start, it does so at the end.
pub proof fn law_run_ledger_agrees(g: GraphModel, b: BookModel, fuel: nat)
    requires
        g.wf(),
        agrees(g, b),
    ensures
        agrees(run_model(g, b, fuel).0, run_model(g, b, fuel).1),
    decreases fuel,
{
    let p = plan(g);
    if p.entries.len() > 0 && fuel > 0 && admissible(g, p) {
        law_ledger_agrees(g, b, p);
        lemma_applied_wf(g, p);
        law_run_ledger_agrees(
            applied(g, p),
            booked(b, p.entries, p.amount.val(), p.entries.len()),
            (fuel - 1) as nat,
        );
    }
}

/// A run that has converged leaves a graph on which the next step moves
/// nothing.
pub proof fn law_run_converged(g: GraphModel, b: BookModel, fuel: nat)
    requires
        run_model(g, b, fuel).2 is Converged,
    ensures
        plan(run_model(g, b, fuel).0).entries.len() == 0,
    decreases fuel,
{
    let p = plan(g);
    if p.entries.len() > 0 && fuel > 0 && admissible(g, p) {
        law_run_converged(
            applied(g, p),
            booked(b, p.entries, p.amount.val(), p.entries.len()),
            (fuel - 1) as nat,
        );
    }
}

} // verus!
