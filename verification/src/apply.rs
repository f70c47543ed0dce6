//! Applying a step to the graph: what it moves is added up first, then held
//! against what the sources have and the capacities allow, and only then
//! written to the graph.

use crate::amount::Amount;
use crate::amount::Qty;
use crate::error::FlowError;
use crate::flow::admissible;
use crate::flow::applied;
use crate::flow::charge;
use crate::flow::inflow;
use crate::flow::node_flow;
use crate::flow::nodes_from;
use crate::flow::outflow;
use crate::flow::per_sink;
use crate::flow::spread;
use crate::graph::Graph;
use crate::graph::Step;
use vstd::prelude::*;

verus! {

/// Every amount of the vector is a finite number.
pub open spec fn all_finite(v: Seq<Amount>) -> bool {
    forall|t: int| 0 <= t < v.len() ==> (#[trigger] v[t]).wf() && v[t]@ is Fin
}

/// A vector of `n` amounts, each zero.
pub fn zeros(n: usize) -> (r: Vec<Amount>)
    ensures
        r@.len() == n,
        all_finite(r@),
        forall|t: int| 0 <= t < n ==> (#[trigger] r@[t])@ == Qty::Fin(0real),
{
    let mut r: Vec<Amount> = Vec::new();
    let mut i: usize = 0;
    while i < n
        invariant
            i <= n,
            r@.len() == i,
            all_finite(r@),
            forall|t: int| 0 <= t < i ==> (#[trigger] r@[t])@ == Qty::Fin(0real),
        decreases n - i,
    {
        r.push(Amount::zero());
        i += 1;
    }
    r
}

impl Step {
    /// The amount is a well-formed number.
    pub open spec fn wf(&self) -> bool {
        self.amount.wf()
    }
}

impl Graph {
    /// What the step takes out of each source, brings to each sink and sends
    /// through each node.
    fn deltas(&self, s: &Step) -> (r: (Vec<Amount>, Vec<Amount>, Vec<Amount>))
        requires
            self.wf(),
            s.wf(),
            s@.fits(self@),
        ensures
            r.0@.len() == self.sources@.len(),
            r.1@.len() == self.sinks@.len(),
            r.2@.len() == self.unaries@.len(),
            all_finite(r.0@),
            all_finite(r.1@),
            all_finite(r.2@),
            forall|i: int| 0 <= i < r.0@.len() ==> (#[trigger] r.0@[i])@.val() == s@.out_of(i),
            forall|j: int| 0 <= j < r.1@.len() ==> (#[trigger] r.1@[j])@.val() == s@.into(j),
            forall|u: int| 0 <= u < r.2@.len() ==> (#[trigger] r.2@[u])@.val() == s@.through(u),
    {
        let ghost a = s.amount@.val();
        let ghost en = s@.entries;
        let ghost ne = s@.node_entries;
        let mut out = zeros(self.sources.len());
        let mut inc = zeros(self.sinks.len());
        let mut thr = zeros(self.unaries.len());
        let mut k: usize = 0;
        assert(en.take(0) =~= Seq::empty());
        while k < s.src_to_snks.len()
            invariant
                self.wf(),
                s.wf(),
                s@.fits(self@),
                a == s.amount@.val(),
                en == s@.entries,
                ne == s@.node_entries,
                k <= en.len(),
                out@.len() == self.sources@.len(),
                inc@.len() == self.sinks@.len(),
                thr@.len() == self.unaries@.len(),
                all_finite(out@),
                all_finite(inc@),
                all_finite(thr@),
                forall|i: int|
                    0 <= i < out@.len() ==> (#[trigger] out@[i])@.val() == outflow(
                        en.take(k as int),
                        a,
                        i,
                    ),
                forall|j: int|
                    0 <= j < inc@.len() ==> (#[trigger] inc@[j])@.val() == inflow(
                        en.take(k as int),
                        a,
                        j,
                    ),
                forall|u: int|
                    0 <= u < thr@.len() ==> (#[trigger] thr@[u])@.val() == node_flow(
                        en.take(k as int),
                        ne,
                        a,
                        u,
                    ),
            decreases en.len() - k,
        {
            let e = &s.src_to_snks[k];
            let src = e.0;
            let ghost before = en.take(k as int);
            let ghost sinks = en[k as int].1;
            proof {
                assert(en[k as int] == (e.0, e.1@));
                assert(en.take(k + 1).drop_last() =~= before);
                assert(en.take(k + 1).last() == en[k as int]);
            }
            let o = out[src].add(&s.amount);
            out.set(src, o);
            let n = Amount::from_usize(e.1.len());
            let per = s.amount.checked_div(&n).unwrap();
            let ghost p = per_sink(a, sinks);
            assert(per@ == Qty::Fin(p));
            let mut t: usize = 0;
            assert(sinks.take(0) =~= Seq::empty());
            while t < e.1.len()
                invariant
                    self.wf(),
                    s@.fits(self@),
                    en == s@.entries,
                    k < en.len(),
                    sinks == en[k as int].1,
                    sinks == e.1@,
                    t <= sinks.len(),
                    per.wf(),
                    per@ == Qty::Fin(p),
                    inc@.len() == self.sinks@.len(),
                    all_finite(inc@),
                    forall|j: int|
                        0 <= j < inc@.len() ==> (#[trigger] inc@[j])@.val() == inflow(
                            before,
                            a,
                            j,
                        ) + spread(sinks.take(t as int), p, j),
                decreases sinks.len() - t,
            {
                let j0 = e.1[t];
                proof {
                    assert(sinks[t as int] == j0);
                    assert(en[k as int].1[t as int] < self@.sinks.len());
                    assert(sinks.take(t + 1).drop_last() =~= sinks.take(t as int));
                    assert(sinks.take(t + 1).last() == j0);
                }
                let v = inc[j0].add(&per);
                inc.set(j0, v);
                t += 1;
            }
            assert(sinks.take(sinks.len() as int) =~= sinks);
            let mut q: usize = 0;
            while q < s.src_to_unaries.len() && s.src_to_unaries[q].0 != src
                invariant
                    ne == s@.node_entries,
                    q <= ne.len(),
                    nodes_from(ne, src, q as nat) == nodes_from(ne, src, 0),
                decreases ne.len() - q,
            {
                assert(ne[q as int].0 == s.src_to_unaries@[q as int].0);
                q += 1;
            }
            let ghost nodes = nodes_from(ne, src, 0);
            if q < s.src_to_unaries.len() {
                let ns = &s.src_to_unaries[q].1;
                proof {
                    assert(ne[q as int] == (s.src_to_unaries@[q as int].0, crate::graph::nodes_of(ns@)));
                    assert(nodes == crate::graph::nodes_of(ns@));
                    assert(nodes.take(0) =~= Seq::empty());
                }
                let mut t: usize = 0;
                while t < ns.len()
                    invariant
                        self.wf(),
                        s@.fits(self@),
                        ne == s@.node_entries,
                        q < ne.len(),
                        nodes == ne[q as int].1,
                        nodes == crate::graph::nodes_of(ns@),
                        t <= nodes.len(),
                        per.wf(),
                        per@ == Qty::Fin(p),
                        thr@.len() == self.unaries@.len(),
                        all_finite(thr@),
                        forall|u: int|
                            0 <= u < thr@.len() ==> (#[trigger] thr@[u])@.val() == node_flow(
                                before,
                                ne,
                                a,
                                u,
                            ) + charge(nodes.take(t as int), p, u),
                    decreases nodes.len() - t,
                {
                    let u0 = ns[t].0;
                    let mul = ns[t].1;
                    proof {
                        assert(nodes[t as int] == (u0, mul as nat));
                        assert(ne[q as int].1[t as int].0 < self@.nodes.len());
                        assert(nodes.take(t + 1).drop_last() =~= nodes.take(t as int));
                        assert(nodes.take(t + 1).last() == (u0, mul as nat));
                    }
                    let w = per.checked_mul(&Amount::from_usize(mul)).unwrap();
                    let v = thr[u0].add(&w);
                    thr.set(u0, v);
                    t += 1;
                }
                assert(nodes.take(nodes.len() as int) =~= nodes);
            } else {
                assert(nodes =~= Seq::empty());
            }
            k += 1;
        }
        assert(en.take(en.len() as int) =~= en);
        (out, inc, thr)
    }
}

impl Graph {
    /// Whether no source gives more than it has and no sink or node that
    /// receives anything ends above its capacity.
    fn deltas_admissible(&self, s: &Step, out: &Vec<Amount>, inc: &Vec<Amount>, thr: &Vec<Amount>) -> (ok:
        bool)
        requires
            self.wf(),
            out@.len() == self.sources@.len(),
            inc@.len() == self.sinks@.len(),
            thr@.len() == self.unaries@.len(),
            all_finite(out@),
            all_finite(inc@),
            all_finite(thr@),
            forall|i: int| 0 <= i < out@.len() ==> (#[trigger] out@[i])@.val() == s@.out_of(i),
            forall|j: int| 0 <= j < inc@.len() ==> (#[trigger] inc@[j])@.val() == s@.into(j),
            forall|u: int| 0 <= u < thr@.len() ==> (#[trigger] thr@[u])@.val() == s@.through(u),
        ensures
            ok == admissible(self@, s@),
    {
        let ghost g = self@;
        let mut i: usize = 0;
        while i < self.sources.len()
            invariant
                self.wf(),
                g == self@,
                i <= g.sources.len(),
                out@.len() == self.sources@.len(),
                all_finite(out@),
                forall|t: int| 0 <= t < out@.len() ==> (#[trigger] out@[t])@.val() == s@.out_of(t),
                forall|t: int| 0 <= t < i ==> #[trigger] s@.out_of(t) <= g.sources[t].amount,
            decreases g.sources.len() - i,
        {
            assert(self.sources@[i as int].wf());
            assert(out@[i as int].wf());
            if self.sources[i].amount.lt(&out[i]) {
                assert(!(s@.out_of(i as int) <= g.sources[i as int].amount));
                return false;
            }
            i += 1;
        }
        let mut j: usize = 0;
        while j < self.sinks.len()
            invariant
                self.wf(),
                g == self@,
                j <= g.sinks.len(),
                inc@.len() == self.sinks@.len(),
                all_finite(inc@),
                forall|t: int| 0 <= t < inc@.len() ==> (#[trigger] inc@[t])@.val() == s@.into(t),
                forall|t: int| 0 <= t < g.sources.len() ==> #[trigger] s@.out_of(t) <= g.sources[t].amount,
                forall|t: int|
                    0 <= t < j ==> #[trigger] s@.into(t) == 0real || Qty::Fin(
                        g.sinks[t].holdings() + s@.into(t),
                    ).le(g.sinks[t].capacity),
            decreases g.sinks.len() - j,
        {
            assert(self.sinks@[j as int].wf());
            assert(inc@[j as int].wf());
            if !inc[j].is_zero() {
                let held = self.sinks[j].amount().add(&inc[j]);
                if self.sinks[j].capacity.lt(&held) {
                    assert(!(s@.into(j as int) == 0real || Qty::Fin(
                        g.sinks[j as int].holdings() + s@.into(j as int),
                    ).le(g.sinks[j as int].capacity)));
                    return false;
                }
            }
            j += 1;
        }
        let mut u: usize = 0;
        while u < self.unaries.len()
            invariant
                self.wf(),
                g == self@,
                u <= g.nodes.len(),
                thr@.len() == self.unaries@.len(),
                all_finite(thr@),
                forall|t: int| 0 <= t < thr@.len() ==> (#[trigger] thr@[t])@.val() == s@.through(t),
                forall|t: int| 0 <= t < g.sources.len() ==> #[trigger] s@.out_of(t) <= g.sources[t].amount,
                forall|t: int|
                    0 <= t < g.sinks.len() ==> #[trigger] s@.into(t) == 0real || Qty::Fin(
                        g.sinks[t].holdings() + s@.into(t),
                    ).le(g.sinks[t].capacity),
                forall|t: int|
                    0 <= t < u ==> #[trigger] s@.through(t) == 0real || Qty::Fin(
                        g.nodes[t].amount + s@.through(t),
                    ).le(g.nodes[t].capacity),
            decreases g.nodes.len() - u,
        {
            assert(self.unaries@[u as int].wf());
            assert(thr@[u as int].wf());
            if !thr[u].is_zero() {
                let passed = self.unaries[u].amount.add(&thr[u]);
                if self.unaries[u].capacity.lt(&passed) {
                    assert(!(s@.through(u as int) == 0real || Qty::Fin(
                        g.nodes[u as int].amount + s@.through(u as int),
                    ).le(g.nodes[u as int].capacity)));
                    return false;
                }
            }
            u += 1;
        }
        true
    }

    /// Applies the step: every source that takes part gives the step's
    /// amount, split evenly over its sinks, and every capped node on the way
    /// is charged with what passes through it. A step that is not admissible
    /// is refused and leaves the graph as it was.
    pub fn apply_step(&mut self, s: &Step) -> (r: Result<(), FlowError>)
        requires
            old(self).wf(),
            s.wf(),
            s@.fits(old(self)@),
        ensures
            r is Ok <==> admissible(old(self)@, s@),
            r is Ok ==> final(self)@ == applied(old(self)@, s@) && final(self).wf(),
            r is Err ==> *final(self) == *old(self),
    {
        let ghost g = self@;
        let (out, inc, thr) = self.deltas(s);
        if !self.deltas_admissible(s, &out, &inc, &thr) {
            return Err(FlowError::ArithmeticInvariantViolation);
        }
        let mut i: usize = 0;
        while i < self.sources.len()
            invariant
                g == old(self)@,
                admissible(g, s@),
                old(self).wf(),
                i <= g.sources.len(),
                self.sources@.len() == g.sources.len(),
                self.sinks == old(self).sinks,
                self.unaries == old(self).unaries,
                out@.len() == g.sources.len(),
                all_finite(out@),
                forall|t: int| 0 <= t < out@.len() ==> (#[trigger] out@[t])@.val() == s@.out_of(t),
                forall|t: int| i <= t < g.sources.len() ==> self.sources@[t] == old(self).sources@[t],
                forall|t: int|
                    0 <= t < i ==> (#[trigger] self.sources@[t]).wf() && self.sources@[t]@ == applied(
                        g,
                        s@,
                    ).sources[t],
            decreases g.sources.len() - i,
        {
            assert(old(self).sources@[i as int].wf());
            assert(out@[i as int].wf());
            assert(s@.out_of(i as int) <= g.sources[i as int].amount);
            let left = self.sources[i].amount.checked_sub(&out[i]).unwrap();
            self.sources[i].amount = left;
            i += 1;
        }
        let mut j: usize = 0;
        while j < self.sinks.len()
            invariant
                g == old(self)@,
                old(self).wf(),
                j <= g.sinks.len(),
                self.sinks@.len() == g.sinks.len(),
                self.unaries == old(self).unaries,
                self.sources@.len() == g.sources.len(),
                forall|t: int|
                    0 <= t < g.sources.len() ==> (#[trigger] self.sources@[t]).wf()
                        && self.sources@[t]@ == applied(g, s@).sources[t],
                inc@.len() == g.sinks.len(),
                all_finite(inc@),
                forall|t: int| 0 <= t < inc@.len() ==> (#[trigger] inc@[t])@.val() == s@.into(t),
                forall|t: int| j <= t < g.sinks.len() ==> self.sinks@[t] == old(self).sinks@[t],
                forall|t: int|
                    0 <= t < j ==> (#[trigger] self.sinks@[t]).wf() && self.sinks@[t]@ == applied(
                        g,
                        s@,
                    ).sinks[t],
            decreases g.sinks.len() - j,
        {
            assert(old(self).sinks@[j as int].wf());
            assert(inc@[j as int].wf());
            let more = self.sinks[j].add_amount.add(&inc[j]);
            self.sinks[j].add_amount = more;
            j += 1;
        }
        let mut u: usize = 0;
        while u < self.unaries.len()
            invariant
                g == old(self)@,
                old(self).wf(),
                u <= g.nodes.len(),
                self.unaries@.len() == g.nodes.len(),
                self.sources@.len() == g.sources.len(),
                self.sinks@.len() == g.sinks.len(),
                forall|t: int|
                    0 <= t < g.sources.len() ==> (#[trigger] self.sources@[t]).wf()
                        && self.sources@[t]@ == applied(g, s@).sources[t],
                forall|t: int|
                    0 <= t < g.sinks.len() ==> (#[trigger] self.sinks@[t]).wf() && self.sinks@[t]@
                        == applied(g, s@).sinks[t],
                thr@.len() == g.nodes.len(),
                all_finite(thr@),
                forall|t: int| 0 <= t < thr@.len() ==> (#[trigger] thr@[t])@.val() == s@.through(t),
                forall|t: int| u <= t < g.nodes.len() ==> self.unaries@[t] == old(self).unaries@[t],
                forall|t: int|
                    0 <= t < u ==> (#[trigger] self.unaries@[t]).wf() && self.unaries@[t]@ == applied(
                        g,
                        s@,
                    ).nodes[t],
            decreases g.nodes.len() - u,
        {
            assert(old(self).unaries@[u as int].wf());
            assert(thr@[u as int].wf());
            let more = self.unaries[u].amount.add(&thr[u]);
            self.unaries[u].amount = more;
            u += 1;
        }
        proof {
            let h = applied(g, s@);
            assert(self@.sources =~= h.sources);
            assert(self@.sinks =~= h.sinks);
            assert(self@.nodes =~= h.nodes);
            assert(self@ == h);
            assert forall|t: int| 0 <= t < h.sources.len() implies (#[trigger] h.sources[t]).amount
                >= 0real by {
                self.sources@[t].amount.lemma_nonneg();
            }
            assert forall|t: int| 0 <= t < h.nodes.len() implies (#[trigger] h.nodes[t]).target
                == g.nodes[t].target by {}
            assert forall|t: int| 0 <= t < h.sources.len() implies (#[trigger] h.sources[t]).to
                == g.sources[t].to by {}
            assert(h.wf());
        }
        Ok(())
    }
}

} // verus!
