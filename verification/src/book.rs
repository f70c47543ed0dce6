//! The ledger: for each source that ever gave, how much each sink got from it.

use crate::amount::Amount;
use crate::amount::Qty;
use crate::graph::Step;
use crate::model::StepModel;
use vstd::prelude::*;

verus! {

/// What one source has given: to each sink that it reached, how much.
pub struct TransferModel {
    pub from: usize,
    pub to: Seq<(usize, real)>,
}

/// The ledger as a list of transfers, one per source, in the order of first
/// contact.
pub type BookModel = Seq<TransferModel>;

/// The position of the first transfer at or after `q` that the source `from`
/// has; the length of the ledger where it has none.
pub open spec fn find_from(b: BookModel, from: usize, q: nat) -> nat
    decreases b.len() - q,
{
    if q >= b.len() {
        b.len()
    } else if b[q as int].from == from {
        q
    } else {
        find_from(b, from, q + 1)
    }
}

/// The position of the first record at or after `q` for the sink `sink`; the
/// length of the list where there is none.
pub open spec fn find_to(to: Seq<(usize, real)>, sink: usize, q: nat) -> nat
    decreases to.len() - q,
{
    if q >= to.len() {
        to.len()
    } else if to[q as int].0 == sink {
        q
    } else {
        find_to(to, sink, q + 1)
    }
}

/// The ledger with a transfer for `from`: appended, empty, where it had none.
pub open spec fn with_transfer(b: BookModel, from: usize) -> BookModel {
    if find_from(b, from, 0) < b.len() {
        b
    } else {
        b.push(TransferModel { from, to: Seq::empty() })
    }
}

/// The records with one for `sink`: appended, at zero, where there was none.
pub open spec fn with_record(to: Seq<(usize, real)>, sink: usize) -> Seq<(usize, real)> {
    if find_to(to, sink, 0) < to.len() {
        to
    } else {
        to.push((sink, 0real))
    }
}

/// The ledger after `from` gave `per` to `sink`.
pub open spec fn credit(b: BookModel, from: usize, sink: usize, per: real) -> BookModel {
    let i = find_from(b, from, 0) as int;
    let b1 = with_transfer(b, from);
    let to1 = with_record(b1[i].to, sink);
    let j = find_to(b1[i].to, sink, 0) as int;
    b1.update(i, TransferModel { from: b1[i].from, to: to1.update(j, (sink, to1[j].1 + per)) })
}

/// The ledger after `from` gave `per` to each of the first `t` of `sinks`.
pub open spec fn credit_all(b: BookModel, from: usize, sinks: Seq<usize>, t: nat, per: real) -> BookModel
    decreases t,
{
    if t == 0 || t > sinks.len() {
        b
    } else {
        credit(credit_all(b, from, sinks, (t - 1) as nat, per), from, sinks[t - 1], per)
    }
}

/// The ledger after the first `k` entries of a step of `amount`.
pub open spec fn booked(b: BookModel, entries: Seq<(usize, Seq<usize>)>, amount: real, k: nat) -> BookModel
    decreases k,
{
    if k == 0 || k > entries.len() {
        b
    } else {
        let e = entries[k - 1];
        credit_all(
            booked(b, entries, amount, (k - 1) as nat),
            e.0,
            e.1,
            e.1.len(),
            crate::flow::per_sink(amount, e.1),
        )
    }
}

impl StepModel {
    /// Every source of the step has a sink and the amount is finite, so that
    /// it can be split; a step in which no source takes part needs neither.
    pub open spec fn splittable(self) -> bool {
        &&& self.entries.len() == 0 || self.amount is Fin
        &&& forall|k: int| 0 <= k < self.entries.len() ==> (#[trigger] self.entries[k]).1.len() > 0
    }
}

/// What one source has given to each sink.
#[derive(Debug)]
pub struct Transfer {
    pub from: usize,
    pub to: Vec<(usize, Amount)>,
}

/// The ledger.
#[derive(Debug)]
pub struct Book {
    pub transfers: Vec<Transfer>,
}

/// The records of a transfer as numbers.
pub open spec fn records_of(v: Seq<(usize, Amount)>) -> Seq<(usize, real)> {
    Seq::new(v.len(), |k: int| (v[k].0, v[k].1@.val()))
}

impl View for Transfer {
    type V = TransferModel;

    open spec fn view(&self) -> TransferModel {
        TransferModel { from: self.from, to: records_of(self.to@) }
    }
}

impl View for Book {
    type V = BookModel;

    open spec fn view(&self) -> BookModel {
        self.transfers@.map_values(|t: Transfer| t@)
    }
}

impl Transfer {
    /// Every amount is a finite number.
    pub open spec fn wf(&self) -> bool {
        forall|k: int| 0 <= k < self.to@.len() ==> (#[trigger] self.to@[k]).1.wf() && self.to@[k].1@ is Fin
    }
}

impl Book {
    /// Every amount is a finite number.
    pub open spec fn wf(&self) -> bool {
        forall|i: int| 0 <= i < self.transfers@.len() ==> (#[trigger] self.transfers@[i]).wf()
    }

    /// An empty ledger.
    pub fn new() -> (r: Book)
        ensures
            r.wf(),
            r@ == Seq::<TransferModel>::empty(),
    {
        let r = Book { transfers: Vec::new() };
        assert(r@ =~= Seq::<TransferModel>::empty());
        r
    }

    /// The position of the transfer of `from`, which is appended first where
    /// the ledger has none.
    pub fn get_transfer_or_insert(&mut self, from: usize) -> (i: usize)
        requires
            old(self).wf(),
        ensures
            final(self).wf(),
            i == find_from(old(self)@, from, 0),
            final(self)@ == with_transfer(old(self)@, from),
            i < final(self)@.len(),
            final(self)@[i as int].from == from,
    {
        let mut i: usize = 0;
        while i < self.transfers.len()
            invariant
                *self == *old(self),
                self.wf(),
                i <= self@.len(),
                find_from(self@, from, i as nat) == find_from(self@, from, 0),
            decreases self@.len() - i,
        {
            if self.transfers[i].from == from {
                return i;
            }
            i += 1;
        }
        let t = Transfer { from, to: Vec::new() };
        assert(t@.to =~= Seq::empty());
        self.transfers.push(t);
        assert(self@ =~= old(self)@.push(TransferModel { from, to: Seq::empty() }));
        self.transfers.len() - 1
    }

    /// The position of the record of what `from` gave to `to`, as the index
    /// of the transfer and the index in it. Transfer and record are appended
    /// first, the record at zero, where the ledger does not have them.
    pub fn get_fraction_or_insert(&mut self, from: usize, to: usize) -> (r: (usize, usize))
        requires
            old(self).wf(),
        ensures
            final(self).wf(),
            r.0 == find_from(old(self)@, from, 0),
            r.1 == find_to(with_transfer(old(self)@, from)[r.0 as int].to, to, 0),
            final(self)@ == with_transfer(old(self)@, from).update(
                r.0 as int,
                (TransferModel {
                    from: from,
                    to: with_record(with_transfer(old(self)@, from)[r.0 as int].to, to),
                }),
            ),
            r.0 < with_transfer(old(self)@, from).len(),
            with_transfer(old(self)@, from)[r.0 as int].from == from,
            r.0 < final(self).transfers@.len(),
            r.1 < final(self).transfers@[r.0 as int].to@.len(),
            final(self).transfers@[r.0 as int].to@[r.1 as int].0 == to,
    {
        let i = self.get_transfer_or_insert(from);
        let ghost b1 = self@;
        let ghost rec = b1[i as int].to;
        let mut j: usize = 0;
        while j < self.transfers[i].to.len()
            invariant
                self.wf(),
                self@ == b1,
                i < self@.len(),
                i == find_from(old(self)@, from, 0),
                b1 == with_transfer(old(self)@, from),
                b1[i as int].from == from,
                rec == b1[i as int].to,
                j <= rec.len(),
                find_to(rec, to, j as nat) == find_to(rec, to, 0),
            decreases rec.len() - j,
        {
            if self.transfers[i].to[j].0 == to {
                proof {
                    assert(b1.update(i as int, (TransferModel { from: from, to: rec })) =~= b1);
                }
                return (i, j);
            }
            j += 1;
        }
        let ghost before = self.transfers@[i as int].to@;
        self.transfers[i].to.push((to, Amount::zero()));
        proof {
            assert(self.transfers@[i as int].to@ == before.push((to, self.transfers@[i as int].to@[j as int].1)));
            assert(records_of(self.transfers@[i as int].to@) =~= rec.push((to, 0real)));
            assert(self@ =~= b1.update(
                i as int,
                (TransferModel { from: from, to: rec.push((to, 0real)) }),
            ));
        }
        (i, j)
    }
}

impl Book {
    /// Books the step: for each source that takes part and each of its
    /// sinks, the sink's share of the step's amount is added to what the
    /// source has given it so far.
    pub fn apply_step(&mut self, s: &Step)
        requires
            old(self).wf(),
            s.wf(),
            s@.splittable(),
        ensures
            final(self).wf(),
            final(self)@ == booked(old(self)@, s@.entries, s@.amount.val(), s@.entries.len()),
    {
        let ghost a = s.amount@.val();
        let ghost en = s@.entries;
        let mut k: usize = 0;
        while k < s.src_to_snks.len()
            invariant
                self.wf(),
                s.wf(),
                s@.splittable(),
                a == s.amount@.val(),
                en == s@.entries,
                k <= en.len(),
                self@ == booked(old(self)@, en, a, k as nat),
            decreases en.len() - k,
        {
            let e = &s.src_to_snks[k];
            let ghost sinks = en[k as int].1;
            assert(en[k as int] == (e.0, e.1@));
            let n = Amount::from_usize(e.1.len());
            let per = s.amount.checked_div(&n).unwrap();
            let ghost p = crate::flow::per_sink(a, sinks);
            assert(per@ == Qty::Fin(p));
            let ghost b0 = self@;
            let mut t: usize = 0;
            while t < e.1.len()
                invariant
                    self.wf(),
                    per.wf(),
                    per@ == Qty::Fin(p),
                    sinks == e.1@,
                    t <= sinks.len(),
                    self@ == credit_all(b0, e.0, sinks, t as nat, p),
                decreases sinks.len() - t,
            {
                let ghost prev = self@;
                let sink = e.1[t];
                let (i, j) = self.get_fraction_or_insert(e.0, sink);
                let ghost mid = self@;
                let ghost rec = mid[i as int].to;
                assert(self.transfers@[i as int].wf());
                let v = self.transfers[i].to[j].1.add(&per);
                self.transfers[i].to[j].1 = v;
                proof {
                    let b1 = with_transfer(prev, e.0);
                    let to1 = with_record(b1[i as int].to, sink);
                    assert(rec == to1);
                    let changed = TransferModel {
                        from: e.0,
                        to: to1.update(j as int, (sink, to1[j as int].1 + p)),
                    };
                    assert(records_of(self.transfers@[i as int].to@) =~= changed.to);
                    assert(self@[i as int] == changed);
                    assert(self@ =~= mid.update(i as int, changed));
                    assert(mid.update(i as int, changed) =~= b1.update(i as int, changed));
                    assert(self@ == credit(prev, e.0, sink, p));
                }
                t += 1;
            }
            k += 1;
        }
    }
}

/// The records of one transfer as triples of source, sink and amount.
pub open spec fn row_entries(t: TransferModel) -> Seq<(usize, usize, real)> {
    Seq::new(t.to.len(), |k: int| (t.from, t.to[k].0, t.to[k].1))
}

/// The records of the first `n` transfers of the ledger, in the order of
/// the ledger, as triples of source, sink and amount.
pub open spec fn attributed(b: BookModel, n: nat) -> Seq<(usize, usize, real)>
    decreases n,
{
    if n == 0 || n > b.len() {
        Seq::empty()
    } else {
        attributed(b, (n - 1) as nat) + row_entries(b[n - 1])
    }
}

/// Triples of source, sink and amount as numbers.
pub open spec fn triples_of(v: Seq<(usize, usize, Amount)>) -> Seq<(usize, usize, real)> {
    Seq::new(v.len(), |k: int| (v[k].0, v[k].1, v[k].2@.val()))
}

impl Book {
    /// Everything the ledger holds: for each source in the order of first
    /// contact, and for each sink that it reached in that order, how much
    /// the source gave the sink.
    pub fn attribution(&self) -> (r: Vec<(usize, usize, Amount)>)
        requires
            self.wf(),
        ensures
            triples_of(r@) == attributed(self@, self@.len()),
            forall|k: int| 0 <= k < r@.len() ==> (#[trigger] r@[k]).2.wf() && r@[k].2@ is Fin,
    {
        let mut r: Vec<(usize, usize, Amount)> = Vec::new();
        let mut i: usize = 0;
        assert(triples_of(r@) =~= attributed(self@, 0));
        while i < self.transfers.len()
            invariant
                self.wf(),
                i <= self@.len(),
                triples_of(r@) == attributed(self@, i as nat),
                forall|k: int| 0 <= k < r@.len() ==> (#[trigger] r@[k]).2.wf() && r@[k].2@ is Fin,
            decreases self@.len() - i,
        {
            let t = &self.transfers[i];
            let ghost before = r@;
            assert(t.wf());
            assert(self@[i as int] == t@);
            let mut j: usize = 0;
            while j < t.to.len()
                invariant
                    t.wf(),
                    j <= t.to@.len(),
                    r@.len() == before.len() + j,
                    forall|k: int| 0 <= k < before.len() ==> r@[k] == before[k],
                    forall|k: int|
                        0 <= k < j ==> (#[trigger] r@[before.len() + k]).0 == t.from && r@[before.len()
                            + k].1 == t.to@[k].0 && r@[before.len() + k].2@ == t.to@[k].1@,
                    forall|k: int| 0 <= k < r@.len() ==> (#[trigger] r@[k]).2.wf() && r@[k].2@ is Fin,
                decreases t.to@.len() - j,
            {
                assert(t.to@[j as int].1.wf());
                r.push((t.from, t.to[j].0, t.to[j].1.dup()));
                j += 1;
            }
            proof {
                let row = row_entries(t@);
                assert(triples_of(r@) =~= triples_of(before) + row) by {
                    assert forall|k: int| 0 <= k < r@.len() implies triples_of(r@)[k] == (triples_of(
                        before,
                    ) + row)[k] by {
                        if k >= before.len() {
                            let d = k - before.len();
                            assert(r@[before.len() + d].0 == t.from);
                        }
                    }
                }
            }
            i += 1;
        }
        r
    }
}

} // verus!
