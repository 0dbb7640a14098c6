//! Active value ramps of a graph: which value slots are moving towards a
//! target, by how much per sample, and for how many more samples.
//!
//! Steps and targets are binary32 bit patterns: the table keeps track of
//! which slot ramps and when a ramp ends; the arithmetic on the values is
//! done by whoever applies the returned updates.
use super::ValueKey;
use super::slots::{
    fits, get_index, index_entries, insert_index, is_key, new_index_table, remove_index, IndexTable,
};
use vstd::prelude::*;

verus! {

/// A ramp of one value slot: each sample the slot moves by `step`, and once
/// `remaining` reaches zero it lands on `target`.
#[derive(Copy, Clone, Debug, PartialEq, Eq, Structural)]
pub struct ActiveRamp {
    pub key: ValueKey,
    pub step: u32,
    pub remaining: u32,
    pub target: u32,
}

/// What one sample of ramping does to slot `key`: it moves by `step`, and
/// when the ramp ends it then lands on the value in `finish`.
#[derive(Copy, Clone, Debug, PartialEq, Eq, Structural)]
pub struct RampUpdate {
    pub key: ValueKey,
    pub step: u32,
    pub finish: Option<u32>,
}

/// The ramps in progress, one per value slot at most.
pub struct RampTable {
    ramps: Vec<ActiveRamp>,
    indices: IndexTable,
}

/// The position index names, for each slot, the one position of the list
/// holding its ramp.
pub open spec fn table_wf(ramps: Seq<ActiveRamp>, indices: Map<ValueKey, usize>) -> bool {
    &&& forall|k: ValueKey| #[trigger] indices.contains_key(k) ==> is_key(k) && fits(indices, k)
    &&& forall|p: int|
        0 <= p < ramps.len() ==> #[trigger] indices.contains_key(ramps[p].key) && indices[ramps[p].key]
            == p
    &&& forall|k: ValueKey|
        #[trigger] indices.contains_key(k) ==> indices[k] < ramps.len() && ramps[indices[k] as int].key
            == k
}

/// The ramp after one more sample, while it has not ended.
pub open spec fn ticked(r: ActiveRamp) -> ActiveRamp {
    ActiveRamp { key: r.key, step: r.step, remaining: (r.remaining - 1) as u32, target: r.target }
}

/// The ramps still running after one sample: those with more than one
/// sample left, each with one sample less.
pub open spec fn tick_all(m: Map<ValueKey, ActiveRamp>) -> Map<ValueKey, ActiveRamp> {
    Map::new(|k: ValueKey| m.contains_key(k) && m[k].remaining > 1, |k: ValueKey| ticked(m[k]))
}

/// The update one sample of ramp `r` makes: a ramp with at most one sample
/// left ends on its target.
pub open spec fn update_of(r: ActiveRamp) -> RampUpdate {
    RampUpdate {
        key: r.key,
        step: r.step,
        finish: if r.remaining <= 1 {
            Some(r.target)
        } else {
            None
        },
    }
}

/// The ramps still running after `n` samples.
pub open spec fn ticks(m: Map<ValueKey, ActiveRamp>, n: nat) -> Map<ValueKey, ActiveRamp>
    decreases n,
{
    if n == 0 {
        m
    } else {
        tick_all(ticks(m, (n - 1) as nat))
    }
}

/// A ramp with `n` samples to go keeps running, one sample less each time,
/// through the first `n - 1` samples, and is gone after the `n`-th: so the
/// update that ends it (and lands the slot on its target) comes exactly on
/// the `n`-th sample.
pub proof fn lemma_ramp_runs_for_its_samples(m: Map<ValueKey, ActiveRamp>, key: ValueKey, n: nat)
    requires
        m.contains_key(key),
        m[key].remaining == n,
        n >= 1,
    ensures
        forall|t: nat|
            t < n ==> #[trigger] ticks(m, t).contains_key(key) && ticks(m, t)[key].remaining == n - t
                && ticks(m, t)[key].step == m[key].step && ticks(m, t)[key].target == m[key].target,
        update_of(ticks(m, (n - 1) as nat)[key]).finish == Some(m[key].target),
        !ticks(m, n).contains_key(key),
{
    assert forall|t: nat| t < n implies #[trigger] ticks(m, t).contains_key(key) && ticks(m, t)[key].remaining
        == n - t && ticks(m, t)[key].step == m[key].step && ticks(m, t)[key].target == m[key].target by {
        lemma_ramp_running(m, key, n, t);
    }
    lemma_ramp_running(m, key, n, (n - 1) as nat);
}

proof fn lemma_ramp_running(m: Map<ValueKey, ActiveRamp>, key: ValueKey, n: nat, t: nat)
    requires
        m.contains_key(key),
        m[key].remaining == n,
        t < n,
    ensures
        ticks(m, t).contains_key(key),
        ticks(m, t)[key].remaining == n - t,
        ticks(m, t)[key].step == m[key].step,
        ticks(m, t)[key].target == m[key].target,
    decreases t,
{
    if t > 0 {
        lemma_ramp_running(m, key, n, (t - 1) as nat);
    }
}

impl RampTable {
    /// The ramp of each ramping slot.
    pub closed spec fn view(&self) -> Map<ValueKey, ActiveRamp> {
        Map::new(
            |k: ValueKey| self.idx().contains_key(k),
            |k: ValueKey| self.ramps@[self.idx()[k] as int],
        )
    }

    /// The position index.
    closed spec fn idx(&self) -> Map<ValueKey, usize> {
        index_entries(self.indices)
    }

    pub closed spec fn wf(&self) -> bool {
        table_wf(self.ramps@, self.idx())
    }

    proof fn lemma_view_keys(&self)
        requires
            self.wf(),
        ensures
            forall|k: ValueKey| #[trigger] self.view().contains_key(k) ==> self.view()[k].key == k,
    {
    }

    pub fn new() -> (t: Self)
        ensures
            t.wf(),
            t.view() == Map::<ValueKey, ActiveRamp>::empty(),
    {
        let t = RampTable { ramps: Vec::new(), indices: new_index_table() };
        assert(t.view() =~= Map::<ValueKey, ActiveRamp>::empty());
        t
    }

    /// Whether slot `key` is ramping.
    pub fn is_ramping(&self, key: ValueKey) -> (r: bool)
        requires
            is_key(key),
        ensures
            r == self.view().contains_key(key),
    {
        match get_index(&self.indices, key) {
            Some(_) => true,
            None => false,
        }
    }

    fn position(&self, key: ValueKey) -> (r: Option<usize>)
        requires
            self.wf(),
            is_key(key),
        ensures
            match r {
                Some(i) => self.idx().contains_key(key) && i == self.idx()[key] && i
                    < self.ramps@.len(),
                None => !self.idx().contains_key(key),
            },
    {
        get_index(&self.indices, key)
    }

    /// Starts a ramp of slot `key`, or restarts the one it has.
    pub fn start(&mut self, key: ValueKey, step: u32, remaining: u32, target: u32)
        requires
            old(self).wf(),
            is_key(key),
            fits(old(self).view(), key),
        ensures
            final(self).wf(),
            final(self).view() == old(self).view().insert(
                key,
                ActiveRamp { key, step, remaining, target },
            ),
    {
        let ghost v0 = self.view();
        let r = ActiveRamp { key, step, remaining, target };
        match self.position(key) {
            Some(i) => {
                self.ramps.set(i, r);
            },
            None => {
                let i = self.ramps.len();
                self.ramps.push(r);
                assert(fits(self.idx(), key)) by {
                    assert forall|a: ValueKey| #[trigger] self.idx().contains_key(a)
                        && super::slots::slot_index(a) == super::slots::slot_index(key) implies a == key by {
                        assert(v0.contains_key(a));
                    }
                }
                insert_index(&mut self.indices, key, i);
            },
        }
        let ghost idx1 = self.idx();
        assert forall|k: ValueKey| #[trigger] self.idx().contains_key(k) implies is_key(k) && fits(self.idx(), k) by {
            assert forall|a: ValueKey| #[trigger] self.idx().contains_key(a)
                && super::slots::slot_index(a) == super::slots::slot_index(k) implies a == k by {
                if a != key && k != key {
                    assert(v0.contains_key(a) && v0.contains_key(k));
                } else if a == key {
                    if k != key {
                        assert(v0.contains_key(k));
                    }
                } else {
                    assert(v0.contains_key(a));
                }
            }
        }
        assert(self.view() =~= v0.insert(key, r));
    }

    /// Removes the ramp at position `i` by moving the last ramp into its place.
    fn remove_at(&mut self, i: usize)
        requires
            old(self).wf(),
            i < old(self).ramps@.len(),
        ensures
            final(self).wf(),
            final(self).view() == old(self).view().remove(old(self).ramps@[i as int].key),
            final(self).ramps@ == old(self).ramps@.update(i as int, old(self).ramps@.last()).drop_last(),
    {
        let ghost v0 = self.view();
        let ghost r0 = self.ramps@;
        let ghost idx0 = self.idx();
        let removed = self.ramps.swap_remove(i);
        assert(idx0.contains_key(r0[i as int].key));
        remove_index(&mut self.indices, removed.key);
        if i < self.ramps.len() {
            let moved = self.ramps[i].key;
            assert(idx0.contains_key(r0.last().key)) by {
                assert(r0.last() == r0[r0.len() - 1]);
            }
            assert(fits(self.idx(), moved)) by {
                assert forall|a: ValueKey| #[trigger] self.idx().contains_key(a)
                    && super::slots::slot_index(a) == super::slots::slot_index(moved) implies a == moved by {
                    assert(idx0.contains_key(a));
                }
            }
            insert_index(&mut self.indices, moved, i);
        }
        assert forall|k: ValueKey| #[trigger] self.idx().contains_key(k) implies is_key(k) && fits(self.idx(), k) by {
            assert(idx0.contains_key(k));
            assert forall|a: ValueKey| #[trigger] self.idx().contains_key(a)
                && super::slots::slot_index(a) == super::slots::slot_index(k) implies a == k by {
                assert(idx0.contains_key(a));
            }
        }
        assert(table_wf(self.ramps@, self.idx())) by {
            assert forall|p: int| 0 <= p < self.ramps@.len() implies #[trigger] self.idx().contains_key(
                self.ramps@[p].key,
            ) && self.idx()[self.ramps@[p].key] == p by {
                if p != i {
                    assert(self.ramps@[p] == r0[p]);
                    assert(table_wf(r0, idx0));
                    assert(idx0.contains_key(r0[p].key));
                    assert(idx0[r0[p].key] == p);
                    assert(r0[p].key != removed.key);
                    assert(idx0[r0[r0.len() - 1].key] == r0.len() - 1);
                    assert(r0[p].key != r0.last().key);
                } else {
                    assert(self.ramps@[p] == r0.last());
                }
            }
            assert forall|k: ValueKey| #[trigger] self.idx().contains_key(k) implies self.idx()[k]
                < self.ramps@.len() && self.ramps@[self.idx()[k] as int].key == k by {
                if k != removed.key && i < self.ramps@.len() && k != r0.last().key {
                    assert(self.idx()[k] != r0.len() - 1);
                }
            }
        }
        assert(self.view() =~= v0.remove(removed.key)) by {
            assert forall|k: ValueKey| #[trigger] self.view().contains_key(k) implies self.view()[k]
                == v0.remove(removed.key)[k] by {
                if k == r0.last().key && i < self.ramps@.len() {
                } else {
                    assert(self.idx()[k] != r0.len() - 1);
                }
            }
        }
    }

    /// Ends the ramp of slot `key`, if it has one.
    pub fn cancel(&mut self, key: ValueKey)
        requires
            old(self).wf(),
            is_key(key),
        ensures
            final(self).wf(),
            final(self).view() == old(self).view().remove(key),
    {
        match self.position(key) {
            Some(i) => {
                self.remove_at(i);
            },
            None => {
                assert(self.view().remove(key) =~= self.view());
            },
        }
    }

    /// Advances every ramp by one sample. Returns one update per ramping
    /// slot; ramps with at most one sample left end (their update carries
    /// the target) and leave the table, the others have one sample less.
    pub fn advance(&mut self) -> (updates: Vec<RampUpdate>)
        requires
            old(self).wf(),
        ensures
            final(self).wf(),
            final(self).view() == tick_all(old(self).view()),
            forall|j: int|
                0 <= j < updates@.len() ==> old(self).view().contains_key(#[trigger] updates@[j].key)
                    && updates@[j] == update_of(old(self).view()[updates@[j].key]),
            forall|k: ValueKey|
                old(self).view().contains_key(k) ==> exists|j: int|
                    0 <= j < updates@.len() && #[trigger] updates@[j].key == k,
            forall|a: int, b: int|
                0 <= a < b < updates@.len() ==> updates@[a].key != updates@[b].key,
    {
        let ghost v0 = self.view();
        proof {
            self.lemma_view_keys();
        }
        let mut updates: Vec<RampUpdate> = Vec::new();
        let mut i: usize = 0;
        while i < self.ramps.len()
            invariant
                self.wf(),
                0 <= i <= self.ramps@.len(),
                forall|k: ValueKey| #[trigger] v0.contains_key(k) ==> v0[k].key == k,
                forall|p: int|
                    0 <= p < i ==> v0.contains_key(#[trigger] self.ramps@[p].key) && v0[self.ramps@[
                        p
                    ].key].remaining > 1 && self.ramps@[p] == ticked(v0[self.ramps@[p].key]),
                forall|p: int|
                    i <= p < self.ramps@.len() ==> v0.contains_key(#[trigger] self.ramps@[p].key)
                        && self.ramps@[p] == v0[self.ramps@[p].key],
                forall|j: int|
                    0 <= j < updates@.len() ==> v0.contains_key(#[trigger] updates@[j].key)
                        && updates@[j] == update_of(v0[updates@[j].key]),
                forall|a: int, b: int|
                    0 <= a < b < updates@.len() ==> updates@[a].key != updates@[b].key,
                forall|j: int|
                    0 <= j < updates@.len() ==> (#[trigger] updates@[j].finish is Some
                        ==> !self.idx().contains_key(updates@[j].key)) && (updates@[j].finish is None
                        ==> self.idx().contains_key(updates@[j].key) && self.idx()[updates@[j].key]
                        < i),
                forall|k: ValueKey|
                    #[trigger] v0.contains_key(k) ==> (self.idx().contains_key(k)
                        && self.idx()[k] >= i) || exists|j: int|
                        0 <= j < updates@.len() && #[trigger] updates@[j].key == k,
            decreases self.ramps@.len() - i,
        {
            let r = self.ramps[i];
            let ghost before = self.ramps@;
            let ghost idx0 = self.idx();
            let ghost u0 = updates@;
            let remaining: u32 = if r.remaining > 0 {
                r.remaining - 1
            } else {
                0
            };
            if remaining == 0 {
                let u = RampUpdate { key: r.key, step: r.step, finish: Some(r.target) };
                updates.push(u);
                self.remove_at(i);
                proof {
                    assert(updates@[u0.len() as int] == u);
                    assert(before[i as int] == r);
                    assert(idx0[r.key] == i);
                    // Positions of the table after the removal hold ramps of before.
                    assert forall|p: int| 0 <= p < self.ramps@.len() implies #[trigger] self.ramps@[p]
                        == (if p == i { before.last() } else { before[p] }) by {}
                    assert forall|k: ValueKey| #[trigger] self.idx().contains_key(k) implies idx0.contains_key(k) by {
                        let p = self.idx()[k] as int;
                        if p == i {
                            assert(self.ramps@[p] == before.last());
                            assert(idx0.contains_key(before[before.len() - 1].key));
                        } else {
                            assert(self.ramps@[p] == before[p]);
                            assert(idx0.contains_key(before[p].key));
                        }
                    }
                    assert forall|k: ValueKey| #[trigger] v0.contains_key(k) implies (
                    self.idx().contains_key(k) && self.idx()[k] >= i) || exists|j: int|
                        0 <= j < updates@.len() && #[trigger] updates@[j].key == k by {
                        if k == r.key {
                            assert(updates@[u0.len() as int].key == k);
                        } else if exists|j: int| 0 <= j < u0.len() && #[trigger] u0[j].key == k {
                            let j = choose|j: int| 0 <= j < u0.len() && #[trigger] u0[j].key == k;
                            assert(updates@[j] == u0[j]);
                            assert(updates@[j].key == k);
                        } else {
                            assert(idx0.contains_key(k) && idx0[k] >= i);
                            let q = idx0[k] as int;
                            assert(before[q].key == k);
                            assert(q != i);
                            if q == before.len() - 1 {
                                assert(self.ramps@[i as int] == before.last());
                                assert(self.ramps@[i as int].key == k);
                                assert(self.idx().contains_key(k));
                            } else {
                                assert(self.ramps@[q] == before[q]);
                                assert(self.idx().contains_key(k));
                            }
                        }
                    }
                    assert forall|j: int| 0 <= j < updates@.len() implies (
                    #[trigger] updates@[j].finish is Some ==> !self.idx().contains_key(
                        updates@[j].key,
                    )) && (updates@[j].finish is None ==> self.idx().contains_key(updates@[j].key)
                        && self.idx()[updates@[j].key] < i) by {
                        if j < u0.len() {
                            assert(updates@[j] == u0[j]);
                            let key = u0[j].key;
                            if u0[j].finish is None {
                                let p = idx0[key] as int;
                                assert(p < i);
                                assert(before[p].key == key);
                                assert(self.ramps@[p] == before[p]);
                            }
                        } else {
                            assert(updates@[j] == u);
                        }
                    }
                    assert forall|a: int, b: int| 0 <= a < b < updates@.len() implies updates@[a].key
                        != updates@[b].key by {
                        if b == u0.len() {
                            assert(updates@[a] == u0[a]);
                            if u0[a].finish is None {
                                assert(idx0[u0[a].key] < i);
                            }
                        } else {
                            assert(updates@[a] == u0[a]);
                            assert(updates@[b] == u0[b]);
                        }
                    }
                }
            } else {
                let t = ActiveRamp { key: r.key, step: r.step, remaining, target: r.target };
                self.ramps.set(i, t);
                let u = RampUpdate { key: r.key, step: r.step, finish: None };
                updates.push(u);
                proof {
                    assert(updates@[u0.len() as int] == u);
                    assert forall|k: ValueKey| #[trigger] v0.contains_key(k) implies (
                    self.idx().contains_key(k) && self.idx()[k] >= i + 1) || exists|j: int|
                        0 <= j < updates@.len() && #[trigger] updates@[j].key == k by {
                        if k == r.key {
                            assert(updates@[u0.len() as int].key == k);
                        } else if exists|j: int| 0 <= j < u0.len() && #[trigger] u0[j].key == k {
                            let j = choose|j: int| 0 <= j < u0.len() && #[trigger] u0[j].key == k;
                            assert(updates@[j].key == k);
                        }
                    }
                    assert forall|j: int| 0 <= j < updates@.len() implies (
                    #[trigger] updates@[j].finish is Some ==> !self.idx().contains_key(
                        updates@[j].key,
                    )) && (updates@[j].finish is None ==> self.idx().contains_key(updates@[j].key)
                        && self.idx()[updates@[j].key] < i + 1) by {
                        if j < u0.len() {
                            assert(updates@[j] == u0[j]);
                        }
                    }
                    assert forall|a: int, b: int| 0 <= a < b < updates@.len() implies updates@[a].key
                        != updates@[b].key by {
                        assert(updates@[a] == u0[a]);
                        if b == u0.len() {
                            assert(idx0[r.key] == i);
                            if u0[a].finish is None {
                                assert(idx0[u0[a].key] < i);
                            }
                        } else {
                            assert(updates@[b] == u0[b]);
                        }
                    }
                }
                i += 1;
            }
        }
        proof {
            assert forall|k: ValueKey| #[trigger] self.view().contains_key(k) implies tick_all(
                v0,
            ).contains_key(k) && self.view()[k] == tick_all(v0)[k] by {
                let p = self.idx()[k] as int;
                assert(self.ramps@[p].key == k);
            }
            assert forall|k: ValueKey| #[trigger] tick_all(v0).contains_key(k) implies self.view().contains_key(
                k,
            ) by {
                assert(v0.contains_key(k));
                if !self.idx().contains_key(k) {
                    let j = choose|j: int| 0 <= j < updates@.len() && #[trigger] updates@[j].key == k;
                    assert(updates@[j] == update_of(v0[k]));
                    assert(updates@[j].finish is None);
                }
            }
            assert(self.view() =~= tick_all(v0));
        }
        updates
    }
}

} // verus!
