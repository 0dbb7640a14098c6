//! The value-level connections of a graph: for each output value slot, the
//! input slots it drives, in connection order.
use super::jit::ir::lemma_filter_extend;
use super::slots::{
    fits, get_targets, is_key, new_target_table, remove_targets, set_targets, target_entries,
    target_keys, TargetTable,
};
use super::{ValueKey, MAX_CONNECTIONS_PER_OUTPUT};
use vstd::prelude::*;

verus! {

broadcast use vstd::seq_lib::group_filter_ensures;

/// Keeps the items different from `t`.
pub open spec fn not_equal(t: ValueKey) -> spec_fn(ValueKey) -> bool {
    |x: ValueKey| x != t
}

/// Every list is held under a slot-map key, one key per slot, is non-empty
/// and within the capacity of a list, and holds slot-map keys.
pub open spec fn targets_wf(m: Map<ValueKey, Seq<ValueKey>>) -> bool {
    forall|k: ValueKey|
        #[trigger] m.contains_key(k) ==> is_key(k) && fits(m, k) && 0 < m[k].len()
            <= MAX_CONNECTIONS_PER_OUTPUT && forall|j: int| 0 <= j < m[k].len() ==> is_key(
            #[trigger] m[k][j],
        )
}

/// The lists of `m` with `t` taken out, dropping the lists that become empty.
pub open spec fn stripped(m: Map<ValueKey, Seq<ValueKey>>, t: ValueKey) -> Map<
    ValueKey,
    Seq<ValueKey>,
> {
    Map::new(
        |f: ValueKey| m.contains_key(f) && m[f].filter(not_equal(t)).len() > 0,
        |f: ValueKey| m[f].filter(not_equal(t)),
    )
}

proof fn lemma_filter_without_absent(s: Seq<ValueKey>, t: ValueKey)
    requires
        !s.contains(t),
    ensures
        s.filter(not_equal(t)) == s,
    decreases s.len(),
{
    reveal(Seq::filter);
    if s.len() > 0 {
        assert(!s.drop_last().contains(t)) by {
            if s.drop_last().contains(t) {
                let k = choose|k: int| 0 <= k < s.drop_last().len() && s.drop_last()[k] == t;
                assert(s[k] == t);
            }
        }
        lemma_filter_without_absent(s.drop_last(), t);
        assert(s.drop_last().push(s.last()) =~= s);
    }
}

proof fn lemma_filter_keeps_keys(s: Seq<ValueKey>, t: ValueKey)
    requires
        forall|j: int| 0 <= j < s.len() ==> is_key(#[trigger] s[j]),
    ensures
        forall|j: int|
            0 <= j < s.filter(not_equal(t)).len() ==> is_key(#[trigger] s.filter(not_equal(t))[j]),
{
    assert forall|j: int| 0 <= j < s.filter(not_equal(t)).len() implies is_key(
        #[trigger] s.filter(not_equal(t))[j],
    ) by {
        let x = s.filter(not_equal(t))[j];
        assert(s.filter(not_equal(t)).contains(x));
        s.lemma_filter_contains_rev(not_equal(t), x);
        let p = choose|p: int| 0 <= p < s.len() && s[p] == x;
        assert(is_key(s[p]));
    }
}

/// The items of `v` other than `drop`, and whether `drop` was among them.
fn without(v: &Vec<ValueKey>, drop: ValueKey) -> (r: (Vec<ValueKey>, bool))
    ensures
        r.0@ == v@.filter(not_equal(drop)),
        r.1 == v@.contains(drop),
{
    let ghost s = v@;
    let mut kept: Vec<ValueKey> = Vec::new();
    let mut found = false;
    let mut j: usize = 0;
    assert(s.subrange(0, 0).filter(not_equal(drop)) =~= Seq::<ValueKey>::empty()) by {
        reveal(Seq::filter);
    }
    while j < v.len()
        invariant
            s == v@,
            0 <= j <= s.len(),
            kept@ == s.subrange(0, j as int).filter(not_equal(drop)),
            found == s.subrange(0, j as int).contains(drop),
        decreases s.len() - j,
    {
        let t = v[j];
        proof {
            lemma_filter_extend(s, j as int, not_equal(drop));
            if s.subrange(0, j + 1).contains(drop) && t != drop {
                let k = choose|k: int| 0 <= k < j + 1 && #[trigger] s.subrange(0, j + 1)[k] == drop;
                assert(s.subrange(0, j as int)[k] == drop);
            }
            if s.subrange(0, j as int).contains(drop) {
                let k = choose|k: int| 0 <= k < j && #[trigger] s.subrange(0, j as int)[k] == drop;
                assert(s.subrange(0, j + 1)[k] == drop);
            }
            if t == drop {
                assert(s.subrange(0, j + 1)[j as int] == drop);
            }
        }
        if t == drop {
            found = true;
        } else {
            kept.push(t);
        }
        j += 1;
    }
    assert(s.subrange(0, j as int) =~= s);
    (kept, found)
}

/// Connections from output value slots to input value slots.
pub struct Connections {
    table: TargetTable,
}

impl Connections {
    /// The input slots each output slot drives, for the outputs that drive any.
    pub closed spec fn view(&self) -> Map<ValueKey, Seq<ValueKey>> {
        target_entries(self.table)
    }

    pub open spec fn wf(&self) -> bool {
        targets_wf(self.view())
    }

    /// The input slots `from` drives, in connection order.
    pub open spec fn targets(&self, from: ValueKey) -> Seq<ValueKey> {
        if self.view().contains_key(from) {
            self.view()[from]
        } else {
            Seq::empty()
        }
    }

    pub fn new() -> (c: Self)
        ensures
            c.wf(),
            c.view().dom() == Set::<ValueKey>::empty(),
            forall|f: ValueKey| #[trigger] c.targets(f).len() == 0,
    {
        Connections { table: new_target_table() }
    }

    /// The output slots that drive at least one input, once each.
    pub fn sources(&self) -> (ks: Vec<ValueKey>)
        ensures
            ks@.no_duplicates(),
            forall|f: ValueKey| #[trigger] ks@.contains(f) <==> self.view().contains_key(f),
    {
        target_keys(&self.table)
    }

    /// The input slots `from` drives, in connection order.
    pub fn targets_of(&self, from: ValueKey) -> (r: Vec<ValueKey>)
        requires
            is_key(from),
        ensures
            r@ == self.targets(from),
    {
        match get_targets(&self.table, from) {
            Some(v) => v,
            None => Vec::new(),
        }
    }

    /// Connects output slot `from` to input slot `to` (after the targets it
    /// already drives).
    pub fn connect(&mut self, from: ValueKey, to: ValueKey)
        requires
            old(self).wf(),
            is_key(from),
            is_key(to),
            fits(old(self).view(), from),
            old(self).targets(from).len() < MAX_CONNECTIONS_PER_OUTPUT,
        ensures
            final(self).wf(),
            final(self).view() == old(self).view().insert(from, old(self).targets(from).push(to)),
            final(self).targets(from) == old(self).targets(from).push(to),
            forall|f: ValueKey| f != from ==> #[trigger] final(self).targets(f) == old(self).targets(f),
    {
        let ghost v0 = self.view();
        let mut list = match get_targets(&self.table, from) {
            Some(v) => v,
            None => Vec::new(),
        };
        list.push(to);
        set_targets(&mut self.table, from, list);
        proof {
            assert forall|k: ValueKey| #[trigger] self.view().contains_key(k) implies is_key(k) && fits(
                self.view(),
                k,
            ) && 0 < self.view()[k].len() <= MAX_CONNECTIONS_PER_OUTPUT by {
                assert forall|a: ValueKey| #[trigger] self.view().contains_key(a) && super::slots::slot_index(
                    a,
                ) == super::slots::slot_index(k) implies a == k by {
                    if a != from && k != from {
                        assert(v0.contains_key(a) && v0.contains_key(k));
                    } else if a == from {
                        if k != from {
                            assert(v0.contains_key(k));
                        }
                    } else {
                        assert(v0.contains_key(a));
                    }
                }
            }
        }
    }

    /// Removes the connections from `from` to `to`; true when there was one.
    pub fn disconnect(&mut self, from: ValueKey, to: ValueKey) -> (removed: bool)
        requires
            old(self).wf(),
            is_key(from),
        ensures
            final(self).wf(),
            removed == old(self).targets(from).contains(to),
            final(self).targets(from) == old(self).targets(from).filter(not_equal(to)),
            forall|f: ValueKey| f != from ==> #[trigger] final(self).targets(f) == old(self).targets(f),
            final(self).view() == (if !removed {
                old(self).view()
            } else if old(self).targets(from).filter(not_equal(to)).len() == 0 {
                old(self).view().remove(from)
            } else {
                old(self).view().insert(from, old(self).targets(from).filter(not_equal(to)))
            }),
    {
        let ghost v0 = self.view();
        match get_targets(&self.table, from) {
            None => {
                proof {
                    reveal(Seq::filter);
                    assert(Seq::<ValueKey>::empty().filter(not_equal(to)) =~= Seq::<ValueKey>::empty());
                }
                false
            },
            Some(list) => {
                let (kept, found) = without(&list, to);
                if found {
                    if kept.len() == 0 {
                        remove_targets(&mut self.table, from);
                        proof {
                            assert(self.targets(from) =~= Seq::<ValueKey>::empty());
                            assert forall|k: ValueKey| #[trigger] self.view().contains_key(k) implies fits(
                                self.view(),
                                k,
                            ) by {
                                assert(v0.contains_key(k));
                            }
                        }
                    } else {
                        proof {
                            lemma_filter_keeps_keys(list@, to);
                        }
                        set_targets(&mut self.table, from, kept);
                        proof {
                            assert forall|k: ValueKey| #[trigger] self.view().contains_key(k) implies fits(
                                self.view(),
                                k,
                            ) by {
                                assert(v0.contains_key(k));
                                assert forall|a: ValueKey| #[trigger] self.view().contains_key(a)
                                    && super::slots::slot_index(a) == super::slots::slot_index(
                                    k,
                                ) implies a == k by {
                                    assert(v0.contains_key(a));
                                }
                            }
                        }
                    }
                } else {
                    proof {
                        lemma_filter_without_absent(list@, to);
                    }
                }
                found
            },
        }
    }

    /// Removes every connection from `from`; true when there was one.
    pub fn disconnect_all_from(&mut self, from: ValueKey) -> (removed: bool)
        requires
            old(self).wf(),
            is_key(from),
        ensures
            final(self).wf(),
            removed == (old(self).targets(from).len() > 0),
            final(self).targets(from).len() == 0,
            forall|f: ValueKey| f != from ==> #[trigger] final(self).targets(f) == old(self).targets(f),
            final(self).view() == old(self).view().remove(from),
    {
        let ghost v0 = self.view();
        let found = match get_targets(&self.table, from) {
            Some(_) => true,
            None => false,
        };
        remove_targets(&mut self.table, from);
        proof {
            assert(!found ==> v0.remove(from) =~= v0);
            assert forall|k: ValueKey| #[trigger] self.view().contains_key(k) implies fits(self.view(), k) by {
                assert(v0.contains_key(k));
            }
        }
        found
    }

    /// Removes `target` from every target list, dropping lists that become
    /// empty.
    pub fn remove_incoming_edges(&mut self, target: ValueKey)
        requires
            old(self).wf(),
        ensures
            final(self).wf(),
            final(self).view() == stripped(old(self).view(), target),
            forall|f: ValueKey| #[trigger] final(self).targets(f) == old(self).targets(f).filter(
                not_equal(target),
            ),
    {
        let ghost v0 = self.view();
        let keys = target_keys(&self.table);
        let mut i: usize = 0;
        while i < keys.len()
            invariant
                targets_wf(self.view()),
                targets_wf(v0),
                keys@.no_duplicates(),
                forall|f: ValueKey| #[trigger] keys@.contains(f) <==> v0.contains_key(f),
                0 <= i <= keys@.len(),
                forall|f: ValueKey| #[trigger] self.view().contains_key(f) <==> (if keys@.subrange(
                    0,
                    i as int,
                ).contains(f) {
                    stripped(v0, target).contains_key(f)
                } else {
                    v0.contains_key(f)
                }),
                forall|f: ValueKey| #[trigger] self.view().contains_key(f) ==> self.view()[f] == (if keys@.subrange(
                    0,
                    i as int,
                ).contains(f) {
                    stripped(v0, target)[f]
                } else {
                    v0[f]
                }),
            decreases keys@.len() - i,
        {
            let k = keys[i];
            let ghost before = self.view();
            let ghost prev = keys@.subrange(0, i as int);
            let ghost next = keys@.subrange(0, i + 1);
            proof {
                assert(next =~= prev.push(k));
                assert(keys@.contains(k)) by {
                    assert(keys@[i as int] == k);
                }
                assert(!prev.contains(k)) by {
                    if prev.contains(k) {
                        let p = choose|p: int| 0 <= p < prev.len() && prev[p] == k;
                        assert(keys@[p] == keys@[i as int]);
                    }
                }
                assert forall|x: ValueKey| #[trigger] next.contains(x) <==> prev.contains(x) || x == k by {
                    if next.contains(x) && x != k {
                        let p = choose|p: int| 0 <= p < next.len() && next[p] == x;
                        assert(prev[p] == x);
                    }
                    if x == k {
                        assert(next[i as int] == k);
                    }
                    if prev.contains(x) {
                        let p = choose|p: int| 0 <= p < prev.len() && prev[p] == x;
                        assert(next[p] == x);
                    }
                }
                assert(before.contains_key(k));
                assert(before[k] == v0[k]);
            }
            match get_targets(&self.table, k) {
                Some(list) => {
                    let (kept, found) = without(&list, target);
                    proof {
                        lemma_filter_keeps_keys(list@, target);
                    }
                    if found {
                        if kept.len() == 0 {
                            remove_targets(&mut self.table, k);
                        } else {
                            set_targets(&mut self.table, k, kept);
                        }
                    } else {
                        proof {
                            lemma_filter_without_absent(list@, target);
                        }
                    }
                    proof {
                        assert(list@.filter(not_equal(target)).len() <= list@.len());
                        assert forall|f: ValueKey| #[trigger] self.view().contains_key(f) implies is_key(f)
                            && fits(self.view(), f) && 0 < self.view()[f].len()
                            <= MAX_CONNECTIONS_PER_OUTPUT by {
                            assert(before.contains_key(f));
                            assert forall|a: ValueKey| #[trigger] self.view().contains_key(a)
                                && super::slots::slot_index(a) == super::slots::slot_index(
                                f,
                            ) implies a == f by {
                                assert(before.contains_key(a));
                            }
                        }
                    }
                },
                None => {},
            }
            i += 1;
        }
        proof {
            assert(keys@.subrange(0, i as int) =~= keys@);
            assert(self.view() =~= stripped(v0, target));
            assert forall|f: ValueKey| #[trigger] self.targets(f) == (if v0.contains_key(f) {
                v0[f]
            } else {
                Seq::<ValueKey>::empty()
            }).filter(not_equal(target)) by {
                if !v0.contains_key(f) {
                    reveal(Seq::filter);
                    assert(Seq::<ValueKey>::empty().filter(not_equal(target)) =~= Seq::<ValueKey>::empty());
                } else if v0[f].filter(not_equal(target)).len() == 0 {
                    assert(v0[f].filter(not_equal(target)) =~= Seq::<ValueKey>::empty());
                }
            }
        }
    }
}

/// Disconnecting undoes connecting: connecting `from` to a slot it did not
/// drive and then disconnecting that pair leaves `from`'s targets as they
/// were.
pub proof fn lemma_disconnect_undoes_connect(targets: Seq<ValueKey>, to: ValueKey)
    requires
        !targets.contains(to),
    ensures
        targets.push(to).filter(not_equal(to)) == targets,
{
    reveal(Seq::filter);
    assert(targets.push(to).drop_last() =~= targets);
    lemma_filter_without_absent(targets, to);
}

} // verus!
