//! The registry of dispatched work: what a consumer has acquired and not
//! yet reported on, under the identity it was dispatched with.

use crate::hub::answers;
use crate::hub::kept;
use crate::hub::probe;
use crate::hub::sift;
use crate::hub::IsValid;
use crate::hub::Key;
use crate::keyed;
use std::collections::VecDeque;
use vstd::prelude::*;

verus! {

/// An entry of the registry: a value under the identity it was
/// registered with.
pub struct Entry<K, V> {
    id: K,
    value: V,
}

impl<K, V> Entry<K, V> {
    /// The value the entry holds.
    pub closed spec fn held(self) -> V {
        self.value
    }
}

impl<K: Key, V> IsValid for Entry<K, V> where V: IsValid {
    /// An entry is listened for as long as the value it holds is: its
    /// answer is the answer of that value.
    fn is_valid(&self) -> (b: bool)
        ensures
            answers(self.held(), b),
    {
        self.value.is_valid()
    }
}

/// Whether `live` holds one verdict for each identity in `ids`, each the
/// answer of the value held under that identity.
pub open spec fn answered<I, V: IsValid>(held: Map<I, V>, ids: Seq<I>, live: Seq<bool>) -> bool {
    live.len() == ids.len() && forall|i: int|
        0 <= i < ids.len() ==> answers(held[ids[i]], #[trigger] live[i])
}

/// The identities in `ids` that a sweep with the verdicts `live` evicts:
/// those whose verdict is `false`.
pub open spec fn doomed<I>(ids: Seq<I>, live: Seq<bool>) -> Set<I> {
    Set::new(
        |id: I| exists|i: int| 0 <= i < ids.len() && i < live.len() && !live[i] && ids[i] == id,
    )
}

/// What a withdrawal under `id` returns from the registry `held`.
pub open spec fn withdrawn<I, V>(held: Map<I, V>, id: I) -> Option<V> {
    if held.dom().contains(id) {
        Some(held[id])
    } else {
        None
    }
}

/// A withdrawal under an identity that is not held returns nothing and
/// changes nothing; so does a second withdrawal under one identity,
/// whatever the first returned.
pub proof fn lemma_withdrawal_of_absent<I, V>(held: Map<I, V>, id: I)
    ensures
        !held.dom().contains(id) ==> withdrawn(held, id) is None && held.remove(id) == held,
        withdrawn(held.remove(id), id) is None,
        held.remove(id).remove(id) == held.remove(id),
{
    assert(held.remove(id).remove(id) =~= held.remove(id));
    if !held.dom().contains(id) {
        assert(held.remove(id) =~= held);
    }
}

/// What is registered under an identity is what a withdrawal under it
/// returns, once.
pub proof fn lemma_registered_then_withdrawn<I, V>(held: Map<I, V>, id: I, value: V)
    requires
        !held.dom().contains(id),
    ensures
        withdrawn(held.insert(id, value), id) == Some(value),
        held.insert(id, value).remove(id) == held,
{
    assert(held.insert(id, value).remove(id) =~= held);
}

/// A sweep evicts the entries it finds dead and no others.
pub proof fn lemma_swept<I, V>(held: Map<I, V>, ids: Seq<I>, live: Seq<bool>, i: int)
    requires
        0 <= i < ids.len(),
    ensures
        held.remove_keys(doomed(ids, live)).submap_of(held),
        i < live.len() && !live[i] ==> !held.remove_keys(doomed(ids, live)).dom().contains(ids[i]),
        ids.no_duplicates() && !(i < live.len() && !live[i]) ==> withdrawn(
            held.remove_keys(doomed(ids, live)),
            ids[i],
        ) == withdrawn(held, ids[i]),
{
    if i < live.len() && !live[i] {
        assert(doomed(ids, live).contains(ids[i]));
    }
    if ids.no_duplicates() && !(i < live.len() && !live[i]) {
        if doomed(ids, live).contains(ids[i]) {
            let j = choose|j: int|
                0 <= j < ids.len() && j < live.len() && !live[j] && ids[j] == ids[i];
            assert(j == i);
        }
    }
}

spec fn entry_id<K: Key, V>() -> spec_fn(Entry<K, V>) -> K::V {
    |entry: Entry<K, V>| entry.id@
}

spec fn entry_value<K: Key, V>() -> spec_fn(Entry<K, V>) -> V {
    |entry: Entry<K, V>| entry.value
}

spec fn holds<K: Key, V>(entries: Seq<Entry<K, V>>, id: K::V) -> bool {
    keyed::holds(entries, entry_id(), id)
}

spec fn place<K: Key, V>(entries: Seq<Entry<K, V>>, id: K::V) -> int {
    keyed::place(entries, entry_id(), id)
}

spec fn distinct<K: Key, V>(entries: Seq<Entry<K, V>>) -> bool {
    keyed::distinct(entries, entry_id())
}

spec fn held<K: Key, V>(entries: Seq<Entry<K, V>>) -> Map<K::V, V> {
    keyed::table(entries, entry_id(), entry_value())
}

spec fn ids_of<K: Key, V>(entries: Seq<Entry<K, V>>) -> Seq<K::V> {
    Seq::new(entries.len(), |i: int| entries[i].id@)
}

proof fn lemma_held_at<K: Key, V>(entries: Seq<Entry<K, V>>, i: int)
    requires
        distinct(entries),
        0 <= i < entries.len(),
    ensures
        holds(entries, entries[i].id@),
        place(entries, entries[i].id@) == i,
        held(entries)[entries[i].id@] == entries[i].value,
{
    keyed::lemma_at(entries, entry_id(), entry_value(), i);
}

proof fn lemma_held_push<K: Key, V>(entries: Seq<Entry<K, V>>, entry: Entry<K, V>)
    requires
        distinct(entries),
        !holds(entries, entry.id@),
    ensures
        distinct(entries.push(entry)),
        held(entries.push(entry)) == held(entries).insert(entry.id@, entry.value),
{
    keyed::lemma_push(entries, entry_id(), entry_value(), entry);
}

proof fn lemma_held_remove<K: Key, V>(entries: Seq<Entry<K, V>>, i: int)
    requires
        distinct(entries),
        0 <= i < entries.len(),
    ensures
        distinct(entries.remove(i)),
        held(entries.remove(i)) == held(entries).remove(entries[i].id@),
{
    keyed::lemma_remove(entries, entry_id(), entry_value(), i);
}

proof fn lemma_held_sweep<K: Key, V>(entries: Seq<Entry<K, V>>, live: Seq<bool>)
    requires
        distinct(entries),
    ensures
        distinct(kept(entries, live)),
        forall|id: K::V| holds(kept(entries, live), id) ==> holds(entries, id),
        ids_of(kept(entries, live)) == kept(ids_of(entries), live),
        held(kept(entries, live)) == held(entries).remove_keys(doomed(ids_of(entries), live)),
    decreases entries.len(),
{
    let ids = ids_of(entries);
    if entries.len() == 0 {
        assert(ids_of(kept(entries, live)) =~= kept(ids, live));
        assert(held(kept(entries, live)) =~= held(entries).remove_keys(doomed(ids, live)));
    } else {
        let n = entries.len() as int;
        let rest = entries.drop_last();
        let last = entries.last();
        assert(entries == rest.push(last));
        assert(distinct(rest)) by {
            assert forall|a: int, b: int| 0 <= a < b < rest.len() implies (#[trigger] rest[a]).id@
                != (#[trigger] rest[b]).id@ by {
                assert(entries[a].id@ != entries[b].id@);
            }
        }
        assert(!holds(rest, last.id@)) by {
            if holds(rest, last.id@) {
                let j = place(rest, last.id@);
                assert(entries[j].id@ != entries[n - 1].id@);
            }
        }
        lemma_held_sweep(rest, live);
        lemma_held_push(rest, last);
        assert(ids_of(rest) == ids.drop_last());
        assert(ids.last() == last.id@);
        let dead = n <= live.len() && !live[n - 1];
        let before = doomed(ids_of(rest), live);
        let after = doomed(ids, live);
        assert forall|id: K::V| after.contains(id) == (before.contains(id) || (dead && id
            == last.id@)) by {
            if after.contains(id) {
                let i = choose|i: int|
                    0 <= i < ids.len() && i < live.len() && !live[i] && ids[i] == id;
                if i < n - 1 {
                    assert(ids_of(rest)[i] == id);
                }
            }
            if before.contains(id) {
                let i = choose|i: int|
                    0 <= i < ids_of(rest).len() && i < live.len() && !live[i] && ids_of(rest)[i]
                        == id;
                assert(ids[i] == id);
            }
            if dead && id == last.id@ {
                assert(ids[n - 1] == id);
            }
        }
        assert(!before.contains(last.id@)) by {
            if before.contains(last.id@) {
                let i = choose|i: int|
                    0 <= i < ids_of(rest).len() && i < live.len() && !live[i] && ids_of(rest)[i]
                        == last.id@;
                assert(rest[i].id@ == last.id@);
            }
        }
        if dead {
            assert(kept(entries, live) == kept(rest, live));
            assert(kept(ids, live) == kept(ids.drop_last(), live));
            assert(held(kept(entries, live)) =~= held(entries).remove_keys(after));
        } else {
            assert(kept(entries, live) == kept(rest, live).push(last));
            assert(kept(ids, live) == kept(ids.drop_last(), live).push(ids.last()));
            lemma_held_push(kept(rest, live), last);
            assert(ids_of(kept(rest, live).push(last)) =~= ids_of(kept(rest, live)).push(last.id@));
            assert(held(kept(entries, live)) =~= held(entries).remove_keys(after));
        }
        assert forall|id: K::V| holds(kept(entries, live), id) implies holds(entries, id) by {
            let j = place(kept(entries, live), id);
            assert(kept(entries, live)[j].id@ == id);
            if j < kept(rest, live).len() {
                assert(kept(rest, live)[j].id@ == id);
                assert(holds(kept(rest, live), id));
                assert(holds(rest, id));
                let m = place(rest, id);
                assert(rest[m].id@ == id);
                assert(entries[m].id@ == id);
            } else {
                assert(!dead);
                assert(entries[n - 1].id@ == id);
            }
        }
    }
}

/// The registry of dispatched work, generic in the identities `K` and the
/// values `V` held.
pub struct Ongoing<K, V> {
    entries: VecDeque<Entry<K, V>>,
}

impl<K: Key, V> View for Ongoing<K, V> {
    type V = Map<K::V, V>;

    closed spec fn view(&self) -> Map<K::V, V> {
        held(self.entries@)
    }
}

impl<K: Key, V> Ongoing<K, V> {
    /// The invariant of the representation: no identity is held twice.
    /// Every operation keeps it.
    pub closed spec fn wf(&self) -> bool {
        distinct(self.entries@)
    }

    /// The identities held, in order of registration. A sweep visits the
    /// entries in this order.
    pub closed spec fn ids(&self) -> Seq<K::V> {
        ids_of(self.entries@)
    }

    /// The identities listed are those held, each once.
    pub proof fn lemma_ids(&self)
        requires
            self.wf(),
        ensures
            self.ids().no_duplicates(),
            forall|id: K::V| self.ids().contains(id) <==> self@.dom().contains(id),
    {
        assert forall|i: int, j: int|
            0 <= i < self.ids().len() && 0 <= j < self.ids().len() && i != j implies self.ids()[i]
            != self.ids()[j] by {
            if i < j {
                assert(self.entries@[i].id@ != self.entries@[j].id@);
            } else {
                assert(self.entries@[j].id@ != self.entries@[i].id@);
            }
        }
        assert forall|id: K::V| self.ids().contains(id) <==> self@.dom().contains(id) by {
            if self.ids().contains(id) {
                let i = choose|i: int| 0 <= i < self.ids().len() && self.ids()[i] == id;
                assert(self.entries@[i].id@ == id);
            }
            if self@.dom().contains(id) {
                let i = place(self.entries@, id);
                assert(self.ids()[i] == id);
            }
        }
    }

    /// A registry that holds nothing.
    pub fn new() -> (r: Ongoing<K, V>)
        ensures
            r.wf(),
            r@ == Map::<K::V, V>::empty(),
            r.ids() == Seq::<K::V>::empty(),
    {
        let r = Ongoing { entries: VecDeque::new() };
        proof {
            assert(r@ =~= Map::<K::V, V>::empty());
            assert(r.ids() =~= Seq::<K::V>::empty());
        }
        r
    }

    fn find(&self, id: &K) -> (r: Option<usize>)
        ensures
            match r {
                Some(i) => i < self.entries@.len() && self.entries@[i as int].id@ == id@,
                None => !holds(self.entries@, id@),
            },
    {
        let mut i: usize = 0;
        while i < self.entries.len()
            invariant
                i <= self.entries@.len(),
                forall|j: int| 0 <= j < i ==> (#[trigger] self.entries@[j]).id@ != id@,
            decreases self.entries@.len() - i,
        {
            if self.entries[i].id.same(id) {
                return Some(i);
            }
            i += 1;
        }
        None
    }

    /// The number of entries held.
    pub fn len(&self) -> (n: usize)
        ensures
            n == self.ids().len(),
    {
        self.entries.len()
    }

    /// Whether something is held under `id`.
    pub fn contains(&self, id: &K) -> (b: bool)
        requires
            self.wf(),
        ensures
            b == self@.dom().contains(id@),
    {
        self.find(id).is_some()
    }

    /// Registers `value` under `id`, which must not be held already.
    pub fn add(&mut self, id: K, value: V)
        requires
            old(self).wf(),
            !old(self)@.dom().contains(id@),
        ensures
            final(self).wf(),
            final(self)@ == old(self)@.insert(id@, value),
            final(self).ids() == old(self).ids().push(id@),
    {
        let entry = Entry { id, value };
        proof {
            lemma_held_push(self.entries@, entry);
        }
        self.entries.push_back(entry);
        proof {
            assert(self.ids() =~= old(self).ids().push(id@));
        }
    }

    /// Withdraws what is held under `id`. An identity that is not held, or
    /// no longer, gives `None` and changes nothing.
    pub fn remove(&mut self, id: &K) -> (r: Option<V>)
        requires
            old(self).wf(),
        ensures
            final(self).wf(),
            final(self)@ == old(self)@.remove(id@),
            !final(self)@.dom().contains(id@),
            r == withdrawn(old(self)@, id@),
    {
        match self.find(id) {
            Some(i) => {
                proof {
                    lemma_held_at(self.entries@, i as int);
                    lemma_held_remove(self.entries@, i as int);
                }
                let entry = self.entries.remove(i).unwrap();
                Some(entry.value)
            },
            None => {
                proof {
                    assert(self@ =~= old(self)@.remove(id@));
                }
                None
            },
        }
    }

    /// Sweeps the registry with the verdicts `live`, given in the order of
    /// `ids`: an entry whose verdict is `false` is evicted, the others stay
    /// in their order.
    pub fn sweep(&mut self, live: &Vec<bool>)
        requires
            old(self).wf(),
        ensures
            final(self).wf(),
            final(self)@ == old(self)@.remove_keys(doomed(old(self).ids(), live@)),
            final(self).ids() == kept(old(self).ids(), live@),
    {
        proof {
            lemma_held_sweep(self.entries@, live@);
        }
        sift(&mut self.entries, live);
    }

    /// Asks each entry, in the order of `ids`, whether it is still
    /// listened for. The verdicts are the answers of the values held.
    pub fn liveness(&self) -> (live: Vec<bool>) where V: IsValid
        ensures
            live@.len() == self.ids().len(),
            self.wf() ==> answered(self@, self.ids(), live@),
    {
        let live = probe(&self.entries);
        proof {
            if self.wf() {
                assert forall|i: int| 0 <= i < self.ids().len() implies answers(
                    self@[self.ids()[i]],
                    #[trigger] live@[i],
                ) by {
                    lemma_held_at(self.entries@, i);
                    assert(answers(self.entries@[i], live@[i]));
                }
            }
        }
        live
    }

    /// One pass of the sweep: each entry is asked whether it is still
    /// listened for, and the registry is swept with the answers. What the
    /// values answer is theirs to say, so the contract speaks of the
    /// verdicts there were: one for each entry, each the answer of the
    /// value held, and what is left is what `sweep` leaves for them.
    pub fn garbage_collect(&mut self) where V: IsValid
        requires
            old(self).wf(),
        ensures
            final(self).wf(),
            final(self)@.submap_of(old(self)@),
            exists|live: Seq<bool>|
                {
                    &&& #[trigger] answered(old(self)@, old(self).ids(), live)
                    &&& final(self)@ == old(self)@.remove_keys(doomed(old(self).ids(), live))
                    &&& final(self).ids() == kept(old(self).ids(), live)
                },
    {
        let live = self.liveness();
        self.sweep(&live);
        proof {
            assert(answered(old(self)@, old(self).ids(), live@));
        }
    }
}

} // verus!
