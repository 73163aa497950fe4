//! The objects one connection holds: allocation under client-chosen identifiers, lookup, and
//! the order they were created in, which is the order they are torn down against.

use vstd::prelude::*;

use crate::compositor::error::{client_allocatable, ObjectId, StateError, DISPLAY_OBJECT};
use crate::model::ObjectKind;
use crate::compositor::state::count_kind;

verus! {

/// No identifier is held by two live objects.
pub open spec fn ids_distinct(entries: Seq<(ObjectId, ObjectKind)>) -> bool {
    forall|i: int, j: int| 0 <= i < j < entries.len() ==> #[trigger] entries[i].0 != #[trigger] entries[j].0
}

/// Whether a live object holds `id`.
pub open spec fn holds(entries: Seq<(ObjectId, ObjectKind)>, id: ObjectId) -> bool {
    exists|i: int| 0 <= i < entries.len() && #[trigger] entries[i].0 == id
}

/// Where the object holding `id` stands in creation order.
pub open spec fn position_of(entries: Seq<(ObjectId, ObjectKind)>, id: ObjectId) -> int {
    choose|i: int| 0 <= i < entries.len() && #[trigger] entries[i].0 == id
}

/// The kind of the live object holding `id`, if any does.
pub open spec fn kind_in(entries: Seq<(ObjectId, ObjectKind)>, id: ObjectId) -> Option<ObjectKind> {
    if holds(entries, id) {
        Some(entries[position_of(entries, id)].1)
    } else {
        None
    }
}

/// `later` lists `earlier` newest first.
pub open spec fn newest_first(
    later: Seq<(ObjectId, ObjectKind)>,
    earlier: Seq<(ObjectId, ObjectKind)>,
) -> bool {
    &&& later.len() == earlier.len()
    &&& forall|i: int| 0 <= i < later.len() ==> #[trigger] later[i] == earlier[earlier.len() - 1 - i]
}

/// What closing a connection destroyed.
#[derive(Clone, Debug, Default, PartialEq, Eq)]
pub struct Teardown {
    /// Objects destroyed from newest to oldest, including protocol singletons.
    pub destroyed: Vec<(ObjectId, ObjectKind)>,
}

/// Per-connection object allocation, lookup, and creation-order tracking.
#[derive(Clone, Debug)]
pub struct ObjectRegistry<T> {
    /// Live objects, oldest first.
    live: Vec<(ObjectId, ObjectKind, T)>,
    /// Identifiers taken and not yet retired; a destroyed object's stays here until then.
    used: Vec<ObjectId>,
}

impl<T> ObjectRegistry<T> {
    /// The live objects as (identifier, kind), oldest first.
    pub closed spec fn entries(&self) -> Seq<(ObjectId, ObjectKind)> {
        self.live@.map_values(|entry: (ObjectId, ObjectKind, T)| (entry.0, entry.1))
    }

    /// The values the live objects carry, in the same order as [`ObjectRegistry::entries`].
    pub closed spec fn values(&self) -> Seq<T> {
        self.live@.map_values(|entry: (ObjectId, ObjectKind, T)| entry.2)
    }

    /// The identifiers a new object may not take.
    pub closed spec fn used(&self) -> Set<ObjectId> {
        self.used@.to_set()
    }

    /// Live identifiers are distinct, and every one is taken.
    pub closed spec fn wf(&self) -> bool {
        &&& ids_distinct(self.entries())
        &&& forall|i: int| 0 <= i < self.live@.len() ==> self.used@.contains(#[trigger] self.live@[i].0)
    }

    /// Live identifiers of a well-formed registry are distinct, and each is taken.
    pub proof fn lemma_wf(&self)
        requires
            self.wf(),
        ensures
            ids_distinct(self.entries()),
            self.entries().len() == self.values().len(),
            forall|i: int| 0 <= i < self.entries().len() ==> self.used().contains(#[trigger] self.entries()[i].0),
    {
        assert forall|i: int| 0 <= i < self.entries().len() implies self.used().contains(
            #[trigger] self.entries()[i].0,
        ) by {
            assert(self.entries()[i].0 == self.live@[i].0);
        }
    }

    /// A registry holding only the display object, which every connection starts with.
    pub fn new(display: T) -> (registry: ObjectRegistry<T>)
        ensures
            registry.wf(),
            registry.entries() == seq![(ObjectId(DISPLAY_OBJECT), ObjectKind::Display)],
            registry.values() == seq![display],
            registry.used() == set![ObjectId(DISPLAY_OBJECT)],
    {
        let registry = ObjectRegistry {
            live: vec![(ObjectId(DISPLAY_OBJECT), ObjectKind::Display, display)],
            used: vec![ObjectId(DISPLAY_OBJECT)],
        };
        proof {
            assert(registry.entries() =~= seq![(ObjectId(DISPLAY_OBJECT), ObjectKind::Display)]);
            assert(registry.values() =~= seq![display]);
            assert(registry.used@ =~= seq![ObjectId(DISPLAY_OBJECT)]);
            assert(registry.used@.to_set() =~= set![ObjectId(DISPLAY_OBJECT)]) by {
                assert(registry.used@[0] == ObjectId(DISPLAY_OBJECT));
            }
            assert(registry.used@.contains(registry.live@[0].0)) by {
                assert(registry.used@[0] == registry.live@[0].0);
            }
        }
        registry
    }

    /// How many objects are live.
    pub fn len(&self) -> (count: usize)
        ensures
            count == self.entries().len(),
            count == self.values().len(),
    {
        self.live.len()
    }

    pub fn is_empty(&self) -> (empty: bool)
        ensures
            empty == (self.entries().len() == 0),
    {
        self.live.len() == 0
    }

    /// Where the object holding `id` stands, found by walking the live objects.
    fn find(&self, id: ObjectId) -> (found: Option<usize>)
        requires
            self.wf(),
        ensures
            match found {
                Some(k) => k < self.entries().len() && self.entries()[k as int].0 == id
                    && position_of(self.entries(), id) == k as int && holds(self.entries(), id),
                None => !holds(self.entries(), id),
            },
    {
        let mut k: usize = 0;
        while k < self.live.len()
            invariant
                self.wf(),
                k <= self.live@.len(),
                self.entries().len() == self.live@.len(),
                forall|i: int| 0 <= i < k ==> #[trigger] self.entries()[i].0 != id,
            decreases self.live@.len() - k,
        {
            proof {
                assert(self.entries()[k as int] == (self.live@[k as int].0, self.live@[k as int].1));
            }
            if self.live[k].0 == id {
                proof {
                    let entries = self.entries();
                    assert(entries[k as int].0 == id);
                    assert(holds(entries, id));
                    let p = position_of(entries, id);
                    if p != k as int {
                        assert(entries[p].0 == id);
                        if p < k {
                            assert(entries[p].0 != id);
                        } else {
                            assert(ids_distinct(entries));
                            assert(entries[k as int].0 != entries[p].0);
                        }
                    }
                }
                return Some(k);
            }
            k = k + 1;
        }
        None
    }

    /// Whether `id` is taken, live or awaiting retirement.
    fn is_used(&self, id: ObjectId) -> (taken: bool)
        ensures
            taken == self.used().contains(id),
    {
        let mut k: usize = 0;
        while k < self.used.len()
            invariant
                k <= self.used@.len(),
                forall|i: int| 0 <= i < k ==> self.used@[i] != id,
            decreases self.used@.len() - k,
        {
            if self.used[k] == id {
                proof {
                    assert(self.used@.contains(id));
                }
                return true;
            }
            k = k + 1;
        }
        false
    }

    /// The kind of a live object, or `None` when this registry does not hold it.
    pub fn kind_of(&self, id: ObjectId) -> (kind: Option<ObjectKind>)
        requires
            self.wf(),
        ensures
            kind == kind_in(self.entries(), id),
    {
        match self.find(id) {
            Some(k) => Some(self.live[k].1),
            None => None,
        }
    }

    /// The kind of a live object, or the error a request naming an absent one earns.
    pub fn kind(&self, id: ObjectId) -> (kind: Result<ObjectKind, StateError>)
        requires
            self.wf(),
        ensures
            match kind_in(self.entries(), id) {
                Some(k) => kind == Ok::<ObjectKind, StateError>(k),
                None => kind == Err::<ObjectKind, StateError>(
                    StateError::InvalidObject { object_id: id },
                ),
            },
    {
        match self.find(id) {
            Some(k) => Ok(self.live[k].1),
            None => Err(StateError::InvalidObject { object_id: id }),
        }
    }

    /// The value a live object carries.
    pub fn get(&self, id: ObjectId) -> (value: Option<&T>)
        requires
            self.wf(),
        ensures
            value.is_some() == holds(self.entries(), id),
            value matches Some(v) ==> *v == self.values()[position_of(self.entries(), id)],
    {
        match self.find(id) {
            Some(k) => Some(&self.live[k].2),
            None => None,
        }
    }

    /// Replace the value a live object carries. An identifier no live object holds changes
    /// nothing.
    pub fn set_value(&mut self, id: ObjectId, value: T)
        requires
            old(self).wf(),
        ensures
            final(self).wf(),
            final(self).entries() == old(self).entries(),
            final(self).used() == old(self).used(),
            holds(old(self).entries(), id) ==> final(self).values() == old(self).values().update(
                position_of(old(self).entries(), id),
                value,
            ),
            !holds(old(self).entries(), id) ==> final(self).values() == old(self).values(),
    {
        match self.find(id) {
            None => {},
            Some(k) => {
                let kind = self.live[k].1;
                let ghost before = self.entries();
                self.live.set(k, (id, kind, value));
                proof {
                    assert(self.entries() =~= before);
                    assert(self.values() =~= old(self).values().update(k as int, value));
                    assert forall|i: int| 0 <= i < self.live@.len() implies self.used@.contains(
                        #[trigger] self.live@[i].0,
                    ) by {
                        assert(self.live@[i].0 == old(self).live@[i].0);
                    }
                }
            },
        }
    }

    /// How many live objects are of `kind`.
    pub fn count_kind(&self, kind: ObjectKind) -> (count: usize)
        ensures
            count == count_kind(self.entries(), kind),
    {
        let mut count: usize = 0;
        let mut k: usize = 0;
        while k < self.live.len()
            invariant
                k <= self.live@.len(),
                count <= k,
                count == count_kind(self.entries().take(k as int), kind),
            decreases self.live@.len() - k,
        {
            proof {
                assert(self.entries().take(k + 1).drop_last() =~= self.entries().take(k as int));
                assert(self.entries().take(k + 1).last() == (self.live@[k as int].0, self.live@[k as int].1));
            }
            if self.live[k].1 == kind {
                count = count + 1;
            }
            k = k + 1;
        }
        proof {
            assert(self.entries().take(self.live@.len() as int) =~= self.entries());
        }
        count
    }

    /// The live object at position `i` in creation order.
    pub fn entry_at(&self, i: usize) -> (entry: (ObjectId, ObjectKind))
        requires
            i < self.entries().len(),
        ensures
            entry == self.entries()[i as int],
    {
        (self.live[i].0, self.live[i].1)
    }

    /// The value the live object at position `i` carries.
    pub fn value_at(&self, i: usize) -> (value: &T)
        requires
            i < self.entries().len(),
        ensures
            *value == self.values()[i as int],
    {
        &self.live[i].2
    }

    /// Replace the value the live object at position `i` carries.
    pub fn set_value_at(&mut self, i: usize, value: T)
        requires
            old(self).wf(),
            i < old(self).entries().len(),
        ensures
            final(self).wf(),
            final(self).entries() == old(self).entries(),
            final(self).used() == old(self).used(),
            final(self).values() == old(self).values().update(i as int, value),
    {
        let (id, kind) = (self.live[i].0, self.live[i].1);
        let ghost before = self.entries();
        self.live.set(i, (id, kind, value));
        proof {
            assert(self.entries() =~= before);
            assert(self.values() =~= old(self).values().update(i as int, value));
            assert forall|j: int| 0 <= j < self.live@.len() implies self.used@.contains(
                #[trigger] self.live@[j].0,
            ) by {
                assert(self.live@[j].0 == old(self).live@[j].0);
            }
        }
    }

    /// Create an object under an identifier the client chose.
    ///
    /// The null identifier and the display's are refused, and so is one that is taken: an
    /// identifier stays taken until it is retired, so a message already in flight cannot name
    /// a different object than the one its sender meant.
    pub fn allocate_client(&mut self, id: ObjectId, kind: ObjectKind, value: T) -> (result: Result<
        (),
        StateError,
    >)
        requires
            old(self).wf(),
        ensures
            final(self).wf(),
            !client_allocatable(id) ==> result == Err::<(), StateError>(
                StateError::InvalidObjectId { object_id: id },
            ),
            client_allocatable(id) && old(self).used().contains(id) ==> result == Err::<
                (),
                StateError,
            >(StateError::ObjectIdAlreadyUsed { object_id: id }),
            result is Err ==> final(self).entries() == old(self).entries() && final(self).used()
                == old(self).used() && final(self).values() == old(self).values(),
            result is Ok <==> client_allocatable(id) && !old(self).used().contains(id),
            result is Ok ==> final(self).entries() == old(self).entries().push((id, kind))
                && final(self).values() == old(self).values().push(value)
                && final(self).used() == old(self).used().insert(id),
    {
        if !id.is_client_allocatable() {
            return Err(StateError::InvalidObjectId { object_id: id });
        }
        if self.is_used(id) {
            return Err(StateError::ObjectIdAlreadyUsed { object_id: id });
        }
        let ghost before = self.entries();
        let ghost used_before = self.used@;
        proof {
            assert(!holds(before, id)) by {
                if holds(before, id) {
                    let i = choose|i: int| 0 <= i < before.len() && #[trigger] before[i].0 == id;
                    assert(self.live@[i].0 == before[i].0);
                    assert(self.used@.contains(self.live@[i].0));
                }
            }
        }
        self.used.push(id);
        self.live.push((id, kind, value));
        proof {
            assert(self.entries() =~= before.push((id, kind)));
            assert(self.values() =~= old(self).values().push(value));
            assert(self.used@.to_set() =~= used_before.to_set().insert(id)) by {
                assert(self.used@ == used_before.push(id));
                assert forall|x: ObjectId| self.used@.contains(x) <==> used_before.contains(x)
                    || x == id by {
                    if self.used@.contains(x) {
                        let i = choose|i: int| 0 <= i < self.used@.len() && self.used@[i] == x;
                        if i < used_before.len() {
                            assert(used_before[i] == x);
                        }
                    }
                    if used_before.contains(x) {
                        let i = choose|i: int| 0 <= i < used_before.len() && used_before[i] == x;
                        assert(self.used@[i] == x);
                    }
                    if x == id {
                        assert(self.used@[used_before.len() as int] == x);
                    }
                }
            }
            let entries = self.entries();
            assert forall|i: int, j: int| 0 <= i < j < entries.len() implies #[trigger] entries[i].0
                != #[trigger] entries[j].0 by {
                if j == before.len() {
                    assert(entries[i] == before[i]);
                } else {
                    assert(entries[i] == before[i] && entries[j] == before[j]);
                }
            }
            assert forall|i: int| 0 <= i < self.live@.len() implies self.used@.contains(
                #[trigger] self.live@[i].0,
            ) by {
                if i < before.len() {
                    let x = self.live@[i].0;
                    assert(old(self).live@[i].0 == x);
                    assert(used_before.contains(x));
                    let j = choose|j: int| 0 <= j < used_before.len() && used_before[j] == x;
                    assert(self.used@[j] == x);
                } else {
                    assert(self.used@[used_before.len() as int] == id);
                }
            }
        }
        Ok(())
    }

    /// Remove a live object and hand back what it was. Its identifier stays taken until
    /// [`ObjectRegistry::retire`].
    pub fn remove(&mut self, id: ObjectId) -> (removed: Option<(ObjectKind, T)>)
        requires
            old(self).wf(),
        ensures
            final(self).wf(),
            final(self).used() == old(self).used(),
            !holds(old(self).entries(), id) ==> removed is None && final(self).entries() == old(
                self,
            ).entries() && final(self).values() == old(self).values(),
            holds(old(self).entries(), id) ==> {
                let at = position_of(old(self).entries(), id);
                &&& removed matches Some(entry) && entry.0 == old(self).entries()[at].1 && entry.1
                    == old(self).values()[at]
                &&& final(self).entries() == old(self).entries().remove(at)
                &&& final(self).values() == old(self).values().remove(at)
            },
    {
        match self.find(id) {
            None => None,
            Some(k) => {
                let ghost before = self.entries();
                let entry = self.live.remove(k);
                proof {
                    assert(self.entries() =~= before.remove(k as int));
                    assert(self.values() =~= old(self).values().remove(k as int));
                    let entries = self.entries();
                    assert forall|i: int, j: int| 0 <= i < j < entries.len() implies #[trigger] entries[i].0
                        != #[trigger] entries[j].0 by {
                        let a = if i < k { i } else { i + 1 };
                        let b = if j < k { j } else { j + 1 };
                        assert(entries[i] == before[a] && entries[j] == before[b]);
                    }
                    assert forall|i: int| 0 <= i < self.live@.len() implies self.used@.contains(
                        #[trigger] self.live@[i].0,
                    ) by {
                        let a = if i < k { i } else { i + 1 };
                        assert(self.live@[i] == old(self).live@[a]);
                    }
                }
                Some((entry.1, entry.2))
            },
        }
    }

    /// Free an identifier whose destruction the client has been told of, so it may be used
    /// again. An identifier a live object still holds is not freed.
    pub fn retire(&mut self, id: ObjectId)
        requires
            old(self).wf(),
        ensures
            final(self).wf(),
            final(self).entries() == old(self).entries(),
            final(self).values() == old(self).values(),
            holds(old(self).entries(), id) ==> final(self).used() == old(self).used(),
            !holds(old(self).entries(), id) ==> final(self).used() == old(self).used().remove(id),
    {
        if self.find(id).is_some() {
            return;
        }
        let ghost before = self.used@;
        let mut kept: Vec<ObjectId> = Vec::new();
        let mut k: usize = 0;
        while k < self.used.len()
            invariant
                k <= self.used@.len(),
                self.used@ == before,
                forall|j: int|
                    0 <= j < kept@.len() ==> #[trigger] kept@[j] != id && exists|i: int|
                        0 <= i < k && before[i] == kept@[j],
                forall|i: int| 0 <= i < k && #[trigger] before[i] != id ==> kept@.contains(before[i]),
            decreases self.used@.len() - k,
        {
            let x = self.used[k];
            let ghost previous = kept@;
            if x != id {
                kept.push(x);
            }
            proof {
                assert forall|j: int| 0 <= j < kept@.len() implies #[trigger] kept@[j] != id
                    && exists|i: int| 0 <= i < k + 1 && before[i] == kept@[j] by {
                    if j < previous.len() {
                        assert(kept@[j] == previous[j]);
                        let i = choose|i: int| 0 <= i < k && before[i] == previous[j];
                        assert(before[i] == kept@[j]);
                    } else {
                        assert(before[k as int] == kept@[j]);
                    }
                }
                assert forall|i: int| 0 <= i < k + 1 && #[trigger] before[i] != id implies kept@.contains(
                    before[i],
                ) by {
                    if i < k {
                        let j = choose|j: int| 0 <= j < previous.len() && previous[j] == before[i];
                        assert(kept@[j] == before[i]);
                    } else {
                        assert(kept@[kept@.len() - 1] == before[i]);
                    }
                }
            }
            k = k + 1;
        }
        self.used = kept;
        proof {
            assert forall|x: ObjectId| self.used@.contains(x) <==> before.contains(x) && x != id by {
                if before.contains(x) && x != id {
                    let i = choose|i: int| 0 <= i < before.len() && before[i] == x;
                    assert(before[i] != id);
                }
                if self.used@.contains(x) {
                    let j = choose|j: int| 0 <= j < self.used@.len() && self.used@[j] == x;
                    assert(self.used@[j] != id);
                    let i = choose|i: int| 0 <= i < before.len() && before[i] == self.used@[j];
                    assert(before[i] == x);
                }
            }
            assert(self.used@.to_set() =~= before.to_set().remove(id));
            assert forall|i: int| 0 <= i < self.live@.len() implies self.used@.contains(
                #[trigger] self.live@[i].0,
            ) by {
                let x = self.live@[i].0;
                assert(before.contains(x));
                assert(self.entries()[i].0 == x);
            }
        }
    }

    /// The live identifiers, newest first.
    pub fn ids_reverse_creation(&self) -> (ids: Vec<ObjectId>)
        ensures
            ids@.len() == self.entries().len(),
            forall|i: int|
                0 <= i < ids@.len() ==> #[trigger] ids@[i] == self.entries()[self.entries().len() - 1
                    - i].0,
    {
        let mut ids: Vec<ObjectId> = Vec::new();
        let mut k: usize = self.live.len();
        while k > 0
            invariant
                k <= self.live@.len(),
                ids@.len() == self.live@.len() - k,
                self.entries().len() == self.live@.len(),
                forall|i: int|
                    0 <= i < ids@.len() ==> #[trigger] ids@[i] == self.entries()[self.entries().len()
                        - 1 - i].0,
            decreases k,
        {
            k = k - 1;
            proof {
                assert(self.entries()[k as int].0 == self.live@[k as int].0);
            }
            ids.push(self.live[k].0);
        }
        ids
    }

    /// Destroy every live object, newest first, and report what went. The identifiers stay
    /// taken: the connection they belonged to is gone.
    pub fn tear_down(&mut self) -> (teardown: Teardown)
        requires
            old(self).wf(),
        ensures
            final(self).wf(),
            final(self).entries().len() == 0,
            final(self).values().len() == 0,
            final(self).used() == old(self).used(),
            newest_first(teardown.destroyed@, old(self).entries()),
    {
        let ghost before = self.entries();
        let ghost count = before.len();
        let mut destroyed: Vec<(ObjectId, ObjectKind)> = Vec::new();
        while self.live.len() > 0
            invariant
                self.used@ == old(self).used@,
                before == old(self).entries(),
                count == before.len(),
                self.live@.len() + destroyed@.len() == count,
                self.live@ == old(self).live@.take(self.live@.len() as int),
                forall|i: int| 0 <= i < destroyed@.len() ==> #[trigger] destroyed@[i] == before[count - 1 - i],
            decreases self.live@.len(),
        {
            let ghost n = self.live@.len();
            let entry = self.live.pop().unwrap();
            proof {
                assert(entry == old(self).live@[n - 1]);
                assert(before[n - 1] == (entry.0, entry.1));
                assert(self.live@ =~= old(self).live@.take(n - 1));
            }
            destroyed.push((entry.0, entry.1));
        }
        proof {
            assert(self.entries() =~= Seq::<(ObjectId, ObjectKind)>::empty());
        }
        Teardown { destroyed }
    }
}

} // verus!
