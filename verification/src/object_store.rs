//! A store of objects under handles that are never handed out twice.
use vstd::prelude::*;

verus! {

/// The handle of a stored object.
#[derive(Clone, Copy, Debug, PartialEq, Eq, Structural, PartialOrd, Ord)]
pub struct GdkObjectHandle(u32);

impl GdkObjectHandle {
    /// The number behind the handle.
    pub closed spec fn id(self) -> u32 {
        self.0
    }
}

/// Objects under handles, each handle numbered one above the one before.
pub struct GdkObjectStore<T> {
    objects: Vec<(u32, T)>,
    next_id: u32,
}

/// The objects of a list of numbered pairs, by number.
pub open spec fn numbered<T>(objects: Seq<(u32, T)>) -> Map<u32, T> {
    Map::new(
        |id: u32| exists|i: int| 0 <= i < objects.len() && #[trigger] objects[i].0 == id,
        |id: u32| objects[choose|i: int| 0 <= i < objects.len() && #[trigger] objects[i].0 == id].1,
    )
}

/// The numbers of the pairs ascend strictly.
pub open spec fn ascending<T>(objects: Seq<(u32, T)>) -> bool {
    forall|i: int, j: int|
        0 <= i < j < objects.len() ==> #[trigger] objects[i].0 < #[trigger] objects[j].0
}

/// In an ascending list, the pair at `i` is what the list holds under its number.
proof fn lemma_numbered_at<T>(objects: Seq<(u32, T)>, i: int)
    requires
        ascending(objects),
        0 <= i < objects.len(),
    ensures
        numbered(objects).contains_key(objects[i].0),
        numbered(objects)[objects[i].0] == objects[i].1,
{
    let id = objects[i].0;
    let j = choose|j: int| 0 <= j < objects.len() && #[trigger] objects[j].0 == id;
    if j < i {
        assert(objects[j].0 < objects[i].0);
    } else if j > i {
        assert(objects[i].0 < objects[j].0);
    }
}

/// Replacing the object of the pair at `i` replaces it under its number.
proof fn lemma_numbered_update<T>(objects: Seq<(u32, T)>, i: int, item: T)
    requires
        ascending(objects),
        0 <= i < objects.len(),
    ensures
        ascending(objects.update(i, (objects[i].0, item))),
        numbered(objects.update(i, (objects[i].0, item))) == numbered(objects).insert(
            objects[i].0,
            item,
        ),
{
    let updated = objects.update(i, (objects[i].0, item));
    assert forall|a: int, b: int| 0 <= a < b < updated.len() implies #[trigger] updated[a].0
        < #[trigger] updated[b].0 by {
        assert(objects[a].0 < objects[b].0);
    }
    lemma_numbered_at(objects, i);
    assert forall|id: u32| #[trigger] numbered(updated).contains_key(id) == numbered(objects).insert(
        objects[i].0,
        item,
    ).contains_key(id) by {
        if numbered(objects).contains_key(id) {
            let j = choose|j: int| 0 <= j < objects.len() && #[trigger] objects[j].0 == id;
            assert(updated[j].0 == id);
        }
        if numbered(updated).contains_key(id) {
            let j = choose|j: int| 0 <= j < updated.len() && #[trigger] updated[j].0 == id;
            assert(objects[j].0 == id);
        }
    }
    assert forall|id: u32| numbered(updated).contains_key(id) implies numbered(updated)[id]
        == numbered(objects).insert(objects[i].0, item)[id] by {
        let j = choose|j: int| 0 <= j < updated.len() && #[trigger] updated[j].0 == id;
        lemma_numbered_at(updated, j);
        if j != i {
            lemma_numbered_at(objects, j);
        }
    }
    assert(numbered(updated) =~= numbered(objects).insert(objects[i].0, item));
}

/// Appending a pair numbered above all others adds its object under its number.
proof fn lemma_numbered_push<T>(objects: Seq<(u32, T)>, id: u32, item: T)
    requires
        ascending(objects),
        forall|i: int| 0 <= i < objects.len() ==> #[trigger] objects[i].0 < id,
    ensures
        ascending(objects.push((id, item))),
        !numbered(objects).contains_key(id),
        numbered(objects.push((id, item))) == numbered(objects).insert(id, item),
{
    let pushed = objects.push((id, item));
    assert forall|a: int, b: int| 0 <= a < b < pushed.len() implies #[trigger] pushed[a].0
        < #[trigger] pushed[b].0 by {
        if b < objects.len() {
            assert(objects[a].0 < objects[b].0);
        } else {
            assert(objects[a].0 < id);
        }
    }
    if numbered(objects).contains_key(id) {
        let j = choose|j: int| 0 <= j < objects.len() && #[trigger] objects[j].0 == id;
        assert(objects[j].0 < id);
    }
    assert forall|k: u32| #[trigger] numbered(pushed).contains_key(k) == numbered(objects).insert(
        id,
        item,
    ).contains_key(k) by {
        if numbered(objects).contains_key(k) {
            let j = choose|j: int| 0 <= j < objects.len() && #[trigger] objects[j].0 == k;
            assert(pushed[j].0 == k);
        }
        if numbered(pushed).contains_key(k) {
            let j = choose|j: int| 0 <= j < pushed.len() && #[trigger] pushed[j].0 == k;
            if j < objects.len() {
                assert(objects[j].0 == k);
            }
        }
        if k == id {
            assert(pushed[objects.len() as int].0 == id);
        }
    }
    assert forall|k: u32| numbered(pushed).contains_key(k) implies numbered(pushed)[k]
        == numbered(objects).insert(id, item)[k] by {
        let j = choose|j: int| 0 <= j < pushed.len() && #[trigger] pushed[j].0 == k;
        lemma_numbered_at(pushed, j);
        if j < objects.len() {
            lemma_numbered_at(objects, j);
        }
    }
    assert(numbered(pushed) =~= numbered(objects).insert(id, item));
}

/// Removing the pair at `i` removes its object under its number.
proof fn lemma_numbered_remove<T>(objects: Seq<(u32, T)>, i: int)
    requires
        ascending(objects),
        0 <= i < objects.len(),
    ensures
        ascending(objects.remove(i)),
        numbered(objects.remove(i)) == numbered(objects).remove(objects[i].0),
{
    let removed = objects.remove(i);
    let id = objects[i].0;
    assert forall|a: int, b: int| 0 <= a < b < removed.len() implies #[trigger] removed[a].0
        < #[trigger] removed[b].0 by {
        let a2 = if a < i { a } else { a + 1 };
        let b2 = if b < i { b } else { b + 1 };
        assert(removed[a] == objects[a2]);
        assert(removed[b] == objects[b2]);
        assert(objects[a2].0 < objects[b2].0);
    }
    assert forall|k: u32| #[trigger] numbered(removed).contains_key(k) == numbered(objects).remove(
        id,
    ).contains_key(k) by {
        if numbered(objects).contains_key(k) && k != id {
            let j = choose|j: int| 0 <= j < objects.len() && #[trigger] objects[j].0 == k;
            let j2 = if j < i { j } else { j - 1 };
            assert(j != i);
            assert(removed[j2] == objects[j]);
        }
        if numbered(removed).contains_key(k) {
            let j = choose|j: int| 0 <= j < removed.len() && #[trigger] removed[j].0 == k;
            let j2 = if j < i { j } else { j + 1 };
            assert(removed[j] == objects[j2]);
            assert(objects[j2].0 == k);
            if j2 < i {
                assert(objects[j2].0 < objects[i].0);
            } else {
                assert(objects[i].0 < objects[j2].0);
            }
        }
    }
    assert forall|k: u32| numbered(removed).contains_key(k) implies numbered(removed)[k]
        == numbered(objects).remove(id)[k] by {
        let j = choose|j: int| 0 <= j < removed.len() && #[trigger] removed[j].0 == k;
        let j2 = if j < i { j } else { j + 1 };
        assert(removed[j] == objects[j2]);
        lemma_numbered_at(removed, j);
        lemma_numbered_at(objects, j2);
    }
    assert(numbered(removed) =~= numbered(objects).remove(id));
}

impl<T> GdkObjectStore<T> {
    /// The stored objects by the number of their handle.
    pub closed spec fn view(self) -> Map<u32, T> {
        numbered(self.objects@)
    }

    /// The number the next handle gets.
    pub closed spec fn next_handle(self) -> u32 {
        self.next_id
    }

    /// The objects are kept in ascending order of their handles, all below the next one.
    pub closed spec fn wf(self) -> bool {
        &&& ascending(self.objects@)
        &&& forall|i: int| 0 <= i < self.objects@.len() ==> #[trigger] self.objects@[i].0 < self.next_id
    }

    /// The handles this store has handed out: all those below the next handle.
    pub open spec fn handed_out(self) -> Set<u32> {
        Set::new(|id: u32| id < self.next_handle())
    }

    /// Every stored object's handle is below the next handle. Since [`GdkObjectStore::insert`]
    /// hands out exactly the next handle and every operation leaves the next handle where it was
    /// or raises it, a handle that was handed out, whether its object is still stored or was
    /// removed, is never handed out again.
    pub proof fn lemma_stored_below_next(self)
        requires
            self.wf(),
        ensures
            forall|id: u32| #[trigger] self@.contains_key(id) ==> id < self.next_handle(),
    {
        assert forall|id: u32| #[trigger] self@.contains_key(id) implies id < self.next_handle() by {
            let i = choose|i: int| 0 <= i < self.objects@.len() && #[trigger] self.objects@[i].0 == id;
        }
    }

    /// An empty store whose first handle is numbered 0.
    pub fn new() -> (r: GdkObjectStore<T>)
        ensures
            r.wf(),
            r@ == Map::<u32, T>::empty(),
            r.next_handle() == 0,
            r.handed_out() == Set::<u32>::empty(),
    {
        let r = GdkObjectStore { objects: Vec::new(), next_id: 0 };
        assert(r@ =~= Map::<u32, T>::empty());
        assert(r.handed_out() =~= Set::<u32>::empty());
        r
    }

    /// The position of the object under `id`, if any.
    fn position_of(&self, id: u32) -> (r: Option<usize>)
        requires
            self.wf(),
        ensures
            match r {
                Some(i) => i < self.objects@.len() && self.objects@[i as int].0 == id,
                None => !self@.contains_key(id),
            },
    {
        let mut i: usize = 0;
        while i < self.objects.len()
            invariant
                i <= self.objects@.len(),
                forall|j: int| 0 <= j < i ==> #[trigger] self.objects@[j].0 != id,
            decreases self.objects@.len() - i,
        {
            if self.objects[i].0 == id {
                return Some(i);
            }
            i += 1;
        }
        None
    }

    /// A handle that was never handed out before.
    fn new_unique_handle(&mut self) -> (h: GdkObjectHandle)
        requires
            old(self).next_handle() < u32::MAX,
        ensures
            h.id() == old(self).next_handle(),
            final(self).next_handle() == old(self).next_handle() + 1,
            final(self).objects == old(self).objects,
    {
        let handle = GdkObjectHandle(self.next_id);
        self.next_id = self.next_id + 1;
        handle
    }

    /// Stores an object under a new handle and hands back the handle and the stored object.
    pub fn insert(&mut self, item: T) -> ((handle, stored): (GdkObjectHandle, &mut T))
        requires
            old(self).wf(),
            old(self).next_handle() < u32::MAX,
        ensures
            final(self).wf(),
            handle.id() == old(self).next_handle(),
            !old(self)@.contains_key(handle.id()),
            *stored == item,
            final(self)@ == old(self)@.insert(handle.id(), *final(stored)),
            final(self).next_handle() == old(self).next_handle() + 1,
            !old(self).handed_out().contains(handle.id()),
            final(self).handed_out() == old(self).handed_out().insert(handle.id()),
    {
        let handle = self.new_unique_handle();
        proof {
            assert(self.handed_out() =~= old(self).handed_out().insert(handle.id()));
        }
        let ghost objects = self.objects@;
        proof {
            lemma_numbered_push(objects, handle.0, item);
        }
        self.objects.push((handle.0, item));
        let last = self.objects.len() - 1;
        let ghost pushed = self.objects@;
        let stored = &mut self.objects[last].1;
        proof {
            assert(pushed =~= objects.push((handle.0, item)));
            lemma_numbered_update(pushed, last as int, *final(stored));
            assert(pushed.update(last as int, (handle.0, *final(stored))) =~= objects.push(
                (handle.0, *final(stored)),
            ));
            lemma_numbered_push(objects, handle.0, *final(stored));
        }
        (handle, stored)
    }

    /// Removes the object under the handle, if there is one.
    pub fn remove(&mut self, handle: GdkObjectHandle)
        requires
            old(self).wf(),
        ensures
            final(self).wf(),
            final(self)@ == old(self)@.remove(handle.id()),
            final(self).next_handle() == old(self).next_handle(),
            final(self).handed_out() == old(self).handed_out(),
    {
        match self.position_of(handle.0) {
            Some(i) => {
                proof {
                    lemma_numbered_remove(self.objects@, i as int);
                }
                self.objects.remove(i);
            },
            None => {
                proof {
                    assert(self@.remove(handle.id()) =~= self@);
                }
            },
        }
    }

    /// The object under the handle, to change it in place.
    pub fn get_mut(&mut self, handle: &GdkObjectHandle) -> (r: Option<&mut T>)
        requires
            old(self).wf(),
        ensures
            final(self).wf(),
            final(self).next_handle() == old(self).next_handle(),
            final(self).handed_out() == old(self).handed_out(),
            match r {
                Some(item) => old(self)@.contains_key(handle.id()) && *item == old(self)@[handle.id()]
                    && final(self)@ == old(self)@.insert(handle.id(), *final(item)),
                None => !old(self)@.contains_key(handle.id()) && *final(self) == *old(self),
            },
    {
        match self.position_of(handle.0) {
            Some(i) => {
                proof {
                    lemma_numbered_at(self.objects@, i as int);
                }
                let ghost objects = self.objects@;
                let item = &mut self.objects[i].1;
                proof {
                    lemma_numbered_update(objects, i as int, *final(item));
                }
                Some(item)
            },
            None => None,
        }
    }
}


/// Storing an object and removing it again leaves the store's objects as they were; the handle it
/// had is never handed out again, since the next handle only grows.
pub proof fn lemma_insert_then_remove<T>(objects: Map<u32, T>, id: u32, item: T)
    requires
        !objects.contains_key(id),
    ensures
        objects.insert(id, item).remove(id) == objects,
{
    assert(objects.insert(id, item).remove(id) =~= objects);
}

/// Whether `after` is what one call makes of `before`, as far as the handles handed out go: an
/// [`GdkObjectStore::insert`] that handed out `Some(h)`, or a [`GdkObjectStore::remove`] or
/// [`GdkObjectStore::get_mut`] (`None`), as their contracts say.
pub open spec fn handed_out_step<T>(
    before: GdkObjectStore<T>,
    after: GdkObjectStore<T>,
    handle: Option<u32>,
) -> bool {
    match handle {
        Some(h) => !before.handed_out().contains(h) && after.handed_out() == before.handed_out().insert(h),
        None => after.handed_out() == before.handed_out(),
    }
}

/// A handle handed out by one call of a run is among those handed out before every later call.
proof fn lemma_handed_out_kept<T>(
    stores: Seq<GdkObjectStore<T>>,
    handles: Seq<Option<u32>>,
    a: int,
    b: int,
)
    requires
        stores.len() == handles.len() + 1,
        forall|k: int| 0 <= k < handles.len() ==> handed_out_step(stores[k], stores[k + 1], #[trigger] handles[k]),
        0 <= a < b <= handles.len(),
        handles[a] is Some,
    ensures
        stores[b].handed_out().contains(handles[a]->0),
    decreases b - a,
{
    assert(handed_out_step(stores[b - 1], stores[b], handles[b - 1]));
    if a + 1 < b {
        lemma_handed_out_kept(stores, handles, a, b - 1);
    }
}

/// Over any run of inserts, removes and lookups on a store, no handle is handed out twice,
/// whether its object was removed in between or not, and every handle handed out stays among
/// those handed out. Here `stores[k + 1]` is the store after the `k`-th call and `handles[k]` the
/// handle that call handed out, if it was an insert.
pub proof fn lemma_run_never_reuses_handles<T>(
    stores: Seq<GdkObjectStore<T>>,
    handles: Seq<Option<u32>>,
)
    requires
        stores.len() == handles.len() + 1,
        forall|k: int| 0 <= k < handles.len() ==> handed_out_step(stores[k], stores[k + 1], #[trigger] handles[k]),
    ensures
        forall|a: int, b: int|
            0 <= a < b < handles.len() && (#[trigger] handles[a]) is Some && (#[trigger] handles[b]) is Some
                ==> handles[a] != handles[b],
        forall|a: int|
            0 <= a < handles.len() && (#[trigger] handles[a]) is Some ==> stores.last().handed_out().contains(
                handles[a]->0,
            ),
{
    assert forall|a: int, b: int|
        0 <= a < b < handles.len() && (#[trigger] handles[a]) is Some && (#[trigger] handles[b]) is Some
            implies handles[a] != handles[b] by {
        lemma_handed_out_kept(stores, handles, a, b);
        assert(handed_out_step(stores[b], stores[b + 1], handles[b]));
    }
    assert forall|a: int| 0 <= a < handles.len() && (#[trigger] handles[a]) is Some implies stores.last().handed_out().contains(
        handles[a]->0,
    ) by {
        lemma_handed_out_kept(stores, handles, a, handles.len() as int);
    }
}

} // verus!
