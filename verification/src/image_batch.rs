use vstd::prelude::*;

use crate::batch::{
    accepts, buffer_growth, grown_capacity, swap_removed, BufferUpdate, SlotHandle,
    INITIAL_INSTANCE_BUFFER_CAPACITY,
};
use crate::slots::{
    canonical_key, image_slot_entries, image_slots_get, image_slots_insert, image_slots_new,
    image_slots_remove, image_slots_set, slot_map_room, ImageSlots,
};
use crate::sort::{keyed, sorted_by_key, stable_sort_by_key};

verus! {

/// A handle to an image of an image batch.
pub type ImageHandle = SlotHandle;

/// What an image batch holds, seen as mathematical values.
pub struct ImageBatchView<T> {
    /// The instances, in the order in which they were kept.
    pub instances: Seq<T>,
    /// Where each handle's instance lives.
    pub slots: Map<u64, usize>,
    pub capacity: nat,
    pub dirty: bool,
}

impl<T> ImageBatchView<T> {
    /// The batch holds an instance under `key`.
    pub open spec fn contains(self, key: u64) -> bool {
        self.slots.contains_key(canonical_key(key))
    }

    /// The instance held under `key`.
    pub open spec fn instance(self, key: u64) -> T {
        self.instances[self.slots[canonical_key(key)] as int]
    }

    /// Some handle points at index `i`.
    pub open spec fn owned(self, i: int) -> bool {
        exists|k: u64| #[trigger] self.slots.contains_key(k) && self.slots[k] == i as usize
    }

    /// Every handle points at a distinct instance and every instance has a
    /// handle.
    pub open spec fn consistent(self) -> bool {
        &&& self.slots.dom().finite()
        &&& self.slots.dom().len() == self.instances.len()
        &&& self.instances.len() <= usize::MAX
        &&& forall|k: u64| #[trigger]
            self.slots.contains_key(k) ==> canonical_key(k) == k && (self.slots[k] as int)
                < self.instances.len()
        &&& forall|k1: u64, k2: u64|
            #[trigger] self.slots.contains_key(k1) && #[trigger] self.slots.contains_key(k2)
                && self.slots[k1] == self.slots[k2] ==> k1 == k2
        &&& forall|i: int| 0 <= i < self.instances.len() ==> #[trigger] self.owned(i)
    }
}

/// `post` is `pre` with `instance` appended under the new `key`.
pub open spec fn image_created<T>(pre: ImageBatchView<T>, post: ImageBatchView<T>, instance: T, key: u64) -> bool {
    &&& !pre.slots.contains_key(key)
    &&& canonical_key(key) == key
    &&& post.instances == pre.instances.push(instance)
    &&& post.slots == pre.slots.insert(key, pre.instances.len() as usize)
    &&& post.capacity == pre.capacity
    &&& post.dirty
}

/// `post` is `pre` where only the instance under `key` may have changed.
pub open spec fn image_modified<T>(pre: ImageBatchView<T>, post: ImageBatchView<T>, key: u64) -> bool {
    if pre.contains(key) {
        &&& post.instances == pre.instances.update(
            pre.slots[canonical_key(key)] as int,
            post.instance(key),
        )
        &&& post.slots == pre.slots
        &&& post.capacity == pre.capacity
        &&& post.dirty
    } else {
        post == pre
    }
}

/// `post` is `pre` without the instance under `key`; the last instance takes
/// its place.
pub open spec fn image_removed<T>(pre: ImageBatchView<T>, post: ImageBatchView<T>, key: u64) -> bool {
    if pre.contains(key) {
        let c = canonical_key(key);
        let i = pre.slots[c];
        let last = (pre.instances.len() - 1) as usize;
        &&& post.instances == swap_removed(pre.instances, i as int)
        &&& post.slots == pre.slots.remove(c).map_values(|p: usize| if p == last { i } else { p })
        &&& post.capacity == pre.capacity
        &&& post.dirty
    } else {
        post == pre
    }
}

/// What the GPU side does to draw an image batch: apply `update`, if any,
/// then draw `instance_count` instances.
pub struct ImageFrame<T> {
    pub update: Option<BufferUpdate<T>>,
    pub instance_count: u32,
}

/// Images reachable through stable handles. Removing one moves the last
/// image into its place; the buffer is written sorted by depth.
pub struct ImageBatch<T> {
    slots: ImageSlots,
    instances: Vec<T>,
    reverse: Vec<u64>,
    instance_buffer_capacity: usize,
    dirty: bool,
}

impl<T> View for ImageBatch<T> {
    type V = ImageBatchView<T>;

    closed spec fn view(&self) -> ImageBatchView<T> {
        ImageBatchView {
            instances: self.instances@,
            slots: image_slot_entries(self.slots),
            capacity: self.instance_buffer_capacity as nat,
            dirty: self.dirty,
        }
    }
}

impl<T: Copy> ImageBatch<T> {
    /// The handle table and the handle list mirror each other.
    pub closed spec fn wf(&self) -> bool {
        &&& self@.consistent()
        &&& self.reverse@.len() == self.instances@.len()
        &&& forall|i: int|
            #![trigger self.reverse@[i]]
            0 <= i < self.reverse@.len() ==> {
                &&& image_slot_entries(self.slots).contains_key(self.reverse@[i])
                &&& image_slot_entries(self.slots)[self.reverse@[i]] == i as usize
            }
    }

    /// A well-formed batch has a consistent view.
    pub proof fn lemma_wf_consistent(&self)
        requires
            self.wf(),
        ensures
            self@.consistent(),
    {
    }

    /// An empty batch whose instance buffer has room for
    /// `INITIAL_INSTANCE_BUFFER_CAPACITY` instances.
    pub fn new() -> (batch: Self)
        ensures
            batch.wf(),
            batch@.instances == Seq::<T>::empty(),
            batch@.slots == Map::<u64, usize>::empty(),
            batch@.capacity == INITIAL_INSTANCE_BUFFER_CAPACITY,
            !batch@.dirty,
    {
        let batch = ImageBatch {
            slots: image_slots_new(),
            instances: Vec::new(),
            reverse: Vec::new(),
            instance_buffer_capacity: INITIAL_INSTANCE_BUFFER_CAPACITY,
            dirty: false,
        };
        assert(batch@.slots =~= Map::<u64, usize>::empty());
        batch
    }

    /// Adds `instance` at the end and returns the handle that finds it again.
    /// The slot map panics when it is full, which `requires` rules out.
    pub fn create(&mut self, instance: T) -> (handle: SlotHandle)
        requires
            old(self).wf(),
            slot_map_room(old(self)@.instances.len()),
        ensures
            final(self).wf(),
            image_created(old(self)@, final(self)@, instance, handle.key),
            final(self)@.dirty,
            final(self)@.instances == old(self)@.instances.push(instance),
            final(self)@.capacity == old(self)@.capacity,
            final(self)@.contains(handle.key),
            final(self)@.instance(handle.key) == instance,
            forall|k: u64|
                old(self)@.contains(k) ==> #[trigger] final(self)@.contains(k)
                    && final(self)@.instance(k) == old(self)@.instance(k),
    {
        let dense_idx = self.instances.len();
        self.instances.push(instance);
        let key = image_slots_insert(&mut self.slots, dense_idx);
        self.reverse.push(key);
        self.dirty = true;
        proof {
            let pre = old(self)@;
            let post = self@;
            assert forall|i: int| 0 <= i < post.instances.len() implies #[trigger] post.owned(i) by {
                if i == pre.instances.len() {
                    assert(post.slots.contains_key(key));
                } else {
                    let k = old(self).reverse@[i];
                    assert(post.slots.contains_key(k));
                }
            }
            assert forall|i: int|
                #![trigger self.reverse@[i]]
                0 <= i < self.reverse@.len() implies {
                    &&& image_slot_entries(self.slots).contains_key(self.reverse@[i])
                    &&& image_slot_entries(self.slots)[self.reverse@[i]] == i as usize
                } by {
                if i < pre.instances.len() {
                    assert(old(self).reverse@[i] == self.reverse@[i]);
                }
            }
        }
        SlotHandle { key }
    }

    /// Hands the instance under `handle`, if there is one, to `function` to
    /// change in place; a handle without an instance changes nothing.
    pub fn modify(&mut self, handle: SlotHandle, function: impl FnOnce(&mut T))
        requires
            old(self).wf(),
            old(self)@.contains(handle.key) ==> accepts(function, old(self)@.instance(handle.key)),
        ensures
            final(self).wf(),
            image_modified(old(self)@, final(self)@, handle.key),
            old(self)@.contains(handle.key) ==> final(self)@.dirty,
            !old(self)@.contains(handle.key) ==> final(self)@ == old(self)@,
            old(self)@.contains(handle.key) ==> exists|r: &mut T|
                *r == old(self)@.instance(handle.key) && *final(r) == final(self)@.instance(handle.key)
                    && call_ensures(function, (r,), ()),
            forall|k: u64| #[trigger]
                final(self)@.contains(k) <==> old(self)@.contains(k),
            forall|k: u64|
                #[trigger] final(self)@.contains(k) && canonical_key(k) != canonical_key(handle.key)
                    ==> final(self)@.instance(k) == old(self)@.instance(k),
    {
        match image_slots_get(&self.slots, handle.key) {
            Some(d) => {
                proof {
                    assert(old(self)@.slots.contains_key(canonical_key(handle.key)));
                }
                function(&mut self.instances[d]);
                self.dirty = true;
                proof {
                    let post = self@;
                    assert(post.instances =~= old(self)@.instances.update(d as int, post.instance(handle.key)));
                    assert forall|i: int| 0 <= i < post.instances.len() implies #[trigger] post.owned(i) by {
                        let k = old(self).reverse@[i];
                        assert(post.slots.contains_key(k));
                    }
                }
            },
            None => {},
        }
    }

    /// Removes the instance under `handle`, if there is one: the last
    /// instance moves into its place and keeps its own handle.
    pub fn remove(&mut self, handle: SlotHandle)
        requires
            old(self).wf(),
        ensures
            final(self).wf(),
            image_removed(old(self)@, final(self)@, handle.key),
            old(self)@.contains(handle.key) ==> {
                &&& final(self)@.dirty
                &&& final(self)@.instances.len() == old(self)@.instances.len() - 1
                &&& final(self)@.capacity == old(self)@.capacity
            },
            !old(self)@.contains(handle.key) ==> final(self)@ == old(self)@,
            !final(self)@.contains(handle.key),
            forall|k: u64| #[trigger]
                final(self)@.contains(k) <==> old(self)@.contains(k) && canonical_key(k)
                    != canonical_key(handle.key),
            forall|k: u64|
                #[trigger] final(self)@.contains(k) ==> final(self)@.instance(k) == old(self)@.instance(k),
    {
        let idx = match image_slots_remove(&mut self.slots, handle.key) {
            Some(i) => i,
            None => {
                proof {
                    assert(image_slot_entries(self.slots) =~= image_slot_entries(old(self).slots));
                    assert(self@ == old(self)@);
                }
                return;
            },
        };
        let ghost c = canonical_key(handle.key);
        let ghost pre = old(self)@;
        let ghost old_reverse = old(self).reverse@;
        proof {
            assert(pre.slots.contains_key(c));
            assert(old_reverse[idx as int] == c) by {
                assert(pre.slots[old_reverse[idx as int]] == idx);
            }
        }
        let last = self.instances.len() - 1;
        let ghost moved = old_reverse[last as int];
        self.instances.swap_remove(idx);
        self.reverse.swap_remove(idx);
        if idx != last {
            let moved_key = self.reverse[idx];
            assert(moved_key == moved);
            image_slots_set(&mut self.slots, moved_key, idx);
        }
        self.dirty = true;
        proof {
            let post = self@;
            let f = |p: usize| if p == last { idx } else { p };
            assert(canonical_key(moved) == moved);
            assert(post.slots =~= pre.slots.remove(c).map_values(f)) by {
                assert forall|k: u64| #[trigger] pre.slots.remove(c).contains_key(k) implies
                    (pre.slots[k] == last <==> k == moved) by {
                    assert(pre.slots.contains_key(moved));
                }
            }
            assert(post.slots.dom() =~= pre.slots.dom().remove(c));
            assert forall|k: u64| #[trigger] post.slots.contains_key(k) implies
                (post.slots[k] as int) < post.instances.len()
                && post.instances[post.slots[k] as int] == pre.instances[pre.slots[k] as int] by {
                if k != moved {
                    assert(pre.slots[k] != last);
                    assert(pre.slots[k] != idx);
                }
            }
            assert forall|i: int| 0 <= i < post.instances.len() implies #[trigger] post.owned(i) by {
                if i == idx {
                    assert(post.slots.contains_key(moved));
                } else {
                    let k = old_reverse[i];
                    assert(pre.slots[k] == i as usize);
                    assert(k != c);
                    assert(k != moved);
                    assert(post.slots.contains_key(k));
                }
            }
            assert forall|i: int|
                #![trigger self.reverse@[i]]
                0 <= i < self.reverse@.len() implies {
                    &&& image_slot_entries(self.slots).contains_key(self.reverse@[i])
                    &&& image_slot_entries(self.slots)[self.reverse@[i]] == i as usize
                } by {
                if i != idx {
                    assert(old_reverse[i] == self.reverse@[i]);
                    assert(pre.slots[old_reverse[i]] == i as usize);
                }
            }
        }
    }

    /// After a change, says whether the instance buffer has to grow (it
    /// doubles once when the instances outgrew it) and packs the instances
    /// sorted by `depth_keys`, the depth of each instance in order.
    fn update_buffer(&mut self, depth_keys: &Vec<u32>) -> (update: Option<BufferUpdate<T>>)
        requires
            old(self).wf(),
            depth_keys.len() == old(self)@.instances.len(),
            grown_capacity(old(self)@.instances.len(), old(self)@.capacity) <= usize::MAX,
        ensures
            final(self).wf(),
            old(self)@.dirty ==> {
                &&& update matches Some(u)
                &&& u.packed@ == sorted_by_key(keyed(old(self)@.instances, depth_keys@)).map_values(
                    |e: (u32, T)| e.1,
                )
                &&& u.new_capacity == buffer_growth(old(self)@.instances.len(), old(self)@.capacity)
                &&& final(self)@.instances == old(self)@.instances
                &&& final(self)@.slots == old(self)@.slots
                &&& final(self)@.capacity == grown_capacity(old(self)@.instances.len(), old(self)@.capacity)
                &&& !final(self)@.dirty
            },
            !old(self)@.dirty ==> update is None && final(self)@ == old(self)@,
            old(self)@.dirty && old(self)@.instances.len() > old(self)@.capacity ==> {
                &&& update matches Some(u)
                &&& u.new_capacity == Some((2 * old(self)@.capacity) as usize)
                &&& final(self)@.capacity == 2 * old(self)@.capacity
            },
            old(self)@.dirty && old(self)@.instances.len() <= old(self)@.capacity ==> {
                &&& update matches Some(u)
                &&& u.new_capacity is None
                &&& final(self)@.capacity == old(self)@.capacity
            },
    {
        if !self.dirty {
            return None;
        }
        let mut new_capacity: Option<usize> = None;
        if self.instances.len() > self.instance_buffer_capacity {
            self.instance_buffer_capacity = self.instance_buffer_capacity * 2;
            new_capacity = Some(self.instance_buffer_capacity);
        }
        let packed = stable_sort_by_key(&self.instances, depth_keys);
        self.dirty = false;
        proof {
            let post = self@;
            assert forall|i: int| 0 <= i < post.instances.len() implies #[trigger] post.owned(i) by {
                let k = old(self).reverse@[i];
                assert(post.slots.contains_key(k));
            }
        }
        Some(BufferUpdate { new_capacity, packed })
    }

    /// What drawing the batch needs: nothing when it holds no image;
    /// otherwise the buffer update, if the batch changed, and the number of
    /// images to draw.
    pub fn draw(&mut self, depth_keys: &Vec<u32>) -> (frame: Option<ImageFrame<T>>)
        requires
            old(self).wf(),
            depth_keys.len() == old(self)@.instances.len(),
            grown_capacity(old(self)@.instances.len(), old(self)@.capacity) <= usize::MAX,
        ensures
            final(self).wf(),
            old(self)@.instances.len() == 0 ==> frame is None && final(self)@ == old(self)@,
            old(self)@.instances.len() > 0 ==> {
                &&& frame matches Some(f)
                &&& f.instance_count == old(self)@.instances.len() as u32
                &&& (old(self)@.dirty <==> f.update is Some)
                &&& f.update matches Some(u) ==> {
                    &&& u.packed@ == sorted_by_key(keyed(old(self)@.instances, depth_keys@)).map_values(
                        |e: (u32, T)| e.1,
                    )
                    &&& u.new_capacity == buffer_growth(old(self)@.instances.len(), old(self)@.capacity)
                }
                &&& final(self)@.instances == old(self)@.instances
                &&& final(self)@.slots == old(self)@.slots
                &&& final(self)@.capacity == if old(self)@.dirty {
                    grown_capacity(old(self)@.instances.len(), old(self)@.capacity)
                } else {
                    old(self)@.capacity
                }
                &&& !final(self)@.dirty
            },
            old(self)@.dirty && old(self)@.instances.len() > old(self)@.capacity ==> {
                &&& frame matches Some(f)
                &&& f.update matches Some(u)
                &&& u.new_capacity == Some((2 * old(self)@.capacity) as usize)
                &&& final(self)@.capacity == 2 * old(self)@.capacity
            },
            old(self)@.dirty && 0 < old(self)@.instances.len() <= old(self)@.capacity ==> {
                &&& frame matches Some(f)
                &&& f.update matches Some(u)
                &&& u.new_capacity is None
                &&& final(self)@.capacity == old(self)@.capacity
            },
    {
        if self.instances.len() == 0 {
            return None;
        }
        let update = self.update_buffer(depth_keys);
        let instance_count = self.instances.len() as u32;
        Some(ImageFrame { update, instance_count })
    }

    /// The instances in the order the batch keeps them.
    pub fn instances(&self) -> (instances: &Vec<T>)
        ensures
            instances@ == self@.instances,
    {
        &self.instances
    }
}

} // verus!

verus! {

/// Creating an image and then removing it through the handle that creation
/// returned gives back the images and handles held before.
pub proof fn lemma_image_create_then_remove<T>(
    v0: ImageBatchView<T>,
    v1: ImageBatchView<T>,
    v2: ImageBatchView<T>,
    instance: T,
    key: u64,
)
    requires
        v0.consistent(),
        image_created(v0, v1, instance, key),
        image_removed(v1, v2, key),
    ensures
        v2.instances == v0.instances,
        v2.slots == v0.slots,
{
    let n = v0.instances.len();
    assert(v1.contains(key));
    assert(swap_removed(v1.instances, n as int) =~= v0.instances);
    let f = |p: usize| if p == n as usize { n as usize } else { p };
    assert(v2.slots =~= v0.slots) by {
        assert(v1.slots.remove(key) =~= v0.slots);
        assert forall|k: u64| #[trigger] v0.slots.contains_key(k) implies v2.slots[k] == v0.slots[k] by {
            assert(v2.slots[k] == f(v0.slots[k]));
        }
    }
}

/// Creating an image gives a handle that was not in use and finds the new
/// image, and every handle held before still finds the image it found.
pub proof fn lemma_image_create_keeps_others<T>(
    pre: ImageBatchView<T>,
    post: ImageBatchView<T>,
    instance: T,
    key: u64,
)
    requires
        pre.consistent(),
        image_created(pre, post, instance, key),
    ensures
        !pre.contains(key),
        post.contains(key),
        post.instance(key) == instance,
        post.instances.len() == pre.instances.len() + 1,
        forall|k: u64| #[trigger] pre.contains(k) ==> post.contains(k) && post.instance(k) == pre.instance(k),
{
    assert forall|k: u64| #[trigger] pre.contains(k) implies post.contains(k) && post.instance(k)
        == pre.instance(k) by {
        let c = canonical_key(k);
        assert(c != key);
        assert((pre.slots[c] as int) < pre.instances.len());
    }
}

/// Removing an image that is held drops its handle, shortens the images by
/// one and leaves the buffer to be written again; removing one that is not
/// held changes nothing.
pub proof fn lemma_image_remove_needs_write<T>(pre: ImageBatchView<T>, post: ImageBatchView<T>, key: u64)
    requires
        pre.consistent(),
        image_removed(pre, post, key),
    ensures
        pre.contains(key) ==> post.dirty && !post.contains(key) && post.instances.len()
            == pre.instances.len() - 1,
        !pre.contains(key) ==> post == pre,
{
    if pre.contains(key) {
        assert((pre.slots[canonical_key(key)] as int) < pre.instances.len());
    }
}

/// Changing an image that is held leaves the buffer to be written again;
/// asking to change one that is not held changes nothing.
pub proof fn lemma_image_modify_needs_write<T>(pre: ImageBatchView<T>, post: ImageBatchView<T>, key: u64)
    requires
        pre.consistent(),
        image_modified(pre, post, key),
    ensures
        pre.contains(key) ==> post.dirty && post.slots == pre.slots && post.instances.len()
            == pre.instances.len(),
        !pre.contains(key) ==> post == pre,
{
    if pre.contains(key) {
        assert((pre.slots[canonical_key(key)] as int) < pre.instances.len());
    }
}

} // verus!
