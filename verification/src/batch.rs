use std::collections::HashMap;
use vstd::prelude::*;

use crate::layer::LayerId;
use crate::slots::{
    canonical_key, layer_slot_entries, layer_slots_get, layer_slots_insert, layer_slots_new,
    layer_slots_remove, layer_slots_set, slot_map_room, LayerSlot, LayerSlots,
};

verus! {

/// How many instances the instance buffer of a new batch has room for.
pub const INITIAL_INSTANCE_BUFFER_CAPACITY: usize = 50;

/// A handle to an instance held by a batch: the slot map key as
/// `KeyData::as_ffi` writes it.
#[derive(Clone, Copy, PartialEq, Eq, Structural, Hash, Debug)]
pub struct SlotHandle {
    pub key: u64,
}

/// A handle to a rectangle of a rectangle batch.
pub type RectangleHandle = SlotHandle;

/// A handle to a glyph of a glyph batch.
pub type GlyphHandle = SlotHandle;

/// What a layered batch holds, seen as mathematical values.
pub struct BatchView<T> {
    /// The instances of each layer, in the order in which they are packed.
    pub layers: Map<i32, Seq<T>>,
    /// Where each handle's instance lives: (layer, index in that layer).
    pub slots: Map<u64, LayerSlot>,
    /// The instance range of each layer in the last packed buffer.
    pub ranges: Map<i32, (u32, u32)>,
    pub instance_count: nat,
    pub capacity: nat,
    pub dirty: bool,
}

impl<T> BatchView<T> {
    /// The instances of layer `l` (none when the layer was never used).
    pub open spec fn layer(self, l: i32) -> Seq<T> {
        if self.layers.contains_key(l) {
            self.layers[l]
        } else {
            Seq::empty()
        }
    }

    /// The batch holds an instance under `key`.
    pub open spec fn contains(self, key: u64) -> bool {
        self.slots.contains_key(canonical_key(key))
    }

    /// The instance held under `key`.
    pub open spec fn instance(self, key: u64) -> T {
        let p = self.slots[canonical_key(key)];
        self.layer(p.0)[p.1 as int]
    }

    /// Every handle points at a distinct instance, every instance has a
    /// handle, and the count is the number of handles.
    pub open spec fn consistent(self) -> bool {
        &&& self.slots.dom().finite()
        &&& self.instance_count == self.slots.dom().len()
        &&& forall|k: u64| #[trigger]
            self.slots.contains_key(k) ==> canonical_key(k) == k && (self.slots[k].1 as int)
                < self.layer(self.slots[k].0).len()
        &&& forall|k1: u64, k2: u64|
            #[trigger] self.slots.contains_key(k1) && #[trigger] self.slots.contains_key(k2)
                && self.slots[k1] == self.slots[k2] ==> k1 == k2
        &&& self.instances_owned()
        &&& forall|l: i32| #[trigger] self.layer(l).len() <= usize::MAX
    }

    /// Every instance is held under some handle.
    pub open spec fn instances_owned(self) -> bool {
        forall|l: i32, i: int|
            0 <= i < self.layer(l).len() ==> #[trigger] self.owned(l, i)
    }

    /// Some handle points at index `i` of layer `l`.
    pub open spec fn owned(self, l: i32, i: int) -> bool {
        exists|k: u64| #[trigger] self.slots.contains_key(k) && self.slots[k] == (l, i as usize)
    }
}

/// `f` may be handed `before`.
pub open spec fn accepts<T, F: FnOnce(&mut T)>(f: F, before: T) -> bool {
    forall|r: &mut T| *r == before ==> call_requires(f, (r,))
}

/// `post` is `pre` with `instance` appended to `layer`, under the new `key`.
pub open spec fn created<T>(pre: BatchView<T>, post: BatchView<T>, instance: T, layer: i32, key: u64) -> bool {
    &&& !pre.slots.contains_key(key)
    &&& canonical_key(key) == key
    &&& post.layers == pre.layers.insert(layer, pre.layer(layer).push(instance))
    &&& post.slots == pre.slots.insert(key, (layer, pre.layer(layer).len() as usize))
    &&& post.ranges == pre.ranges
    &&& post.instance_count == pre.instance_count + 1
    &&& post.capacity == pre.capacity
    &&& post.dirty
}

/// `post` is `pre` where only the instance under `key` may have changed.
pub open spec fn modified<T>(pre: BatchView<T>, post: BatchView<T>, key: u64) -> bool {
    if pre.contains(key) {
        let p = pre.slots[canonical_key(key)];
        &&& post.layers == pre.layers.insert(p.0, pre.layer(p.0).update(p.1 as int, post.instance(key)))
        &&& post.slots == pre.slots
        &&& post.ranges == pre.ranges
        &&& post.instance_count == pre.instance_count
        &&& post.capacity == pre.capacity
        &&& post.dirty
    } else {
        post == pre
    }
}

/// The instances of a layer after the one at `i` was removed by moving the
/// last one into its place.
pub open spec fn swap_removed<T>(s: Seq<T>, i: int) -> Seq<T> {
    s.update(i, s.last()).drop_last()
}

/// `post` is `pre` without the instance under `key`; the last instance of its
/// layer takes its place.
pub open spec fn removed<T>(pre: BatchView<T>, post: BatchView<T>, key: u64) -> bool {
    if pre.contains(key) {
        let c = canonical_key(key);
        let l = pre.slots[c].0;
        let i = pre.slots[c].1;
        let last = (pre.layer(l).len() - 1) as usize;
        &&& post.layers == pre.layers.insert(l, swap_removed(pre.layer(l), i as int))
        &&& post.slots == pre.slots.remove(c).map_values(
            |p: LayerSlot| if p == (l, last) { (l, i) } else { p },
        )
        &&& post.ranges == pre.ranges
        &&& post.instance_count == pre.instance_count - 1
        &&& post.capacity == pre.capacity
        &&& post.dirty
    } else {
        post == pre
    }
}

/// The instances of the listed layers, one layer after the other, skipping
/// layers without instances.
pub open spec fn packed_instances<T>(layers: Map<i32, Seq<T>>, order: Seq<LayerId>) -> Seq<T>
    decreases order.len(),
{
    if order.len() == 0 {
        Seq::empty()
    } else {
        let before = packed_instances(layers, order.drop_last());
        let id = order.last().0;
        if layers.contains_key(id) && layers[id].len() > 0 {
            before + layers[id]
        } else {
            before
        }
    }
}

/// The instance ranges recorded while packing the listed layers: each
/// non-empty layer gets the range of its instances in the packed sequence,
/// each bound truncated to `u32` (its low 32 bits); other ranges stay.
pub open spec fn packed_ranges<T>(
    layers: Map<i32, Seq<T>>,
    order: Seq<LayerId>,
    ranges: Map<i32, (u32, u32)>,
) -> Map<i32, (u32, u32)>
    decreases order.len(),
{
    if order.len() == 0 {
        ranges
    } else {
        let before = packed_ranges(layers, order.drop_last(), ranges);
        let start = packed_instances(layers, order.drop_last()).len();
        let id = order.last().0;
        if layers.contains_key(id) && layers[id].len() > 0 {
            before.insert(id, (start as u32, (start + layers[id].len()) as u32))
        } else {
            before
        }
    }
}

/// The capacity the instance buffer needs for `count` instances when it had
/// `capacity`: it doubles once when the instances no longer fit.
pub open spec fn grown_capacity(count: nat, capacity: nat) -> nat {
    if count > capacity {
        capacity * 2
    } else {
        capacity
    }
}

/// The new instance buffer an update asks for: `Some` of the doubled
/// capacity when the instances no longer fit, `None` when they do.
pub open spec fn buffer_growth(count: nat, capacity: nat) -> Option<usize> {
    if count > capacity {
        Some(grown_capacity(count, capacity) as usize)
    } else {
        None
    }
}

/// What the GPU side has to do after a batch changed: make a new instance
/// buffer of `new_capacity` instances when it is `Some`, then write `packed`.
pub struct BufferUpdate<T> {
    pub new_capacity: Option<usize>,
    pub packed: Vec<T>,
}

/// The range of instances to draw for a layer: the recorded range, unless
/// it is missing or empty.
pub open spec fn draw_range(ranges: Map<i32, (u32, u32)>, layer: i32) -> Option<(u32, u32)> {
    if ranges.contains_key(layer) && ranges[layer].0 < ranges[layer].1 {
        Some(ranges[layer])
    } else {
        None
    }
}

/// Instances grouped by layer, each reachable through a stable handle.
/// Removing an instance moves the last instance of its layer into its place,
/// so every layer stays dense and is packed into the instance buffer as one
/// range.
pub struct LayeredBatch<T> {
    slots: LayerSlots,
    reverse: HashMap<i32, Vec<u64>>,
    instances: HashMap<i32, Vec<T>>,
    instance_buffer_capacity: usize,
    instance_count: usize,
    layer_ranges: HashMap<i32, (u32, u32)>,
    dirty: bool,
}

/// The rectangle batch: rectangles grouped by layer.
pub type RectangleBatch<T> = LayeredBatch<T>;

/// The glyph batch: glyph quads grouped by layer.
pub type GlyphBatch<T> = LayeredBatch<T>;

impl<T> View for LayeredBatch<T> {
    type V = BatchView<T>;

    closed spec fn view(&self) -> BatchView<T> {
        BatchView {
            layers: Map::new(
                |l: i32| self.instances@.contains_key(l),
                |l: i32| self.instances@[l]@,
            ),
            slots: layer_slot_entries(self.slots),
            ranges: self.layer_ranges@,
            instance_count: self.instance_count as nat,
            capacity: self.instance_buffer_capacity as nat,
            dirty: self.dirty,
        }
    }
}

impl<T: Copy> LayeredBatch<T> {
    /// The handle table and the per-layer handle lists mirror each other.
    pub closed spec fn wf(&self) -> bool {
        &&& self@.consistent()
        &&& self.reverse@.dom() == self.instances@.dom()
        &&& forall|l: i32| #[trigger]
            self.instances@.contains_key(l) ==> self.reverse@[l]@.len()
                == self.instances@[l]@.len()
        &&& forall|l: i32, i: int|
            #![trigger self.reverse@[l]@[i]]
            self.instances@.contains_key(l) && 0 <= i < self.reverse@[l]@.len() ==> {
                &&& layer_slot_entries(self.slots).contains_key(self.reverse@[l]@[i])
                &&& layer_slot_entries(self.slots)[self.reverse@[l]@[i]] == (l, i as usize)
            }
    }

    /// No layer holds more instances than a vector can.
    proof fn lemma_layer_lens(&self)
        ensures
            forall|l: i32| #[trigger] self@.layer(l).len() <= usize::MAX,
    {
        assert forall|l: i32| #[trigger] self@.layer(l).len() <= usize::MAX by {
            if self.instances@.contains_key(l) {
                assert(self.instances@[l].len() == self.instances@[l]@.len());
            }
        }
    }

    /// A well-formed batch has a consistent view.
    pub proof fn lemma_wf_consistent(&self)
        requires
            self.wf(),
        ensures
            self@.consistent(),
    {
    }

    /// An empty batch whose instance buffer has room for
    /// `INITIAL_INSTANCE_BUFFER_CAPACITY` instances.
    pub fn new() -> (batch: Self)
        ensures
            batch.wf(),
            batch@.layers == Map::<i32, Seq<T>>::empty(),
            batch@.slots == Map::<u64, LayerSlot>::empty(),
            batch@.ranges == Map::<i32, (u32, u32)>::empty(),
            batch@.instance_count == 0,
            batch@.capacity == INITIAL_INSTANCE_BUFFER_CAPACITY,
            !batch@.dirty,
    {
        let batch = LayeredBatch {
            slots: layer_slots_new(),
            reverse: HashMap::new(),
            instances: HashMap::new(),
            instance_buffer_capacity: INITIAL_INSTANCE_BUFFER_CAPACITY,
            instance_count: 0,
            layer_ranges: HashMap::new(),
            dirty: false,
        };
        assert(batch@.layers =~= Map::<i32, Seq<T>>::empty());
        assert(batch@.slots =~= Map::<u64, LayerSlot>::empty());
        batch
    }

    /// Adds `instance` at the end of `layer` and returns the handle that finds
    /// it again. The slot map panics when it is full, which `requires` rules
    /// out.
    pub fn create(&mut self, instance: T, layer: LayerId) -> (handle: SlotHandle)
        requires
            old(self).wf(),
            slot_map_room(old(self)@.instance_count),
        ensures
            final(self).wf(),
            created(old(self)@, final(self)@, instance, layer.0, handle.key),
            final(self)@.dirty,
            final(self)@.instance_count == old(self)@.instance_count + 1,
            final(self)@.capacity == old(self)@.capacity,
            final(self)@.contains(handle.key),
            final(self)@.instance(handle.key) == instance,
            forall|k: u64|
                old(self)@.contains(k) ==> #[trigger] final(self)@.contains(k)
                    && final(self)@.instance(k) == old(self)@.instance(k),
    {
        let id = layer.0;
        let mut layer_instances = match self.instances.remove(&id) {
            Some(v) => v,
            None => Vec::new(),
        };
        let mut layer_reverse = match self.reverse.remove(&id) {
            Some(v) => v,
            None => Vec::new(),
        };
        let dense_idx = layer_instances.len();
        layer_instances.push(instance);
        let key = layer_slots_insert(&mut self.slots, (id, dense_idx));
        layer_reverse.push(key);
        self.instances.insert(id, layer_instances);
        self.reverse.insert(id, layer_reverse);
        self.instance_count = self.instance_count + 1;
        self.dirty = true;
        proof {
            self.lemma_layer_lens();
            let pre = old(self)@;
            let post = self@;
            assert(post.layers =~= pre.layers.insert(id, pre.layer(id).push(instance)));
            assert(forall|l: i32| #[trigger] post.layer(l) == if l == id {
                pre.layer(id).push(instance)
            } else {
                pre.layer(l)
            });
            assert forall|l: i32, i: int|
                0 <= i < post.layer(l).len() implies #[trigger] post.owned(l, i) by {
                if l == id && i == pre.layer(id).len() {
                    assert(post.slots.contains_key(key));
                } else {
                    assert(i < pre.layer(l).len());
                    let k = old(self).reverse@[l]@[i];
                    assert(post.slots.contains_key(k));
                }
            }
            assert forall|l: i32, i: int|
                #![trigger self.reverse@[l]@[i]]
                self.instances@.contains_key(l) && 0 <= i < self.reverse@[l]@.len() implies {
                    &&& layer_slot_entries(self.slots).contains_key(self.reverse@[l]@[i])
                    &&& layer_slot_entries(self.slots)[self.reverse@[l]@[i]] == (l, i as usize)
                } by {
                if l == id {
                    if i < pre.layer(id).len() {
                        assert(old(self).reverse@[l]@[i] == self.reverse@[l]@[i]);
                    }
                } else {
                    assert(old(self).reverse@[l]@[i] == self.reverse@[l]@[i]);
                }
            }
        }
        SlotHandle { key }
    }

    /// Removes the instance under `handle`, if there is one: the last instance
    /// of its layer moves into its place and keeps its own handle.
    pub fn remove(&mut self, handle: SlotHandle)
        requires
            old(self).wf(),
        ensures
            final(self).wf(),
            removed(old(self)@, final(self)@, handle.key),
            old(self)@.contains(handle.key) ==> {
                &&& final(self)@.dirty
                &&& final(self)@.instance_count == old(self)@.instance_count - 1
                &&& final(self)@.capacity == old(self)@.capacity
            },
            !old(self)@.contains(handle.key) ==> final(self)@ == old(self)@,
            !final(self)@.contains(handle.key),
            forall|k: u64| #[trigger]
                final(self)@.contains(k) <==> old(self)@.contains(k) && canonical_key(k)
                    != canonical_key(handle.key),
            forall|k: u64|
                #[trigger] final(self)@.contains(k) ==> final(self)@.instance(k) == old(self)@.instance(k),
    {
        let pos = layer_slots_remove(&mut self.slots, handle.key);
        let (id, idx) = match pos {
            Some(p) => p,
            None => {
                proof {
                    assert(layer_slot_entries(self.slots) =~= layer_slot_entries(old(self).slots));
                    assert(self@ == old(self)@);
                }
                return;
            },
        };
        let ghost c = canonical_key(handle.key);
        let ghost pre = old(self)@;
        let ghost old_reverse = old(self).reverse@[id]@;
        proof {
            assert(pre.slots.contains_key(c));
            assert(pre.layer(id).len() > idx);
        }
        let mut layer_instances = match self.instances.remove(&id) {
            Some(v) => v,
            None => Vec::new(),
        };
        let mut layer_reverse = match self.reverse.remove(&id) {
            Some(v) => v,
            None => Vec::new(),
        };
        let last = layer_instances.len() - 1;
        let ghost moved = old_reverse[last as int];
        proof {
            assert(old_reverse[idx as int] == c) by {
                assert(pre.slots[old_reverse[idx as int]] == (id, idx));
            }
        }
        layer_instances.swap_remove(idx);
        layer_reverse.swap_remove(idx);
        if idx != last {
            let moved_key = layer_reverse[idx];
            assert(moved_key == moved);
            assert(moved != c);
            layer_slots_set(&mut self.slots, moved_key, (id, idx));
        }
        self.instances.insert(id, layer_instances);
        self.reverse.insert(id, layer_reverse);
        self.instance_count = self.instance_count - 1;
        self.dirty = true;
        proof {
            self.lemma_layer_lens();
            let post = self@;
            let f = |p: LayerSlot| if p == (id, last) { (id, idx) } else { p };
            assert(canonical_key(moved) == moved);
            assert(post.slots =~= pre.slots.remove(c).map_values(f)) by {
                assert forall|k: u64| #[trigger] pre.slots.remove(c).contains_key(k) implies
                    (pre.slots[k] == (id, last) <==> k == moved) by {
                    assert(pre.slots.contains_key(moved));
                }
            }
            assert(post.layers =~= pre.layers.insert(id, swap_removed(pre.layer(id), idx as int)));
            assert(forall|l: i32| #[trigger] post.layer(l) == if l == id {
                swap_removed(pre.layer(id), idx as int)
            } else {
                pre.layer(l)
            });
            assert(post.slots.dom() =~= pre.slots.dom().remove(c));
            assert forall|k: u64| #[trigger] post.slots.contains_key(k) implies
                (post.slots[k].1 as int) < post.layer(post.slots[k].0).len()
                && post.layer(post.slots[k].0)[post.slots[k].1 as int] == pre.layer(pre.slots[k].0)[pre.slots[k].1 as int] by {
                if k != moved {
                    assert(pre.slots[k] != (id, last));
                    assert(pre.slots[k] != (id, idx));
                }
            }
            assert forall|l: i32, i: int|
                0 <= i < post.layer(l).len() implies #[trigger] post.owned(l, i) by {
                if l == id && i == idx {
                    assert(post.slots.contains_key(moved));
                } else {
                    assert(i < pre.layer(l).len());
                    let k = old(self).reverse@[l]@[i];
                    assert(pre.slots[k] == (l, i as usize));
                    assert(k != c);
                    if l == id {
                        assert(k != moved);
                    }
                    assert(post.slots.contains_key(k));
                }
            }
            assert forall|l: i32, i: int|
                #![trigger self.reverse@[l]@[i]]
                self.instances@.contains_key(l) && 0 <= i < self.reverse@[l]@.len() implies {
                    &&& layer_slot_entries(self.slots).contains_key(self.reverse@[l]@[i])
                    &&& layer_slot_entries(self.slots)[self.reverse@[l]@[i]] == (l, i as usize)
                } by {
                if l == id {
                    if i != idx {
                        assert(old(self).reverse@[l]@[i] == self.reverse@[l]@[i]);
                        assert(pre.slots[old_reverse[i]] == (l, i as usize));
                    }
                } else {
                    assert(old(self).reverse@[l]@[i] == self.reverse@[l]@[i]);
                }
            }
        }
    }

    /// Hands the instance under `handle`, if there is one, to `function` to
    /// change in place; a handle without an instance changes nothing.
    pub fn modify(&mut self, handle: SlotHandle, function: impl FnOnce(&mut T))
        requires
            old(self).wf(),
            old(self)@.contains(handle.key) ==> accepts(function, old(self)@.instance(handle.key)),
        ensures
            final(self).wf(),
            modified(old(self)@, final(self)@, handle.key),
            old(self)@.contains(handle.key) ==> final(self)@.dirty,
            !old(self)@.contains(handle.key) ==> final(self)@ == old(self)@,
            old(self)@.contains(handle.key) ==> exists|r: &mut T|
                *r == old(self)@.instance(handle.key) && *final(r) == final(self)@.instance(handle.key)
                    && call_ensures(function, (r,), ()),
            forall|k: u64| #[trigger]
                final(self)@.contains(k) <==> old(self)@.contains(k),
            forall|k: u64|
                #[trigger] final(self)@.contains(k) && canonical_key(k) != canonical_key(handle.key)
                    ==> final(self)@.instance(k) == old(self)@.instance(k),
    {
        match layer_slots_get(&self.slots, handle.key) {
            Some(pos) => {
                let (id, idx) = pos;
                let ghost pre = old(self)@;
                let mut layer_instances = match self.instances.remove(&id) {
                    Some(v) => v,
                    None => Vec::new(),
                };
                proof {
                    assert(pre.slots.contains_key(canonical_key(handle.key)));
                    assert(layer_instances@ == pre.layer(id));
                }
                function(&mut layer_instances[idx]);
                self.instances.insert(id, layer_instances);
                self.dirty = true;
                proof {
                    self.lemma_layer_lens();
                    let post = self@;
                    assert(post.layers =~= pre.layers.insert(
                        id,
                        pre.layer(id).update(idx as int, post.instance(handle.key)),
                    ));
                    assert(forall|l: i32| #[trigger] post.layer(l).len() == pre.layer(l).len());
                    assert(forall|l: i32, i: int| 0 <= i < pre.layer(l).len() && (l != id || i != idx) ==> #[trigger] post.layer(l)[i] == pre.layer(l)[i]);
                    assert forall|l: i32, i: int|
                        0 <= i < post.layer(l).len() implies #[trigger] post.owned(l, i) by {
                        let k = old(self).reverse@[l]@[i];
                        assert(post.slots.contains_key(k));
                    }
                }
            },
            None => {},
        }
    }

    /// After a change, packs the instances of the listed layers one layer
    /// after the other, records each packed layer's range in the buffer
    /// (a layer that packs nothing keeps the range it had) and says whether
    /// the instance buffer has to grow (it doubles once when the instances
    /// outgrew it).
    /// Without a change since the last packing there is nothing to do.
    pub fn update_buffer(&mut self, layers: &Vec<LayerId>) -> (update: Option<BufferUpdate<T>>)
        requires
            old(self).wf(),
            grown_capacity(old(self)@.instance_count, old(self)@.capacity) <= usize::MAX,
        ensures
            final(self).wf(),
            old(self)@.dirty ==> {
                &&& update matches Some(u)
                &&& u.packed@ == packed_instances(old(self)@.layers, layers@)
                &&& u.new_capacity == buffer_growth(old(self)@.instance_count, old(self)@.capacity)
                &&& final(self)@.layers == old(self)@.layers
                &&& final(self)@.slots == old(self)@.slots
                &&& final(self)@.ranges == packed_ranges(old(self)@.layers, layers@, old(self)@.ranges)
                &&& final(self)@.instance_count == old(self)@.instance_count
                &&& final(self)@.capacity == grown_capacity(old(self)@.instance_count, old(self)@.capacity)
                &&& !final(self)@.dirty
            },
            !old(self)@.dirty ==> update is None && final(self)@ == old(self)@,
            old(self)@.dirty && old(self)@.instance_count > old(self)@.capacity ==> {
                &&& update matches Some(u)
                &&& u.new_capacity == Some((2 * old(self)@.capacity) as usize)
                &&& final(self)@.capacity == 2 * old(self)@.capacity
            },
            old(self)@.dirty && old(self)@.instance_count <= old(self)@.capacity ==> {
                &&& update matches Some(u)
                &&& u.new_capacity is None
                &&& final(self)@.capacity == old(self)@.capacity
            },
    {
        if !self.dirty {
            return None;
        }
        let mut new_capacity: Option<usize> = None;
        if self.instance_count > self.instance_buffer_capacity {
            self.instance_buffer_capacity = self.instance_buffer_capacity * 2;
            new_capacity = Some(self.instance_buffer_capacity);
        }
        let ghost layer_map = old(self)@.layers;
        let ghost old_ranges = old(self)@.ranges;
        let mut packed: Vec<T> = Vec::new();
        let mut n: usize = 0;
        while n < layers.len()
            invariant
                n <= layers.len(),
                self.instances == old(self).instances,
                self.reverse == old(self).reverse,
                self.slots == old(self).slots,
                self.instance_count == old(self).instance_count,
                self.dirty == old(self).dirty,
                self.instance_buffer_capacity == grown_capacity(old(self)@.instance_count, old(self)@.capacity),
                new_capacity == buffer_growth(old(self)@.instance_count, old(self)@.capacity),
                layer_map == old(self)@.layers,
                packed@ == packed_instances(layer_map, layers@.take(n as int)),
                self.layer_ranges@ == packed_ranges(layer_map, layers@.take(n as int), old_ranges),
            decreases layers.len() - n,
        {
            let layer = layers[n];
            proof {
                assert(layers@.take(n + 1).drop_last() =~= layers@.take(n as int));
                assert(layers@.take(n + 1).last() == layer);
            }
            match self.instances.get(&layer.0) {
                Some(layer_instances) => {
                    if layer_instances.len() > 0 {
                        let start = packed.len() as u32;
                        let ghost before = packed@;
                        let mut j: usize = 0;
                        while j < layer_instances.len()
                            invariant
                                j <= layer_instances.len(),
                                packed@ == before + layer_instances@.take(j as int),
                            decreases layer_instances.len() - j,
                        {
                            packed.push(layer_instances[j]);
                            proof {
                                assert(layer_instances@.take(j + 1) =~= layer_instances@.take(j as int).push(layer_instances@[j as int]));
                            }
                            j = j + 1;
                        }
                        proof {
                            assert(layer_instances@.take(j as int) =~= layer_instances@);
                        }
                        self.layer_ranges.insert(layer.0, (start, packed.len() as u32));
                    }
                },
                None => {},
            }
            n = n + 1;
        }
        self.dirty = false;
        proof {
            assert(layers@.take(n as int) =~= layers@);
            self.lemma_layer_lens();
            let post = self@;
            assert(post.layers =~= old(self)@.layers);
            assert forall|l: i32, i: int|
                0 <= i < post.layer(l).len() implies #[trigger] post.owned(l, i) by {
                let k = old(self).reverse@[l]@[i];
                assert(post.slots.contains_key(k));
            }
        }
        Some(BufferUpdate { new_capacity, packed })
    }

    /// The instance range to draw for `layer`, if its last packing recorded a
    /// non-empty one.
    pub fn draw_layer(&self, layer: &LayerId) -> (range: Option<(u32, u32)>)
        ensures
            range == draw_range(self@.ranges, layer.0),
    {
        match self.layer_ranges.get(&layer.0) {
            Some(range) => {
                if range.0 < range.1 {
                    Some(*range)
                } else {
                    None
                }
            },
            None => None,
        }
    }

    /// The number of instances the batch holds.
    pub fn instance_count(&self) -> (count: usize)
        ensures
            count == self@.instance_count,
    {
        self.instance_count
    }
}

} // verus!

verus! {

/// Creating an instance and then removing it through the handle that
/// creation returned gives back the instances and handles held before.
pub proof fn lemma_create_then_remove<T>(
    v0: BatchView<T>,
    v1: BatchView<T>,
    v2: BatchView<T>,
    instance: T,
    layer: i32,
    key: u64,
)
    requires
        v0.consistent(),
        created(v0, v1, instance, layer, key),
        removed(v1, v2, key),
    ensures
        forall|l: i32| #[trigger] v2.layer(l) == v0.layer(l),
        v2.slots == v0.slots,
        v2.instance_count == v0.instance_count,
{
    let n = v0.layer(layer).len();
    assert(v1.contains(key));
    assert(v1.slots[key] == (layer, n as usize));
    assert(v1.layer(layer) == v0.layer(layer).push(instance));
    assert(swap_removed(v1.layer(layer), n as int) =~= v0.layer(layer));
    assert(canonical_key(key) == key);
    assert(v2.layers == v1.layers.insert(layer, swap_removed(v1.layer(layer), n as int)));
    assert forall|l: i32| #[trigger] v2.layer(l) == v0.layer(l) by {
        if l == layer {
            assert(v2.layer(l) == swap_removed(v1.layer(layer), n as int));
        } else {
            assert(v2.layer(l) == v1.layer(l));
        }
    }
    let f = |p: LayerSlot| if p == (layer, n as usize) { (layer, n as usize) } else { p };
    assert(v2.slots =~= v0.slots) by {
        assert(v1.slots.remove(key) =~= v0.slots);
        assert forall|k: u64| #[trigger] v0.slots.contains_key(k) implies v2.slots[k] == v0.slots[k] by {
            assert(v2.slots[k] == f(v0.slots[k]));
        }
    }
}

/// Creating an instance gives a handle that was not in use and finds the
/// new instance at the end of its layer; every handle held before still
/// finds the instance it found, and only `layer` gains an instance.
pub proof fn lemma_create_keeps_others<T>(
    pre: BatchView<T>,
    post: BatchView<T>,
    instance: T,
    layer: i32,
    key: u64,
)
    requires
        pre.consistent(),
        created(pre, post, instance, layer, key),
    ensures
        !pre.contains(key),
        post.contains(key),
        post.instance(key) == instance,
        post.layer(layer) == pre.layer(layer).push(instance),
        forall|l: i32| l != layer ==> #[trigger] post.layer(l) == pre.layer(l),
        forall|k: u64| #[trigger] pre.contains(k) ==> post.contains(k) && post.instance(k) == pre.instance(k),
{
    assert forall|k: u64| #[trigger] pre.contains(k) implies post.contains(k) && post.instance(k)
        == pre.instance(k) by {
        let c = canonical_key(k);
        let p = pre.slots[c];
        assert(c != key);
        assert((p.1 as int) < pre.layer(p.0).len());
        if p.0 == layer {
            assert(post.layer(layer)[p.1 as int] == pre.layer(layer)[p.1 as int]);
        }
    }
}

/// After an instance is created on a listed layer, the next packing gives
/// that layer a range one longer than the layer had, holding the layer's
/// earlier instances in their order followed by the new instance, and every
/// other listed layer a range holding exactly its instances as before, as
/// long as the packed indices fit `u32`.
pub proof fn lemma_create_then_pack<T>(
    pre: BatchView<T>,
    post: BatchView<T>,
    instance: T,
    layer: i32,
    key: u64,
    order: Seq<LayerId>,
)
    requires
        pre.consistent(),
        created(pre, post, instance, layer, key),
        order.no_duplicates(),
        order.contains(LayerId(layer)),
        packed_instances(post.layers, order).len() <= u32::MAX,
    ensures
        draw_range(packed_ranges(post.layers, order, post.ranges), layer) matches Some(r) && {
            let packed = packed_instances(post.layers, order);
            &&& r.1 - r.0 == pre.layer(layer).len() + 1
            &&& packed[r.1 - 1] == instance
            &&& packed.subrange(r.0 as int, r.1 - 1) == pre.layer(layer)
        },
        forall|l: i32|
            l != layer && order.contains(LayerId(l)) && pre.layer(l).len() > 0 ==> (#[trigger] draw_range(
                packed_ranges(post.layers, order, post.ranges),
                l,
            ) matches Some(r) && packed_instances(post.layers, order).subrange(r.0 as int, r.1 as int)
                == pre.layer(l)),
{
    assert forall|l: i32|
        l != layer && order.contains(LayerId(l)) && pre.layer(l).len() > 0 implies (#[trigger] draw_range(
            packed_ranges(post.layers, order, post.ranges),
            l,
        ) matches Some(r) && packed_instances(post.layers, order).subrange(r.0 as int, r.1 as int)
            == pre.layer(l)) by {
        assert(post.layer(l) == pre.layer(l));
        lemma_packed_range_selects_layer(post.layers, order, post.ranges, l);
    }
    lemma_packed_range_selects_layer(post.layers, order, post.ranges, layer);
    let packed = packed_instances(post.layers, order);
    let r = packed_ranges(post.layers, order, post.ranges)[layer];
    let full = packed.subrange(r.0 as int, r.1 as int);
    assert(full == pre.layer(layer).push(instance));
    assert(packed[r.1 - 1] == full[full.len() - 1]);
    assert(packed.subrange(r.0 as int, r.1 - 1) =~= full.drop_last());
}

/// An update asks for a new buffer exactly when the instances outgrew the
/// old one, and then for twice the old capacity.
pub proof fn lemma_buffer_growth_doubles(count: nat, capacity: nat)
    ensures
        count > capacity ==> buffer_growth(count, capacity) == Some((2 * capacity) as usize)
            && grown_capacity(count, capacity) == 2 * capacity,
        count <= capacity ==> buffer_growth(count, capacity) is None && grown_capacity(count, capacity)
            == capacity,
{
}

/// Removing an instance that is held drops its handle, lowers the count by
/// one and leaves the batch to be packed again; removing one that is not
/// held changes nothing.
pub proof fn lemma_remove_needs_repack<T>(pre: BatchView<T>, post: BatchView<T>, key: u64)
    requires
        removed(pre, post, key),
    ensures
        pre.contains(key) ==> post.dirty && !post.contains(key) && post.instance_count
            == pre.instance_count - 1,
        !pre.contains(key) ==> post == pre,
{
}

/// Changing an instance that is held leaves the batch to be packed again;
/// asking to change one that is not held changes nothing.
pub proof fn lemma_modify_needs_repack<T>(pre: BatchView<T>, post: BatchView<T>, key: u64)
    requires
        modified(pre, post, key),
    ensures
        pre.contains(key) ==> post.dirty && post.slots == pre.slots,
        !pre.contains(key) ==> post == pre,
{
}

/// Packing a list of distinct layers without overflowing `u32` records for
/// each listed non-empty layer a range that selects exactly that layer's
/// instances from the packed sequence.
pub proof fn lemma_packed_range_selects_layer<T>(
    layers: Map<i32, Seq<T>>,
    order: Seq<LayerId>,
    ranges: Map<i32, (u32, u32)>,
    id: i32,
)
    requires
        order.no_duplicates(),
        packed_instances(layers, order).len() <= u32::MAX,
        order.contains(LayerId(id)),
        layers.contains_key(id),
        layers[id].len() > 0,
    ensures
        packed_ranges(layers, order, ranges).contains_key(id),
        packed_ranges(layers, order, ranges)[id].0 <= packed_ranges(layers, order, ranges)[id].1
            <= packed_instances(layers, order).len(),
        packed_instances(layers, order).subrange(
            packed_ranges(layers, order, ranges)[id].0 as int,
            packed_ranges(layers, order, ranges)[id].1 as int,
        ) == layers[id],
    decreases order.len(),
{
    let before = order.drop_last();
    let last = order.last();
    lemma_packed_grows(layers, order);
    if last.0 == id {
        let start = packed_instances(layers, before).len();
        assert(packed_instances(layers, order) == packed_instances(layers, before) + layers[id]);
        assert(packed_instances(layers, order).subrange(start as int, (start + layers[id].len()) as int)
            =~= layers[id]);
    } else {
        let j = choose|j: int| 0 <= j < order.len() && order[j] == LayerId(id);
        assert(j < order.len() - 1);
        assert(before[j] == LayerId(id));
        assert(before.no_duplicates()) by {
            assert forall|a: int, b: int| 0 <= a < b < before.len() implies before[a] != before[b] by {
                assert(before[a] == order[a] && before[b] == order[b]);
            }
        }
        lemma_packed_range_selects_layer(layers, before, ranges, id);
        let r = packed_ranges(layers, before, ranges)[id];
        assert(packed_ranges(layers, order, ranges)[id] == r);
        let p0 = packed_instances(layers, before);
        let p1 = packed_instances(layers, order);
        assert(p1.subrange(r.0 as int, r.1 as int) =~= p0.subrange(r.0 as int, r.1 as int));
    }
}

/// Packing more layers never shortens the packed sequence.
pub proof fn lemma_packed_grows<T>(layers: Map<i32, Seq<T>>, order: Seq<LayerId>)
    requires
        order.len() > 0,
    ensures
        packed_instances(layers, order.drop_last()).len() <= packed_instances(layers, order).len(),
        packed_instances(layers, order.drop_last()) =~= packed_instances(layers, order).take(
            packed_instances(layers, order.drop_last()).len() as int,
        ),
{
}

} // verus!
