use vstd::prelude::*;

use crate::batch::{
    buffer_growth, draw_range, grown_capacity, lemma_packed_range_selects_layer, packed_instances, packed_ranges,
    BufferUpdate, LayeredBatch, INITIAL_INSTANCE_BUFFER_CAPACITY,
};
use crate::image_batch::{ImageBatch, ImageFrame};
use crate::layer::LayerId;
use crate::sort::{keyed, sorted_by_key};

verus! {

/// Why a change to the list of layers was refused.
#[derive(Clone, Copy, PartialEq, Eq, Structural, Debug)]
pub enum LayerError {
    /// The layer is listed already.
    AlreadyExists(LayerId),
    /// The layer is not listed.
    NotFound(LayerId),
}

/// One layer's turn in a frame: the range of rectangles to draw for it, if
/// it has any.
pub struct LayerPass {
    pub layer: LayerId,
    pub rectangles: Option<(u32, u32)>,
}

/// What the GPU side does to draw a frame: apply the rectangle buffer
/// update, draw the layers in order, and draw the images.
pub struct DrawPlan<R, I> {
    pub rectangles: Option<BufferUpdate<R>>,
    pub images: Option<ImageFrame<I>>,
    pub passes: Vec<LayerPass>,
}

/// Keeps the ordered list of layers and the batches drawn through them.
pub struct DrawManager<R, I> {
    rectangle_batch: LayeredBatch<R>,
    image_batch: ImageBatch<I>,
    layers: Vec<LayerId>,
}

impl<R: Copy, I: Copy> DrawManager<R, I> {
    /// The layers, in drawing order.
    pub closed spec fn layer_list(&self) -> Seq<LayerId> {
        self.layers@
    }

    /// The rectangle batch.
    pub closed spec fn rectangles(&self) -> LayeredBatch<R> {
        self.rectangle_batch
    }

    /// The image batch.
    pub closed spec fn images(&self) -> ImageBatch<I> {
        self.image_batch
    }

    /// No layer is listed twice and both batches are well formed.
    pub open spec fn wf(&self) -> bool {
        &&& self.layer_list().no_duplicates()
        &&& self.rectangles().wf()
        &&& self.images().wf()
    }

    /// A draw manager with the background, content and overlay layers, in
    /// that order, and empty batches.
    pub fn new() -> (manager: Self)
        ensures
            manager.wf(),
            manager.layer_list() == seq![LayerId(0), LayerId(1), LayerId(2)],
            manager.rectangles()@.slots.dom().is_empty(),
            manager.rectangles()@.layers.dom().is_empty(),
            manager.rectangles()@.ranges.dom().is_empty(),
            manager.rectangles()@.instance_count == 0,
            manager.rectangles()@.capacity == INITIAL_INSTANCE_BUFFER_CAPACITY,
            !manager.rectangles()@.dirty,
            manager.images()@.instances.len() == 0,
            manager.images()@.slots.dom().is_empty(),
            manager.images()@.capacity == INITIAL_INSTANCE_BUFFER_CAPACITY,
            !manager.images()@.dirty,
    {
        let mut layers: Vec<LayerId> = Vec::new();
        layers.push(LayerId::background_layer());
        layers.push(LayerId::content_layer());
        layers.push(LayerId::overlay_layer());
        let manager = DrawManager {
            rectangle_batch: LayeredBatch::new(),
            image_batch: ImageBatch::new(),
            layers,
        };
        assert(manager.layer_list() =~= seq![LayerId(0), LayerId(1), LayerId(2)]);
        manager
    }

    /// Appends `layer` to the drawing order; a layer that is listed already
    /// is refused.
    pub fn add_layer(&mut self, layer: LayerId) -> (result: Result<(), LayerError>)
        requires
            old(self).wf(),
        ensures
            final(self).wf(),
            final(self).rectangles() == old(self).rectangles(),
            final(self).images() == old(self).images(),
            old(self).layer_list().contains(layer) ==> result == Err::<(), LayerError>(
                LayerError::AlreadyExists(layer),
            ) && final(self).layer_list() == old(self).layer_list(),
            !old(self).layer_list().contains(layer) ==> result is Ok && final(self).layer_list()
                == old(self).layer_list().push(layer),
    {
        let mut i: usize = 0;
        while i < self.layers.len()
            invariant
                i <= self.layers.len(),
                *self == *old(self),
                old(self).wf(),
                forall|j: int| 0 <= j < i ==> self.layers@[j] != layer,
            decreases self.layers.len() - i,
        {
            if self.layers[i] == layer {
                return Err(LayerError::AlreadyExists(layer));
            }
            i = i + 1;
        }
        self.layers.push(layer);
        proof {
            assert forall|a: int, b: int| 0 <= a < b < self.layers@.len() implies self.layers@[a]
                != self.layers@[b] by {
                assert(old(self).layers@.no_duplicates());
            }
        }
        Ok(())
    }

    /// Takes `layer` out of the drawing order; a layer that is not listed
    /// is refused.
    pub fn remove_layer(&mut self, layer: LayerId) -> (result: Result<(), LayerError>)
        requires
            old(self).wf(),
        ensures
            final(self).wf(),
            final(self).rectangles() == old(self).rectangles(),
            final(self).images() == old(self).images(),
            old(self).layer_list().contains(layer) ==> result is Ok && final(self).layer_list()
                == old(self).layer_list().remove(old(self).layer_list().index_of(layer)),
            !old(self).layer_list().contains(layer) ==> result == Err::<(), LayerError>(
                LayerError::NotFound(layer),
            ) && final(self).layer_list() == old(self).layer_list(),
    {
        let mut i: usize = 0;
        while i < self.layers.len()
            invariant
                i <= self.layers.len(),
                *self == *old(self),
                old(self).wf(),
                forall|j: int| 0 <= j < i ==> self.layers@[j] != layer,
            decreases self.layers.len() - i,
        {
            if self.layers[i] == layer {
                proof {
                    assert(self.layers@[i as int] == layer);
                    assert(self.layers@.contains(layer));
                    let j = self.layers@.index_of(layer);
                    assert(self.layers@[j] == layer);
                    assert(old(self).layers@.no_duplicates());
                    assert(j == i);
                }
                self.layers.remove(i);
                proof {
                    assert forall|a: int, b: int| 0 <= a < b < self.layers@.len() implies self.layers@[a]
                        != self.layers@[b] by {
                        let a0 = if a < i { a } else { a + 1 };
                        let b0 = if b < i { b } else { b + 1 };
                        assert(old(self).layers@.no_duplicates());
                        assert(self.layers@[a] == old(self).layers@[a0]);
                        assert(self.layers@[b] == old(self).layers@[b0]);
                    }
                }
                return Ok(());
            }
            i = i + 1;
        }
        Err(LayerError::NotFound(layer))
    }

    /// The layers, in drawing order.
    pub fn layers(&self) -> (layers: &Vec<LayerId>)
        ensures
            layers@ == self.layer_list(),
    {
        &self.layers
    }

    /// The rectangle batch, to add, change and remove rectangles.
    pub fn rectangle_batch(&mut self) -> (batch: &mut LayeredBatch<R>)
        ensures
            *batch == old(self).rectangles(),
            final(self).rectangles() == *final(batch),
            final(self).images() == old(self).images(),
            final(self).layer_list() == old(self).layer_list(),
    {
        &mut self.rectangle_batch
    }

    /// The image batch, to add, change and remove images.
    pub fn image_batch(&mut self) -> (batch: &mut ImageBatch<I>)
        ensures
            *batch == old(self).images(),
            final(self).images() == *final(batch),
            final(self).rectangles() == old(self).rectangles(),
            final(self).layer_list() == old(self).layer_list(),
    {
        &mut self.image_batch
    }

    /// Updates both batches and lists, layer by layer in drawing order, the
    /// rectangles to draw. `image_depth_keys` gives the depth of each image,
    /// in the order the image batch keeps them.
    pub fn draw(&mut self, image_depth_keys: &Vec<u32>) -> (plan: DrawPlan<R, I>)
        requires
            old(self).wf(),
            grown_capacity(old(self).rectangles()@.instance_count, old(self).rectangles()@.capacity)
                <= usize::MAX,
            grown_capacity(old(self).images()@.instances.len(), old(self).images()@.capacity)
                <= usize::MAX,
            image_depth_keys.len() == old(self).images()@.instances.len(),
        ensures
            final(self).wf(),
            final(self).layer_list() == old(self).layer_list(),
            old(self).rectangles()@.dirty ==> {
                &&& plan.rectangles matches Some(u)
                &&& u.packed@ == packed_instances(old(self).rectangles()@.layers, old(self).layer_list())
                &&& u.new_capacity == buffer_growth(
                    old(self).rectangles()@.instance_count,
                    old(self).rectangles()@.capacity,
                )
            },
            !old(self).rectangles()@.dirty ==> plan.rectangles is None,
            old(self).rectangles()@.dirty && old(self).rectangles()@.instance_count > old(
                self,
            ).rectangles()@.capacity ==> (plan.rectangles matches Some(u) && u.new_capacity == Some(
                (2 * old(self).rectangles()@.capacity) as usize,
            )),
            old(self).images()@.dirty && old(self).images()@.instances.len() > old(
                self,
            ).images()@.capacity ==> (plan.images matches Some(f) && f.update matches Some(u)
                && u.new_capacity == Some((2 * old(self).images()@.capacity) as usize)),
            final(self).rectangles()@.ranges == if old(self).rectangles()@.dirty {
                packed_ranges(old(self).rectangles()@.layers, old(self).layer_list(), old(self).rectangles()@.ranges)
            } else {
                old(self).rectangles()@.ranges
            },
            final(self).rectangles()@.layers == old(self).rectangles()@.layers,
            final(self).rectangles()@.slots == old(self).rectangles()@.slots,
            final(self).rectangles()@.instance_count == old(self).rectangles()@.instance_count,
            final(self).rectangles()@.capacity == if old(self).rectangles()@.dirty {
                grown_capacity(old(self).rectangles()@.instance_count, old(self).rectangles()@.capacity)
            } else {
                old(self).rectangles()@.capacity
            },
            !final(self).rectangles()@.dirty,
            plan.passes@.len() == old(self).layer_list().len(),
            forall|j: int| 0 <= j < plan.passes@.len() ==> {
                &&& #[trigger] plan.passes@[j].layer == old(self).layer_list()[j]
                &&& plan.passes@[j].rectangles == draw_range(final(self).rectangles()@.ranges, old(self).layer_list()[j].0)
            },
            old(self).images()@.instances.len() == 0 ==> plan.images is None,
            old(self).images()@.instances.len() > 0 ==> {
                &&& plan.images matches Some(f)
                &&& f.instance_count == old(self).images()@.instances.len() as u32
                &&& (old(self).images()@.dirty <==> f.update is Some)
                &&& f.update matches Some(u) ==> {
                    &&& u.packed@ == sorted_by_key(
                        keyed(old(self).images()@.instances, image_depth_keys@),
                    ).map_values(|e: (u32, I)| e.1)
                    &&& u.new_capacity == buffer_growth(
                        old(self).images()@.instances.len(),
                        old(self).images()@.capacity,
                    )
                }
                &&& final(self).images()@.capacity == if old(self).images()@.dirty {
                    grown_capacity(old(self).images()@.instances.len(), old(self).images()@.capacity)
                } else {
                    old(self).images()@.capacity
                }
            },
            final(self).images()@.instances == old(self).images()@.instances,
            final(self).images()@.slots == old(self).images()@.slots,
            old(self).images()@.instances.len() > 0 ==> !final(self).images()@.dirty,
            old(self).images()@.instances.len() == 0 ==> final(self).images()@ == old(self).images()@,
    {
        let rectangles = self.rectangle_batch.update_buffer(&self.layers);
        let images = self.image_batch.draw(image_depth_keys);
        let mut passes: Vec<LayerPass> = Vec::new();
        let mut i: usize = 0;
        while i < self.layers.len()
            invariant
                i <= self.layers.len(),
                passes@.len() == i,
                forall|j: int| 0 <= j < i ==> {
                    &&& #[trigger] passes@[j].layer == self.layers@[j]
                    &&& passes@[j].rectangles == draw_range(self.rectangle_batch@.ranges, self.layers@[j].0)
                },
            decreases self.layers.len() - i,
        {
            let layer = self.layers[i];
            let range = self.rectangle_batch.draw_layer(&layer);
            passes.push(LayerPass { layer, rectangles: range });
            i = i + 1;
        }
        DrawPlan { rectangles, images, passes }
    }
}

/// Adding a layer that is not listed and then removing it gives back the
/// list of layers as it was.
pub proof fn lemma_add_then_remove_layer(layers: Seq<LayerId>, layer: LayerId)
    requires
        layers.no_duplicates(),
        !layers.contains(layer),
    ensures
        layers.push(layer).contains(layer),
        layers.push(layer).remove(layers.push(layer).index_of(layer)) == layers,
{
    let added = layers.push(layer);
    assert(added[layers.len() as int] == layer);
    let j = added.index_of(layer);
    assert(added[j] == layer);
    if j < layers.len() {
        assert(layers[j] == layer);
    }
    assert(added.remove(j) =~= layers);
}

/// What `add_layer` and `remove_layer` make of a list without duplicates is
/// again a list without duplicates, whichever way they end, so a frame
/// draws every layer at most once.
pub proof fn lemma_layer_list_stays_distinct(layers: Seq<LayerId>, layer: LayerId)
    requires
        layers.no_duplicates(),
    ensures
        !layers.contains(layer) ==> layers.push(layer).no_duplicates(),
        layers.contains(layer) ==> layers.remove(layers.index_of(layer)).no_duplicates(),
{
    if !layers.contains(layer) {
        let added = layers.push(layer);
        assert forall|a: int, b: int| 0 <= a < b < added.len() implies added[a] != added[b] by {
            if b == layers.len() {
                assert(layers[a] == added[a]);
            }
        }
    } else {
        let i = layers.index_of(layer);
        let removed = layers.remove(i);
        assert forall|a: int, b: int| 0 <= a < b < removed.len() implies removed[a] != removed[b] by {
            let a0 = if a < i { a } else { a + 1 };
            let b0 = if b < i { b } else { b + 1 };
            assert(removed[a] == layers[a0]);
            assert(removed[b] == layers[b0]);
        }
    }
}

/// In a frame of a well-formed draw manager whose rectangle batch had
/// changed, each layer's pass selects exactly that layer's rectangles from
/// the packed rectangle buffer, as long as the buffer's indices fit `u32`.
pub proof fn lemma_passes_select_layers<R>(
    layers: Map<i32, Seq<R>>,
    order: Seq<LayerId>,
    ranges: Map<i32, (u32, u32)>,
    j: int,
)
    requires
        order.no_duplicates(),
        packed_instances(layers, order).len() <= u32::MAX,
        0 <= j < order.len(),
        layers.contains_key(order[j].0),
        layers[order[j].0].len() > 0,
    ensures
        draw_range(packed_ranges(layers, order, ranges), order[j].0) matches Some(r)
            && packed_instances(layers, order).subrange(r.0 as int, r.1 as int) == layers[order[j].0],
{
    assert(order.contains(LayerId(order[j].0)));
    lemma_packed_range_selects_layer(layers, order, ranges, order[j].0);
}

} // verus!
