use guillotiere::AtlasAllocator;
use vstd::prelude::*;

use crate::atlas::{
    atlas_alignment, atlas_allocate, atlas_allocation, atlas_deallocate, atlas_grow, atlas_new,
    atlas_node_count, atlas_node_limit, atlas_nodes_in_use, atlas_rects, atlas_size,
    rects_disjoint, Rect,
};
use crate::batch::SlotHandle;
use crate::slots::{
    canonical_key, region_entries, region_slots_get, region_slots_insert, region_slots_new,
    region_slots_remove, slot_map_room, AtlasRegion, RegionSlots,
};

verus! {

/// A handle to a texture kept in the atlas.
pub type TextureHandle = SlotHandle;

/// The empty border kept around every texture in the atlas, in texels.
pub const PAD: u32 = 1;

/// How many more allocator nodes one `add` may put in use: at most thirty
/// doublings of three nodes each and one allocation of four, rounded up.
pub const ADD_NODE_BUDGET: u32 = 128;

/// `x` doubled `n` times.
pub open spec fn doubled(x: int, n: nat) -> int
    decreases n,
{
    if n == 0 {
        x
    } else {
        2 * doubled(x, (n - 1) as nat)
    }
}

/// A texture's place grown by its border: the rectangle allocated for it.
pub open spec fn padded(r: AtlasRegion) -> Rect {
    ((r.0 - PAD) as i32, (r.1 - PAD) as i32, (r.2 + PAD) as i32, (r.3 + PAD) as i32)
}

/// What a texture manager holds, seen as mathematical values.
pub struct TextureView {
    /// Each texture's place: min x, min y, max x, max y, allocation id.
    pub regions: Map<u64, AtlasRegion>,
    /// The rectangles the allocator has handed out, by allocation id.
    pub allocations: Map<u32, Rect>,
    /// The size of the atlas texture, in texels.
    pub atlas_size: (u32, u32),
    /// The largest side the atlas texture may have.
    pub max_dimension: u32,
    /// How many nodes the allocator's tree is made of.
    pub nodes_in_use: nat,
}

impl TextureView {
    /// The manager holds a texture under `key`.
    pub open spec fn contains(self, key: u64) -> bool {
        self.regions.contains_key(canonical_key(key))
    }

    /// The place of the texture held under `key`.
    pub open spec fn region(self, key: u64) -> AtlasRegion {
        self.regions[canonical_key(key)]
    }

    /// Every texture lies inside the atlas with a border of `PAD` texels on
    /// each side, and is at least one texel wide and high.
    pub open spec fn regions_inside(self) -> bool {
        forall|k: u64| #[trigger]
            self.regions.contains_key(k) ==> {
                let r = self.regions[k];
                &&& PAD <= r.0 < r.2
                &&& PAD <= r.1 < r.3
                &&& r.2 + PAD <= self.atlas_size.0
                &&& r.3 + PAD <= self.atlas_size.1
            }
    }

    /// No two textures, with their borders, share a texel.
    pub open spec fn regions_apart(self) -> bool {
        forall|k1: u64, k2: u64|
            #[trigger] self.regions.contains_key(k1) && #[trigger] self.regions.contains_key(k2)
                && k1 != k2 ==> rects_disjoint(padded(self.regions[k1]), padded(self.regions[k2]))
    }

    /// Each texture sits in the rectangle allocated for it, shrunk by its border.
    pub open spec fn regions_allocated(self) -> bool {
        forall|k: u64| #[trigger]
            self.regions.contains_key(k) ==> self.allocations.contains_key(self.regions[k].4)
                && self.allocations[self.regions[k].4] == padded(self.regions[k])
    }
}

/// Some allocator of `size` holding exactly `allocations` had no room for a
/// `width` by `height` texture and its border.
pub open spec fn refused_at(allocations: Map<u32, Rect>, size: (u32, u32), width: u32, height: u32) -> bool {
    exists|a: AtlasAllocator|
        #[trigger] atlas_allocation(a, (width + 2 * PAD) as i32, (height + 2 * PAD) as i32) is None
            && atlas_size(a) == (size.0 as i32, size.1 as i32) && atlas_rects(a) == allocations
}

/// What adding a texture came to.
pub enum AddOutcome {
    /// The texture has no texel; nothing was added.
    Empty,
    /// The texture was given a place. Its texels go to the atlas at
    /// (`origin_x`, `origin_y`); when `grown_to` is `Some`, the atlas texture
    /// first has to grow to that size, keeping its contents.
    Placed { handle: TextureHandle, origin_x: u32, origin_y: u32, grown_to: Option<(u32, u32)> },
    /// The atlas would have to grow beyond the largest size allowed; it may
    /// have grown to `grown_to` on the way.
    TooLarge { grown_to: Option<(u32, u32)> },
}

/// Packs textures into one atlas texture, keeping a border around each, and
/// doubles the atlas whenever a texture does not fit.
pub struct TextureManager {
    allocator: AtlasAllocator,
    regions: RegionSlots,
    texture_count: usize,
    atlas_size: (u32, u32),
    max_dimension: u32,
}

impl View for TextureManager {
    type V = TextureView;

    closed spec fn view(&self) -> TextureView {
        TextureView {
            regions: region_entries(self.regions),
            allocations: atlas_rects(self.allocator),
            atlas_size: self.atlas_size,
            max_dimension: self.max_dimension,
            nodes_in_use: atlas_nodes_in_use(self.allocator),
        }
    }
}

/// Doubling 1 thirty-one times or more passes `i32::MAX`.
proof fn lemma_doubled_passes_i32(n: nat)
    requires
        n >= 31,
    ensures
        doubled(1, n) > i32::MAX,
    decreases n,
{
    if n > 31 {
        lemma_doubled_passes_i32((n - 1) as nat);
    } else {
        reveal_with_fuel(doubled, 32);
    }
}

impl TextureManager {
    /// Nothing was ever placed: the allocator is still the single free
    /// rectangle covering the atlas.
    pub closed spec fn is_fresh(&self) -> bool {
        &&& atlas_node_count(self.allocator) <= 1
        &&& atlas_rects(self.allocator).dom().is_empty()
        &&& forall|w: i32, h: i32|
            0 < w <= atlas_size(self.allocator).0 && 0 < h <= atlas_size(self.allocator).1
                ==> (#[trigger] atlas_allocation(self.allocator, w, h)) is Some
    }

    /// A `width` by `height` texture and its border find room in the atlas
    /// as it is, without growing it.
    pub closed spec fn fits(&self, width: u32, height: u32) -> bool {
        atlas_allocation(self.allocator, (width + 2 * PAD) as i32, (height + 2 * PAD) as i32) is Some
    }

    /// The allocator mirrors the atlas and holds exactly the textures' allocations.
    pub closed spec fn wf(&self) -> bool {
        &&& self.wf_shape()
        &&& forall|id: u32| #[trigger]
            atlas_rects(self.allocator).contains_key(id) <==> self.holds_allocation(id)
    }

    /// Some texture is kept in the allocation `id`.
    spec fn holds_allocation(&self, id: u32) -> bool {
        exists|k: u64| #[trigger] self@.regions.contains_key(k) && self@.regions[k].4 == id
    }

    /// Everything `wf` asks but that every allocation holds a texture.
    spec fn wf_shape(&self) -> bool {
        &&& self@.regions_inside()
        &&& self@.regions_allocated()
        &&& self@.regions.dom().finite()
        &&& self.texture_count == self@.regions.dom().len()
        &&& forall|k: u64| #[trigger] self@.regions.contains_key(k) ==> canonical_key(k) == k
        &&& 1 <= self.atlas_size.0 <= i32::MAX
        &&& 1 <= self.atlas_size.1 <= i32::MAX
        &&& self.max_dimension <= i32::MAX
        &&& atlas_size(self.allocator) == (self.atlas_size.0 as i32, self.atlas_size.1 as i32)
        &&& atlas_alignment(self.allocator) == (1i32, 1i32)
        &&& atlas_node_count(self.allocator) <= atlas_node_limit()
        &&& forall|id1: u32, id2: u32|
            #[trigger] atlas_rects(self.allocator).contains_key(id1) && #[trigger] atlas_rects(
                self.allocator,
            ).contains_key(id2) && id1 != id2 ==> rects_disjoint(
                atlas_rects(self.allocator)[id1],
                atlas_rects(self.allocator)[id2],
            )
        &&& forall|k1: u64, k2: u64|
            #[trigger] self@.regions.contains_key(k1) && #[trigger] self@.regions.contains_key(k2)
                && self@.regions[k1].4 == self@.regions[k2].4 ==> k1 == k2
    }

    /// A well-formed manager keeps every texture inside the atlas, in its
    /// own allocation, apart from every other texture.
    pub proof fn lemma_wf_regions(&self)
        requires
            self.wf(),
        ensures
            self@.regions_inside(),
            self@.regions_allocated(),
            self@.regions_apart(),
    {
        assert forall|k1: u64, k2: u64|
            #[trigger] self@.regions.contains_key(k1) && #[trigger] self@.regions.contains_key(k2)
                && k1 != k2 implies rects_disjoint(padded(self@.regions[k1]), padded(self@.regions[k2])) by {
            let id1 = self@.regions[k1].4;
            let id2 = self@.regions[k2].4;
            assert(atlas_rects(self.allocator).contains_key(id1));
            assert(atlas_rects(self.allocator).contains_key(id2));
        }
    }

    /// An empty atlas of `start_width` by `start_height` texels that may
    /// grow to sides of `max_dimension` texels. The allocator asserts that
    /// both sides are positive.
    pub fn new(start_width: u32, start_height: u32, max_dimension: u32) -> (manager: Self)
        requires
            1 <= start_width <= i32::MAX,
            1 <= start_height <= i32::MAX,
            max_dimension <= i32::MAX,
        ensures
            manager.wf(),
            manager@.regions.dom().is_empty(),
            manager@.allocations.dom().is_empty(),
            manager@.atlas_size == (start_width, start_height),
            manager@.max_dimension == max_dimension,
            manager@.nodes_in_use == 1,
            manager.is_fresh(),
            forall|w: u32, h: u32|
                0 < w && 0 < h && w + 2 * PAD <= start_width && h + 2 * PAD <= start_height
                    ==> #[trigger] manager.fits(w, h),
    {
        TextureManager {
            allocator: atlas_new(start_width as i32, start_height as i32),
            regions: region_slots_new(),
            texture_count: 0,
            atlas_size: (start_width, start_height),
            max_dimension,
        }
    }

    /// Gives a `width` by `height` texture a place in the atlas, doubling
    /// the atlas until the texture and its border fit. The atlas grows only
    /// when the texture does not fit it as it is. The allocator numbers its
    /// nodes with 24 bits, so it needs room for the nodes one call may put
    /// in use.
    pub fn add(&mut self, width: u32, height: u32) -> (outcome: AddOutcome)
        requires
            old(self).wf(),
            width <= i32::MAX - 2 * PAD,
            height <= i32::MAX - 2 * PAD,
            slot_map_room(old(self)@.regions.dom().len()),
            old(self)@.nodes_in_use + ADD_NODE_BUDGET <= atlas_node_limit(),
        ensures
            final(self).wf(),
            final(self)@.regions_inside(),
            final(self)@.regions_allocated(),
            final(self)@.regions_apart(),
            final(self)@.max_dimension == old(self)@.max_dimension,
            final(self)@.nodes_in_use <= old(self)@.nodes_in_use + ADD_NODE_BUDGET,
            (width == 0 || height == 0) ==> outcome is Empty && final(self)@ == old(self)@,
            outcome is Empty ==> width == 0 || height == 0,
            0 < width && 0 < height ==> (old(self).fits(width, height) <==> (
            outcome matches AddOutcome::Placed { grown_to, .. } && grown_to is None)),
            match outcome {
                AddOutcome::Empty => true,
                AddOutcome::Placed { handle, origin_x, origin_y, grown_to } => {
                    let r = final(self)@.region(handle.key);
                    &&& !old(self)@.contains(handle.key)
                    &&& canonical_key(handle.key) == handle.key
                    &&& final(self)@.regions == old(self)@.regions.insert(handle.key, r)
                    &&& !old(self)@.allocations.contains_key(r.4)
                    &&& final(self)@.allocations == old(self)@.allocations.insert(r.4, padded(r))
                    &&& r.2 - r.0 == width
                    &&& r.3 - r.1 == height
                    &&& origin_x == r.0
                    &&& origin_y == r.1
                    &&& grown_to is None ==> final(self)@.atlas_size == old(self)@.atlas_size
                    &&& grown_to matches Some(s) ==> final(self)@.atlas_size == s && s.0
                        <= final(self)@.max_dimension && s.1 <= final(self)@.max_dimension
                    &&& grown_to matches Some(s) ==> refused_at(
                        old(self)@.allocations,
                        ((s.0 / 2) as u32, (s.1 / 2) as u32),
                        width,
                        height,
                    )
                    &&& grown_to matches Some(s) ==> old(self).is_fresh() ==> 2 * (width + 2 * PAD) > s.0
                        || 2 * (height + 2 * PAD) > s.1
                    &&& grown_to matches Some(s) ==> ((s.0 == 2 * old(self)@.atlas_size.0 && s.1 == 2
                        * old(self)@.atlas_size.1) || 4 * (width + 2 * PAD) > s.0 || 4 * (height + 2 * PAD) > s.1)
                },
                AddOutcome::TooLarge { grown_to } => {
                    &&& !final(self).fits(width, height)
                    &&& grown_to matches Some(s) ==> 2 * (width + 2 * PAD) > s.0 || 2 * (height + 2
                        * PAD) > s.1
                    &&& final(self)@.regions == old(self)@.regions
                    &&& final(self)@.allocations == old(self)@.allocations
                    &&& grown_to is None ==> final(self)@.atlas_size == old(self)@.atlas_size
                    &&& grown_to matches Some(s) ==> final(self)@.atlas_size == s && s.0
                        <= final(self)@.max_dimension && s.1 <= final(self)@.max_dimension
                    &&& (final(self)@.atlas_size.0 * 2 > final(self)@.max_dimension
                        || final(self)@.atlas_size.1 * 2 > final(self)@.max_dimension)
                },
            },
            exists|n: nat|
                final(self)@.atlas_size.0 == doubled(old(self)@.atlas_size.0 as int, n)
                    && final(self)@.atlas_size.1 == doubled(old(self)@.atlas_size.1 as int, n),
            final(self)@.atlas_size.0 >= old(self)@.atlas_size.0,
            final(self)@.atlas_size.1 >= old(self)@.atlas_size.1,
    {
        if width == 0 || height == 0 {
            proof {
                assert(doubled(old(self)@.atlas_size.0 as int, 0) == old(self)@.atlas_size.0);
                assert(doubled(old(self)@.atlas_size.1 as int, 0) == old(self)@.atlas_size.1);
            }
            proof {
                self.lemma_wf_regions();
            }
            return AddOutcome::Empty;
        }
        let padded_width = width + 2 * PAD;
        let padded_height = height + 2 * PAD;
        let mut grown_to: Option<(u32, u32)> = None;
        let ghost mut steps: nat = 0;
        let mut allocation: (u32, i32, i32, i32, i32) = (0, 0, 0, 0, 0);
        loop
            invariant_except_break
                self.wf(),
                atlas_rects(self.allocator) == old(self)@.allocations,
                self@.nodes_in_use <= old(self)@.nodes_in_use + 3 * steps,
                grown_to is None ==> self.allocator == old(self).allocator,
                grown_to is Some ==> !old(self).fits(width, height),
                atlas_alignment(self.allocator) == (1i32, 1i32),
                steps >= 1 ==> forall|w: i32, h: i32|
                    0 < w && 2 * w <= self@.atlas_size.0 && 0 < h && 2 * h <= self@.atlas_size.1
                        ==> (#[trigger] atlas_allocation(self.allocator, w, h)) is Some,
                old(self).is_fresh() ==> {
                    &&& atlas_node_count(self.allocator) <= 1
                    &&& atlas_rects(self.allocator).dom().is_empty()
                    &&& forall|w: i32, h: i32|
                        0 < w <= self@.atlas_size.0 && 0 < h <= self@.atlas_size.1
                            ==> (#[trigger] atlas_allocation(self.allocator, w, h)) is Some
                },
            invariant
                self.wf_shape(),
                self@.regions == old(self)@.regions,
                self@.max_dimension == old(self)@.max_dimension,
                padded_width == width + 2 * PAD,
                padded_height == height + 2 * PAD,
                1 <= width <= i32::MAX - 2 * PAD,
                1 <= height <= i32::MAX - 2 * PAD,
                grown_to is None ==> self@.atlas_size == old(self)@.atlas_size && steps == 0,
                grown_to matches Some(s) ==> self@.atlas_size == s && s.0 <= self.max_dimension
                    && s.1 <= self.max_dimension,
                self@.atlas_size.0 == doubled(old(self)@.atlas_size.0 as int, steps),
                self@.atlas_size.1 == doubled(old(self)@.atlas_size.1 as int, steps),
                self@.atlas_size.0 >= old(self)@.atlas_size.0,
                self@.atlas_size.1 >= old(self)@.atlas_size.1,
                doubled(1, steps) <= self@.atlas_size.0,
                steps <= 30,
                grown_to is Some ==> steps >= 1,
                steps >= 2 ==> 4 * padded_width > self@.atlas_size.0 || 4 * padded_height
                    > self@.atlas_size.1,
                grown_to matches Some(s) ==> refused_at(
                    old(self)@.allocations,
                    ((s.0 / 2) as u32, (s.1 / 2) as u32),
                    width,
                    height,
                ),
                grown_to matches Some(s) ==> old(self).is_fresh() ==> 2 * padded_width > s.0 || 2
                    * padded_height > s.1,
                old(self)@.nodes_in_use + ADD_NODE_BUDGET <= atlas_node_limit(),
            ensures
                self.wf_shape(),
                forall|id: u32| #[trigger]
                    atlas_rects(self.allocator).contains_key(id) <==> (id == allocation.0
                        || self.holds_allocation(id)),
                !self.holds_allocation(allocation.0),
                self@.regions == old(self)@.regions,
                !old(self)@.allocations.contains_key(allocation.0),
                self@.allocations == old(self)@.allocations.insert(
                    allocation.0,
                    (allocation.1, allocation.2, allocation.3, allocation.4),
                ),
                self@.max_dimension == old(self)@.max_dimension,
                grown_to is None ==> self@.atlas_size == old(self)@.atlas_size,
                grown_to matches Some(s) ==> self@.atlas_size == s && s.0 <= self.max_dimension
                    && s.1 <= self.max_dimension,
                self@.atlas_size.0 == doubled(old(self)@.atlas_size.0 as int, steps),
                self@.atlas_size.1 == doubled(old(self)@.atlas_size.1 as int, steps),
                self@.atlas_size.0 >= old(self)@.atlas_size.0,
                self@.atlas_size.1 >= old(self)@.atlas_size.1,
                self@.nodes_in_use <= old(self)@.nodes_in_use + ADD_NODE_BUDGET,
                grown_to is None <==> old(self).fits(width, height),
                grown_to is Some ==> steps >= 1,
                steps >= 2 ==> 4 * padded_width > self@.atlas_size.0 || 4 * padded_height
                    > self@.atlas_size.1,
                grown_to matches Some(s) ==> refused_at(
                    old(self)@.allocations,
                    ((s.0 / 2) as u32, (s.1 / 2) as u32),
                    width,
                    height,
                ),
                grown_to matches Some(s) ==> old(self).is_fresh() ==> 2 * padded_width > s.0 || 2
                    * padded_height > s.1,
                allocation.3 - allocation.1 == padded_width,
                allocation.4 - allocation.2 == padded_height,
                0 <= allocation.1,
                0 <= allocation.2,
                allocation.3 <= self@.atlas_size.0,
                allocation.4 <= self@.atlas_size.1,
                forall|id: u32| #[trigger]
                    old(self)@.allocations.contains_key(id) ==> rects_disjoint(
                        old(self)@.allocations[id],
                        (allocation.1, allocation.2, allocation.3, allocation.4),
                    ),
            decreases i32::MAX - self.atlas_size.0,
        {
            let ghost before = self.allocator;
            match atlas_allocate(&mut self.allocator, padded_width as i32, padded_height as i32) {
                Some(a) => {
                    allocation = a;
                    proof {
                        assert(atlas_rects(before).insert(a.0, (a.1, a.2, a.3, a.4)).dom()
                            =~= atlas_rects(before).dom().insert(a.0));
                    }
                    break;
                },
                None => {
                    let new_width = self.atlas_size.0 * 2;
                    let new_height = self.atlas_size.1 * 2;
                    proof {
                        assert(atlas_allocation(before, padded_width as i32, padded_height as i32) is None);
                        assert(refused_at(old(self)@.allocations, self@.atlas_size, width, height));
                    }
                    if new_width > self.max_dimension || new_height > self.max_dimension {
                        proof {
                            self.lemma_wf_regions();
                        }
                        return AddOutcome::TooLarge { grown_to };
                    }
                    proof {
                        if steps >= 30 {
                            lemma_doubled_passes_i32(steps + 1);
                        }
                    }
                    atlas_grow(&mut self.allocator, new_width as i32, new_height as i32);
                    self.atlas_size = (new_width, new_height);
                    grown_to = Some((new_width, new_height));
                    proof {
                        steps = steps + 1;
                    }
                },
            }
        }
        let region: AtlasRegion = (
            allocation.1 + PAD as i32,
            allocation.2 + PAD as i32,
            allocation.3 - PAD as i32,
            allocation.4 - PAD as i32,
            allocation.0,
        );
        let ghost pre = self@;
        let key = region_slots_insert(&mut self.regions, region);
        self.texture_count = self.texture_count + 1;
        proof {
            let post = self@;
            assert(padded(region) == (allocation.1, allocation.2, allocation.3, allocation.4));
            assert forall|id: u32| #[trigger] self.holds_allocation(id) implies atlas_rects(
                self.allocator,
            ).contains_key(id) by {
                let k = choose|k: u64| #[trigger] post.regions.contains_key(k) && post.regions[k].4 == id;
                if k != key {
                    assert(pre.regions.contains_key(k));
                }
            }
            assert forall|id: u32| #[trigger]
                atlas_rects(self.allocator).contains_key(id) implies self.holds_allocation(id) by {
                if id == allocation.0 {
                    assert(post.regions.contains_key(key));
                } else {
                    let k = choose|k: u64| #[trigger] pre.regions.contains_key(k) && pre.regions[k].4 == id;
                    assert(post.regions.contains_key(k));
                }
            }
            assert forall|k1: u64, k2: u64|
                #[trigger] post.regions.contains_key(k1) && #[trigger] post.regions.contains_key(k2)
                    && post.regions[k1].4 == post.regions[k2].4 implies k1 == k2 by {
                if k1 == key && k2 != key {
                    assert(pre.regions.contains_key(k2));
                }
                if k2 == key && k1 != key {
                    assert(pre.regions.contains_key(k1));
                }
            }
            assert forall|k: u64| #[trigger] post.regions.contains_key(k) implies post.allocations.contains_key(
                post.regions[k].4,
            ) && post.allocations[post.regions[k].4] == padded(post.regions[k]) by {
                if k != key {
                    assert(pre.regions.contains_key(k));
                    assert(pre.regions[k].4 != allocation.0);
                }
            }
            assert forall|id1: u32, id2: u32|
                #[trigger] post.allocations.contains_key(id1) && #[trigger] post.allocations.contains_key(id2)
                    && id1 != id2 implies rects_disjoint(post.allocations[id1], post.allocations[id2]) by {
                if id1 == allocation.0 {
                    assert(old(self)@.allocations.contains_key(id2));
                } else if id2 == allocation.0 {
                    assert(old(self)@.allocations.contains_key(id1));
                } else {
                    assert(old(self)@.allocations.contains_key(id1));
                    assert(old(self)@.allocations.contains_key(id2));
                }
            }
        }
        proof {
            self.lemma_wf_regions();
            reveal_with_fuel(doubled, 2);
        }
        AddOutcome::Placed {
            handle: SlotHandle { key },
            origin_x: allocation.1 as u32 + PAD,
            origin_y: allocation.2 as u32 + PAD,
            grown_to,
        }
    }

    /// Takes the texture under `handle`, if there is one, out of the atlas
    /// and gives its allocation back to the allocator; a texture of the same
    /// size then fits the atlas without growing it.
    pub fn remove(&mut self, handle: TextureHandle)
        requires
            old(self).wf(),
        ensures
            final(self).wf(),
            final(self)@.regions_inside(),
            final(self)@.regions_allocated(),
            final(self)@.regions_apart(),
            final(self)@.regions == old(self)@.regions.remove(canonical_key(handle.key)),
            old(self)@.contains(handle.key) ==> final(self)@.allocations == old(self)@.allocations.remove(
                old(self)@.region(handle.key).4,
            ),
            old(self)@.contains(handle.key) ==> final(self).fits(
                (old(self)@.region(handle.key).2 - old(self)@.region(handle.key).0) as u32,
                (old(self)@.region(handle.key).3 - old(self)@.region(handle.key).1) as u32,
            ),
            !old(self)@.contains(handle.key) ==> final(self)@ == old(self)@,
            final(self)@.atlas_size == old(self)@.atlas_size,
            final(self)@.max_dimension == old(self)@.max_dimension,
            final(self)@.nodes_in_use <= old(self)@.nodes_in_use,
    {
        match region_slots_remove(&mut self.regions, handle.key) {
            Some(region) => {
                proof {
                    assert(old(self)@.regions.contains_key(canonical_key(handle.key)));
                }
                atlas_deallocate(&mut self.allocator, region.4);
                self.texture_count = self.texture_count - 1;
                proof {
                    let pre = old(self)@;
                    let post = self@;
                    let c = canonical_key(handle.key);
                    assert forall|id: u32| #[trigger]
                        atlas_rects(self.allocator).contains_key(id) <==> self.holds_allocation(id) by {
                        if atlas_rects(self.allocator).contains_key(id) {
                            let k = choose|k: u64| #[trigger] pre.regions.contains_key(k) && pre.regions[k].4 == id;
                            assert(k != c);
                            assert(post.regions.contains_key(k));
                        }
                        if self.holds_allocation(id) {
                            let k = choose|k: u64| #[trigger] post.regions.contains_key(k) && post.regions[k].4 == id;
                            assert(pre.regions.contains_key(k));
                            assert(k != c);
                            assert(atlas_rects(old(self).allocator).contains_key(id));
                        }
                    }
                    assert forall|k: u64| #[trigger] post.regions.contains_key(k) implies post.allocations.contains_key(
                        post.regions[k].4,
                    ) && post.allocations[post.regions[k].4] == padded(post.regions[k]) by {
                        assert(pre.regions.contains_key(k));
                        assert(k != c);
                        assert(pre.regions[k].4 != region.4);
                    }
                }
            },
            None => {
                proof {
                    assert(region_entries(self.regions) =~= region_entries(old(self).regions));
                }
            },
        }
        proof {
            self.lemma_wf_regions();
        }
    }

    /// The place of the texture under `handle`: (min x, min y, max x, max y).
    pub fn rect(&self, handle: TextureHandle) -> (rect: Option<(i32, i32, i32, i32)>)
        ensures
            rect == if self@.contains(handle.key) {
                let r = self@.region(handle.key);
                Some((r.0, r.1, r.2, r.3))
            } else {
                None
            },
    {
        match region_slots_get(&self.regions, handle.key) {
            Some(r) => Some((r.0, r.1, r.2, r.3)),
            None => None,
        }
    }

    /// The width and height of the texture under `handle`.
    pub fn size(&self, handle: TextureHandle) -> (size: Option<(i32, i32)>)
        requires
            self.wf(),
        ensures
            size == if self@.contains(handle.key) {
                let r = self@.region(handle.key);
                Some(((r.2 - r.0) as i32, (r.3 - r.1) as i32))
            } else {
                None
            },
    {
        match region_slots_get(&self.regions, handle.key) {
            Some(r) => {
                proof {
                    assert(self@.regions.contains_key(canonical_key(handle.key)));
                }
                Some((r.2 - r.0, r.3 - r.1))
            },
            None => None,
        }
    }

    /// How many textures the atlas holds.
    pub fn texture_count(&self) -> (count: usize)
        requires
            self.wf(),
        ensures
            count == self@.regions.dom().len(),
    {
        self.texture_count
    }

    /// The size of the atlas texture.
    pub fn atlas_size(&self) -> (size: (u32, u32))
        ensures
            size == self@.atlas_size,
    {
        self.atlas_size
    }
}

} // verus!

verus! {

/// Placing a texture and then removing it through the handle it was given
/// leaves the same textures in the atlas as before.
pub proof fn lemma_add_then_remove_texture(
    before: Map<u64, AtlasRegion>,
    key: u64,
    region: AtlasRegion,
)
    requires
        !before.contains_key(key),
        canonical_key(key) == key,
    ensures
        before.insert(key, region).remove(canonical_key(key)) == before,
{
    assert(before.insert(key, region).remove(key) =~= before);
}

} // verus!
