use guillotiere::{size2, AllocId, AtlasAllocator};
use vstd::prelude::*;

verus! {

/// `guillotiere::AtlasAllocator`, seen only through the names below.
#[verifier::external_type_specification]
#[verifier::external_body]
pub struct ExAtlasAllocator(AtlasAllocator);

/// A rectangle: min x, min y, max x, max y.
pub type Rect = (i32, i32, i32, i32);

/// The size of the area an atlas allocator hands out rectangles from.
pub uninterp spec fn atlas_size(a: AtlasAllocator) -> (i32, i32);

/// The alignment that an atlas allocator rounds requested sizes up to.
pub uninterp spec fn atlas_alignment(a: AtlasAllocator) -> (i32, i32);

/// The rectangles an atlas allocator has handed out and not taken back,
/// by id (`AllocId::serialize`).
pub uninterp spec fn atlas_rects(a: AtlasAllocator) -> Map<u32, Rect>;

/// How many nodes an atlas allocator's node vector holds, in use or not
/// (the vector never shrinks).
pub uninterp spec fn atlas_node_count(a: AtlasAllocator) -> nat;

/// How many nodes of an atlas allocator's node vector belong to its tree
/// (those not of kind `Unused`).
pub uninterp spec fn atlas_nodes_in_use(a: AtlasAllocator) -> nat;

/// What `AtlasAllocator::allocate` hands out for a `width` by `height`
/// request: (id, min x, min y, max x, max y), or nothing.
pub uninterp spec fn atlas_allocation(a: AtlasAllocator, width: i32, height: i32) -> Option<AtlasAllocation>;

/// The allocator turns a node index into an id by adding the node's
/// generation shifted left by 24 bits, so ids stay distinct only while
/// every node index fits 24 bits.
pub open spec fn atlas_node_limit() -> nat {
    0x100_0000nat
}

/// The two rectangles share no texel.
pub open spec fn rects_disjoint(a: Rect, b: Rect) -> bool {
    a.2 <= b.0 || b.2 <= a.0 || a.3 <= b.1 || b.3 <= a.1
}

/// A rectangle handed out by an atlas allocator: (id, min x, min y, max x, max y).
pub type AtlasAllocation = (u32, i32, i32, i32, i32);

/// `AtlasAllocator::new` with the default options: alignment (1, 1), one
/// free node covering the atlas, nothing allocated, so any request that
/// fits the atlas gets a rectangle. It asserts that both sides are positive.
#[verifier::external_body]
pub(crate) fn atlas_new(width: i32, height: i32) -> (result: AtlasAllocator)
    requires
        width > 0,
        height > 0,
    ensures
        atlas_size(result) == (width, height),
        atlas_alignment(result) == (1i32, 1i32),
        atlas_rects(result).dom().is_empty(),
        atlas_node_count(result) == 1,
        atlas_nodes_in_use(result) == 1,
        forall|w: i32, h: i32|
            0 < w <= width && 0 < h <= height ==> (#[trigger] atlas_allocation(result, w, h)) is Some,
{
    AtlasAllocator::new(size2(width, height))
}

/// `AtlasAllocator::allocate`. It returns what `atlas_allocation` names. An
/// empty size gets nothing. A rectangle it hands out has the requested size
/// rounded up to the alignment (exactly the requested size with alignment
/// (1, 1)), lies inside the atlas, shares no texel with a live rectangle and
/// gets an id that no live rectangle has. It puts at most four more nodes in
/// use and takes unused nodes before it lengthens the node vector, so the
/// vector grows only up to the nodes in use. While every node index fits 24
/// bits, ids stay distinct (beyond, a debug build panics). When there is no
/// room it changes neither the rectangles nor the nodes, and asking again
/// finds no room either (it only drops stale entries from its free lists).
/// Which requests find room is otherwise left to the name.
#[verifier::external_body]
pub(crate) fn atlas_allocate(a: &mut AtlasAllocator, width: i32, height: i32) -> (result: Option<AtlasAllocation>)
    requires
        atlas_alignment(*old(a)) == (1i32, 1i32),
        atlas_nodes_in_use(*old(a)) + 4 <= atlas_node_limit(),
        atlas_node_count(*old(a)) <= atlas_node_limit(),
    ensures
        result == atlas_allocation(*old(a), width, height),
        atlas_size(*final(a)) == atlas_size(*old(a)),
        atlas_alignment(*final(a)) == atlas_alignment(*old(a)),
        atlas_nodes_in_use(*final(a)) <= atlas_nodes_in_use(*old(a)) + 4,
        atlas_node_count(*final(a)) <= atlas_node_count(*old(a)) || atlas_node_count(*final(a))
            <= atlas_nodes_in_use(*final(a)),
        !(width > 0 && height > 0) ==> result is None,
        result is None ==> {
            &&& atlas_allocation(*final(a), width, height) is None
            &&& atlas_rects(*final(a)) == atlas_rects(*old(a))
            &&& atlas_node_count(*final(a)) == atlas_node_count(*old(a))
            &&& atlas_nodes_in_use(*final(a)) == atlas_nodes_in_use(*old(a))
        },
        result matches Some(r) ==> {
            &&& !atlas_rects(*old(a)).dom().contains(r.0)
            &&& atlas_rects(*final(a)) == atlas_rects(*old(a)).insert(r.0, (r.1, r.2, r.3, r.4))
            &&& r.3 - r.1 == width
            &&& r.4 - r.2 == height
            &&& 0 <= r.1
            &&& 0 <= r.2
            &&& r.3 <= atlas_size(*old(a)).0
            &&& r.4 <= atlas_size(*old(a)).1
            &&& forall|id: u32| #[trigger]
                atlas_rects(*old(a)).dom().contains(id) ==> rects_disjoint(
                    atlas_rects(*old(a))[id],
                    (r.1, r.2, r.3, r.4),
                )
        },
{
    a.allocate(size2(width, height)).map(
        |alloc| (alloc.id.serialize(), alloc.rectangle.min.x, alloc.rectangle.min.y, alloc.rectangle.max.x, alloc.rectangle.max.y),
    )
}

/// `AtlasAllocator::deallocate` with `AllocId::deserialize(id)`. It asserts
/// that the id names a live rectangle. It merges freed nodes and marks them
/// unused, so no more nodes are in use than before, and the node vector
/// keeps its length. The freed rectangle ends up in a free node at least as
/// large, listed among the free rectangles, so a request of its size finds
/// room again.
#[verifier::external_body]
pub(crate) fn atlas_deallocate(a: &mut AtlasAllocator, id: u32)
    requires
        atlas_rects(*old(a)).dom().contains(id),
        atlas_node_count(*old(a)) <= atlas_node_limit(),
    ensures
        atlas_rects(*final(a)) == atlas_rects(*old(a)).remove(id),
        atlas_size(*final(a)) == atlas_size(*old(a)),
        atlas_alignment(*final(a)) == atlas_alignment(*old(a)),
        atlas_node_count(*final(a)) == atlas_node_count(*old(a)),
        atlas_nodes_in_use(*final(a)) <= atlas_nodes_in_use(*old(a)),
        atlas_alignment(*old(a)) == (1i32, 1i32) ==> atlas_allocation(
            *final(a),
            (atlas_rects(*old(a))[id].2 - atlas_rects(*old(a))[id].0) as i32,
            (atlas_rects(*old(a))[id].3 - atlas_rects(*old(a))[id].1) as i32,
        ) is Some,
{
    a.deallocate(AllocId::deserialize(id))
}

/// `AtlasAllocator::grow`: the atlas gets the new size and keeps what it
/// handed out where it was. It puts at most three more nodes in use (none
/// when the atlas is still the single free node it started as) and takes
/// unused nodes before it lengthens the node vector. It asserts that neither
/// side shrinks. When both sides double, the added area holds a free
/// rectangle at least as large as the old atlas, listed among the free
/// rectangles, so any request that fits the old size finds room. An atlas
/// that is still its single free node with nothing handed out just grows
/// that node, so any request that fits the new size finds room.
#[verifier::external_body]
pub(crate) fn atlas_grow(a: &mut AtlasAllocator, width: i32, height: i32)
    requires
        width >= atlas_size(*old(a)).0,
        height >= atlas_size(*old(a)).1,
        atlas_nodes_in_use(*old(a)) + 3 <= atlas_node_limit(),
        atlas_node_count(*old(a)) <= atlas_node_limit(),
    ensures
        atlas_size(*final(a)) == (width, height),
        atlas_alignment(*final(a)) == atlas_alignment(*old(a)),
        atlas_rects(*final(a)) == atlas_rects(*old(a)),
        atlas_nodes_in_use(*final(a)) <= atlas_nodes_in_use(*old(a)) + 3,
        atlas_node_count(*final(a)) <= atlas_node_count(*old(a)) || atlas_node_count(*final(a))
            <= atlas_nodes_in_use(*final(a)),
        (atlas_alignment(*old(a)) == (1i32, 1i32) && width == 2 * atlas_size(*old(a)).0 && height == 2
            * atlas_size(*old(a)).1) ==> forall|w: i32, h: i32|
            0 < w <= atlas_size(*old(a)).0 && 0 < h <= atlas_size(*old(a)).1 ==> (
            #[trigger] atlas_allocation(*final(a), w, h)) is Some,
        (atlas_node_count(*old(a)) <= 1 && atlas_rects(*old(a)).dom().is_empty()) ==> {
            &&& atlas_node_count(*final(a)) == atlas_node_count(*old(a))
            &&& atlas_alignment(*old(a)) == (1i32, 1i32) ==> forall|w: i32, h: i32|
                0 < w <= width && 0 < h <= height ==> (#[trigger] atlas_allocation(*final(a), w, h)) is Some
        },
{
    a.grow(size2(width, height))
}

} // verus!
