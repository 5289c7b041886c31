use vstd::prelude::*;
use slotmap::{DefaultKey, Key, KeyData, SlotMap};

verus! {

/// The value under which a slot map finds an entry when it is handed the
/// 64-bit key `raw`: `KeyData::from_ffi` forces the version to be odd, and
/// `KeyData::as_ffi` gives the result back as 64 bits.
pub open spec fn canonical_key(raw: u64) -> u64 {
    raw | 0x1_0000_0000u64
}

/// A slot map hands out new keys only while it holds fewer entries than this.
pub open spec fn slot_map_room(len: nat) -> bool {
    len < 0xFFFF_FFFEnat
}

/// Where a batch keeps an instance: the raw layer id and the index in that layer.
pub type LayerSlot = (i32, usize);

/// A `slotmap::SlotMap` from handles to batch slots.
#[verifier::external_body]
pub struct LayerSlots {
    map: SlotMap<DefaultKey, LayerSlot>,
}

/// The entries of a slot map of batch slots, keyed by `KeyData::as_ffi`.
pub uninterp spec fn layer_slot_entries(m: LayerSlots) -> Map<u64, LayerSlot>;

/// `SlotMap::with_key`: an empty slot map.
#[verifier::external_body]
pub(crate) fn layer_slots_new() -> (result: LayerSlots)
    ensures
        layer_slot_entries(result).dom() == Set::<u64>::empty(),
{
    LayerSlots { map: SlotMap::with_key() }
}

/// `SlotMap::insert`: stores `value` under a key that no entry has, and
/// returns that key as `as_ffi` gives it. The map only panics when it is full,
/// which the room requirement rules out.
#[verifier::external_body]
pub(crate) fn layer_slots_insert(slots: &mut LayerSlots, value: LayerSlot) -> (key: u64)
    requires
        layer_slot_entries(*old(slots)).dom().finite(),
        slot_map_room(layer_slot_entries(*old(slots)).dom().len()),
    ensures
        !layer_slot_entries(*old(slots)).dom().contains(key),
        canonical_key(key) == key,
        layer_slot_entries(*final(slots)) == layer_slot_entries(*old(slots)).insert(key, value),
{
    slots.map.insert(value).data().as_ffi()
}

/// `SlotMap::get` with the key `KeyData::from_ffi(raw)`.
#[verifier::external_body]
pub(crate) fn layer_slots_get(slots: &LayerSlots, raw: u64) -> (result: Option<LayerSlot>)
    ensures
        result == (if layer_slot_entries(*slots).dom().contains(canonical_key(raw)) {
            Some(layer_slot_entries(*slots)[canonical_key(raw)])
        } else {
            None
        }),
{
    slots.map.get(KeyData::from_ffi(raw).into()).copied()
}

/// `SlotMap::remove` with the key `KeyData::from_ffi(raw)`.
#[verifier::external_body]
pub(crate) fn layer_slots_remove(slots: &mut LayerSlots, raw: u64) -> (result: Option<LayerSlot>)
    ensures
        result == (if layer_slot_entries(*old(slots)).dom().contains(canonical_key(raw)) {
            Some(layer_slot_entries(*old(slots))[canonical_key(raw)])
        } else {
            None
        }),
        layer_slot_entries(*final(slots)) == layer_slot_entries(*old(slots)).remove(canonical_key(raw)),
{
    slots.map.remove(KeyData::from_ffi(raw).into())
}

/// Writing through `IndexMut` of `SlotMap` at the key `KeyData::from_ffi(raw)`;
/// it panics when the key has no entry, which `requires` rules out.
#[verifier::external_body]
pub(crate) fn layer_slots_set(slots: &mut LayerSlots, raw: u64, value: LayerSlot)
    requires
        layer_slot_entries(*old(slots)).dom().contains(canonical_key(raw)),
    ensures
        layer_slot_entries(*final(slots)) == layer_slot_entries(*old(slots)).insert(canonical_key(raw), value),
{
    slots.map[KeyData::from_ffi(raw).into()] = value;
}

/// A `slotmap::SlotMap` from handles to image slots.
#[verifier::external_body]
pub struct ImageSlots {
    map: SlotMap<DefaultKey, usize>,
}

/// The entries of a slot map of image slots, keyed by `KeyData::as_ffi`.
pub uninterp spec fn image_slot_entries(m: ImageSlots) -> Map<u64, usize>;

/// `SlotMap::with_key`: an empty slot map.
#[verifier::external_body]
pub(crate) fn image_slots_new() -> (result: ImageSlots)
    ensures
        image_slot_entries(result).dom() == Set::<u64>::empty(),
{
    ImageSlots { map: SlotMap::with_key() }
}

/// `SlotMap::insert`: stores `value` under a key that no entry has, and
/// returns that key as `as_ffi` gives it. The map only panics when it is full,
/// which the room requirement rules out.
#[verifier::external_body]
pub(crate) fn image_slots_insert(slots: &mut ImageSlots, value: usize) -> (key: u64)
    requires
        image_slot_entries(*old(slots)).dom().finite(),
        slot_map_room(image_slot_entries(*old(slots)).dom().len()),
    ensures
        !image_slot_entries(*old(slots)).dom().contains(key),
        canonical_key(key) == key,
        image_slot_entries(*final(slots)) == image_slot_entries(*old(slots)).insert(key, value),
{
    slots.map.insert(value).data().as_ffi()
}

/// `SlotMap::get` with the key `KeyData::from_ffi(raw)`.
#[verifier::external_body]
pub(crate) fn image_slots_get(slots: &ImageSlots, raw: u64) -> (result: Option<usize>)
    ensures
        result == (if image_slot_entries(*slots).dom().contains(canonical_key(raw)) {
            Some(image_slot_entries(*slots)[canonical_key(raw)])
        } else {
            None
        }),
{
    slots.map.get(KeyData::from_ffi(raw).into()).copied()
}

/// `SlotMap::remove` with the key `KeyData::from_ffi(raw)`.
#[verifier::external_body]
pub(crate) fn image_slots_remove(slots: &mut ImageSlots, raw: u64) -> (result: Option<usize>)
    ensures
        result == (if image_slot_entries(*old(slots)).dom().contains(canonical_key(raw)) {
            Some(image_slot_entries(*old(slots))[canonical_key(raw)])
        } else {
            None
        }),
        image_slot_entries(*final(slots)) == image_slot_entries(*old(slots)).remove(canonical_key(raw)),
{
    slots.map.remove(KeyData::from_ffi(raw).into())
}

/// Writing through `IndexMut` of `SlotMap` at the key `KeyData::from_ffi(raw)`;
/// it panics when the key has no entry, which `requires` rules out.
#[verifier::external_body]
pub(crate) fn image_slots_set(slots: &mut ImageSlots, raw: u64, value: usize)
    requires
        image_slot_entries(*old(slots)).dom().contains(canonical_key(raw)),
    ensures
        image_slot_entries(*final(slots)) == image_slot_entries(*old(slots)).insert(canonical_key(raw), value),
{
    slots.map[KeyData::from_ffi(raw).into()] = value;
}

/// Where a texture lives in the atlas: min x, min y, max x, max y and the
/// id of the allocation that holds it.
pub type AtlasRegion = (i32, i32, i32, i32, u32);

/// A `slotmap::SlotMap` from handles to atlas regions.
#[verifier::external_body]
pub struct RegionSlots {
    map: SlotMap<DefaultKey, AtlasRegion>,
}

/// The entries of a slot map of atlas regions, keyed by `KeyData::as_ffi`.
pub uninterp spec fn region_entries(m: RegionSlots) -> Map<u64, AtlasRegion>;

/// `SlotMap::with_key`: an empty slot map.
#[verifier::external_body]
pub(crate) fn region_slots_new() -> (result: RegionSlots)
    ensures
        region_entries(result).dom() == Set::<u64>::empty(),
{
    RegionSlots { map: SlotMap::with_key() }
}

/// `SlotMap::insert`: stores `value` under a key that no entry has, and
/// returns that key as `as_ffi` gives it. The map only panics when it is full,
/// which the room requirement rules out.
#[verifier::external_body]
pub(crate) fn region_slots_insert(slots: &mut RegionSlots, value: AtlasRegion) -> (key: u64)
    requires
        region_entries(*old(slots)).dom().finite(),
        slot_map_room(region_entries(*old(slots)).dom().len()),
    ensures
        !region_entries(*old(slots)).dom().contains(key),
        canonical_key(key) == key,
        region_entries(*final(slots)) == region_entries(*old(slots)).insert(key, value),
{
    slots.map.insert(value).data().as_ffi()
}

/// `SlotMap::get` with the key `KeyData::from_ffi(raw)`.
#[verifier::external_body]
pub(crate) fn region_slots_get(slots: &RegionSlots, raw: u64) -> (result: Option<AtlasRegion>)
    ensures
        result == (if region_entries(*slots).dom().contains(canonical_key(raw)) {
            Some(region_entries(*slots)[canonical_key(raw)])
        } else {
            None
        }),
{
    slots.map.get(KeyData::from_ffi(raw).into()).copied()
}

/// `SlotMap::remove` with the key `KeyData::from_ffi(raw)`.
#[verifier::external_body]
pub(crate) fn region_slots_remove(slots: &mut RegionSlots, raw: u64) -> (result: Option<AtlasRegion>)
    ensures
        result == (if region_entries(*old(slots)).dom().contains(canonical_key(raw)) {
            Some(region_entries(*old(slots))[canonical_key(raw)])
        } else {
            None
        }),
        region_entries(*final(slots)) == region_entries(*old(slots)).remove(canonical_key(raw)),
{
    slots.map.remove(KeyData::from_ffi(raw).into())
}

} // verus!
