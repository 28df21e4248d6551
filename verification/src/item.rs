//! Item stacks with their component patches, and the item-id table with its
//! renumbering for older clients.

use vstd::prelude::*;

use crate::component::DataComponent;
use crate::version::{JavaMinecraftVersion, uses_legacy_ids};

verus! {

/// The id of the air item, which an empty slot holds.
pub const AIR_ID: u16 = 0;

/// A component value: its network encoding and the checksum clients use to
/// describe it.
#[derive(Debug)]
pub struct ComponentData {
    pub payload: Vec<u8>,
    pub checksum: i32,
}

/// A patch entry: a component with its new value, or a component removed
/// from the item's defaults.
pub type PatchEntry = (DataComponent, Option<ComponentData>);

/// A stack of items with a component patch.
#[derive(Debug)]
pub struct ItemStack {
    pub item_id: u16,
    pub item_count: u8,
    pub patch: Vec<PatchEntry>,
}

/// The number of patch entries that set a value.
pub open spec fn added_count(p: Seq<PatchEntry>) -> nat
    decreases p.len(),
{
    if p.len() == 0 {
        0
    } else {
        added_count(p.drop_last()) + if p.last().1 is Some {
            1nat
        } else {
            0nat
        }
    }
}

/// The number of patch entries that remove a component.
pub open spec fn removed_count(p: Seq<PatchEntry>) -> nat
    decreases p.len(),
{
    if p.len() == 0 {
        0
    } else {
        removed_count(p.drop_last()) + if p.last().1 is None {
            1nat
        } else {
            0nat
        }
    }
}

/// The counts of a stack's patch fit the byte counters used to write it.
pub open spec fn counts_fit(stack: ItemStack) -> bool {
    added_count(stack.patch@) <= 255 && removed_count(stack.patch@) <= 255
}

/// Every entry either sets or removes.
pub proof fn lemma_counts_sum(p: Seq<PatchEntry>)
    ensures
        added_count(p) + removed_count(p) == p.len(),
    decreases p.len(),
{
    if p.len() > 0 {
        lemma_counts_sum(p.drop_last());
    }
}

impl ItemStack {
    /// The slot holds nothing: no items, or air.
    pub open spec fn spec_is_empty(&self) -> bool {
        self.item_count == 0 || self.item_id == AIR_ID
    }

    /// Whether the slot holds nothing.
    #[verifier::when_used_as_spec(spec_is_empty)]
    pub fn is_empty(&self) -> (b: bool)
        ensures
            b == self.spec_is_empty(),
    {
        self.item_count == 0 || self.item_id == AIR_ID
    }

    /// The empty slot.
    pub fn empty() -> (s: ItemStack)
        ensures
            s.item_id == AIR_ID,
            s.item_count == 0,
            s.patch@.len() == 0,
    {
        ItemStack { item_id: AIR_ID, item_count: 0, patch: Vec::new() }
    }

    /// `count` items of `item_id` with no patch.
    pub fn new(count: u8, item_id: u16) -> (s: ItemStack)
        ensures
            s.item_id == item_id,
            s.item_count == count,
            s.patch@.len() == 0,
    {
        ItemStack { item_id, item_count: count, patch: Vec::new() }
    }

    /// `count` items of `item_id` with patch `patch`.
    pub fn new_with_component(count: u8, item_id: u16, patch: Vec<PatchEntry>) -> (s: ItemStack)
        ensures
            s.item_id == item_id,
            s.item_count == count,
            s.patch@ == patch@,
    {
        ItemStack { item_id, item_count: count, patch }
    }
}

/// The items the server knows, and how ids are renumbered for older clients.
pub struct ItemTable {
    item_total: u16,
    legacy_remap: Vec<(u16, u16)>,
}

/// The renumbering rows, current id first, hold no id twice on either side.
pub open spec fn remap_unique(r: Seq<(u16, u16)>) -> bool {
    forall|i: int, j: int|
        #![trigger r[i], r[j]]
        0 <= i < r.len() && 0 <= j < r.len() && i != j ==> r[i].0 != r[j].0 && r[i].1 != r[j].1
}

/// The id an older client uses for current id `id`.
pub open spec fn remap_for(r: Seq<(u16, u16)>, id: u16) -> u16 {
    if exists|i: int| 0 <= i < r.len() && #[trigger] r[i].0 == id {
        r[choose|i: int| 0 <= i < r.len() && #[trigger] r[i].0 == id].1
    } else {
        id
    }
}

/// The current id for an id an older client uses.
pub open spec fn remap_from(r: Seq<(u16, u16)>, id: u16) -> u16 {
    if exists|i: int| 0 <= i < r.len() && #[trigger] r[i].1 == id {
        r[choose|i: int| 0 <= i < r.len() && #[trigger] r[i].1 == id].0
    } else {
        id
    }
}

impl ItemTable {
    #[verifier::type_invariant]
    spec fn inv(self) -> bool {
        remap_unique(self.legacy_remap@)
    }

    /// The number of items; ids below it name an item.
    pub closed spec fn total(&self) -> u16 {
        self.item_total
    }

    /// The renumbering rows for older clients.
    pub closed spec fn remap(&self) -> Seq<(u16, u16)> {
        self.legacy_remap@
    }

    /// A table of `item_total` items renumbered for older clients by
    /// `legacy_remap` (pairs of current id and older id), or `None` where an
    /// id occurs twice on one side.
    pub fn new(item_total: u16, legacy_remap: Vec<(u16, u16)>) -> (r: Option<Self>)
        ensures
            r is Some <==> remap_unique(legacy_remap@),
            r matches Some(t) ==> t.total() == item_total && t.remap() == legacy_remap@,
    {
        let n = legacy_remap.len();
        let mut i: usize = 0;
        while i < n
            invariant
                n == legacy_remap@.len(),
                i <= n,
                forall|a: int, b: int|
                    #![trigger legacy_remap@[a], legacy_remap@[b]]
                    0 <= a < i && 0 <= b < n && a != b ==> legacy_remap@[a].0 != legacy_remap@[b].0
                        && legacy_remap@[a].1 != legacy_remap@[b].1,
            decreases n - i,
        {
            let mut j: usize = 0;
            while j < n
                invariant
                    n == legacy_remap@.len(),
                    i < n,
                    j <= n,
                    forall|a: int, b: int|
                        #![trigger legacy_remap@[a], legacy_remap@[b]]
                        0 <= a < i && 0 <= b < n && a != b ==> legacy_remap@[a].0
                            != legacy_remap@[b].0 && legacy_remap@[a].1 != legacy_remap@[b].1,
                    forall|b: int|
                        #![trigger legacy_remap@[b]]
                        0 <= b < j && b != i ==> legacy_remap@[i as int].0 != legacy_remap@[b].0
                            && legacy_remap@[i as int].1 != legacy_remap@[b].1,
                decreases n - j,
            {
                if i != j && (legacy_remap[i].0 == legacy_remap[j].0 || legacy_remap[i].1
                    == legacy_remap[j].1) {
                    return None;
                }
                j = j + 1;
            }
            i = i + 1;
        }
        Some(ItemTable { item_total, legacy_remap })
    }

    /// The item with id `id`, if there is one.
    pub fn from_id(&self, id: u16) -> (r: Option<u16>)
        ensures
            r == (if id < self.total() {
                Some(id)
            } else {
                None::<u16>
            }),
    {
        if id < self.item_total {
            Some(id)
        } else {
            None
        }
    }

    /// The item with id `id`, or air if there is none.
    pub fn item_or_air(&self, id: u16) -> (r: u16)
        ensures
            r == item_or_air(self.total(), id),
    {
        match self.from_id(id) {
            Some(i) => i,
            None => AIR_ID,
        }
    }

    /// The id a client on release `version` uses for current item id `id`.
    pub fn remap_item_id_for_version(&self, id: u16, version: JavaMinecraftVersion) -> (r: u16)
        ensures
            r == remap_for_version(self.remap(), id, version),
            remap_unique(self.remap()),
    {
        proof {
            use_type_invariant(self);
        }
        if !version.uses_legacy_component_ids() {
            return id;
        }
        let n = self.legacy_remap.len();
        let mut i: usize = 0;
        while i < n
            invariant
                n == self.legacy_remap@.len(),
                remap_unique(self.legacy_remap@),
                uses_legacy_ids(version),
                i <= n,
                forall|k: int| 0 <= k < i ==> #[trigger] self.legacy_remap@[k].0 != id,
            decreases n - i,
        {
            if self.legacy_remap[i].0 == id {
                proof {
                    let r = self.legacy_remap@;
                    assert(r[i as int].0 == id);
                    let j = choose|j: int| 0 <= j < r.len() && #[trigger] r[j].0 == id;
                    assert(i == j);
                }
                return self.legacy_remap[i].1;
            }
            i = i + 1;
        }
        id
    }

    /// The current item id for id `id` used by a client on release `version`.
    pub fn remap_item_id_from_version(&self, id: u16, version: JavaMinecraftVersion) -> (r: u16)
        ensures
            r == remap_from_version(self.remap(), id, version),
            remap_unique(self.remap()),
    {
        proof {
            use_type_invariant(self);
        }
        if !version.uses_legacy_component_ids() {
            return id;
        }
        let n = self.legacy_remap.len();
        let mut i: usize = 0;
        while i < n
            invariant
                n == self.legacy_remap@.len(),
                remap_unique(self.legacy_remap@),
                uses_legacy_ids(version),
                i <= n,
                forall|k: int| 0 <= k < i ==> #[trigger] self.legacy_remap@[k].1 != id,
            decreases n - i,
        {
            if self.legacy_remap[i].1 == id {
                proof {
                    let r = self.legacy_remap@;
                    assert(r[i as int].1 == id);
                    let j = choose|j: int| 0 <= j < r.len() && #[trigger] r[j].1 == id;
                    assert(i == j);
                }
                return self.legacy_remap[i].0;
            }
            i = i + 1;
        }
        id
    }
}

/// The item id stored for `id` in a table of `total` items: `id` itself if
/// it names an item, else air.
pub open spec fn item_or_air(total: u16, id: u16) -> u16 {
    if id < total {
        id
    } else {
        AIR_ID
    }
}

/// The id a client on release `v` uses for current item id `id`.
pub open spec fn remap_for_version(r: Seq<(u16, u16)>, id: u16, v: JavaMinecraftVersion) -> u16 {
    if uses_legacy_ids(v) {
        remap_for(r, id)
    } else {
        id
    }
}

/// The current item id for id `id` used by a client on release `v`.
pub open spec fn remap_from_version(r: Seq<(u16, u16)>, id: u16, v: JavaMinecraftVersion) -> u16 {
    if uses_legacy_ids(v) {
        remap_from(r, id)
    } else {
        id
    }
}

/// An item id sent to a client and sent back by it names the same item,
/// unless the id is left unchanged for an older client while another item is
/// renumbered onto it.
pub proof fn lemma_remap_roundtrip(r: Seq<(u16, u16)>, id: u16, v: JavaMinecraftVersion)
    requires
        remap_unique(r),
        uses_legacy_ids(v) && !(exists|i: int| 0 <= i < r.len() && #[trigger] r[i].0 == id) ==> !(
        exists|j: int| 0 <= j < r.len() && #[trigger] r[j].1 == id),
    ensures
        remap_from_version(r, remap_for_version(r, id, v), v) == id,
{
    if uses_legacy_ids(v) {
        if exists|i: int| 0 <= i < r.len() && #[trigger] r[i].0 == id {
            let i = choose|i: int| 0 <= i < r.len() && #[trigger] r[i].0 == id;
            let l = r[i].1;
            assert(r[i].1 == l);
            let j = choose|j: int| 0 <= j < r.len() && #[trigger] r[j].1 == l;
            assert(i == j);
        }
    }
}

/// An item sent to a client on release `v` under its renumbered id, taken
/// as the item of that id on reading and renumbered back, is the item sent;
/// this needs both ids to name items other than air, and no other item
/// renumbered onto an id left unchanged.
pub proof fn lemma_item_through_client(total: u16, r: Seq<(u16, u16)>, id: u16, v: JavaMinecraftVersion)
    requires
        remap_unique(r),
        uses_legacy_ids(v) && !(exists|i: int| 0 <= i < r.len() && #[trigger] r[i].0 == id) ==> !(
        exists|j: int| 0 <= j < r.len() && #[trigger] r[j].1 == id),
        id < total,
        remap_for_version(r, id, v) < total,
        remap_for_version(r, id, v) != AIR_ID,
    ensures
        item_or_air(total, remap_from_version(r, item_or_air(total, remap_for_version(r, id, v)), v))
            == id,
{
    lemma_remap_roundtrip(r, id, v);
}

} // verus!
