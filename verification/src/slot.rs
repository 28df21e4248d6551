//! The item-slot wire format: a stack as count, item id and component patch,
//! in the plain form, the length-prefixed form and the item-cost form, with
//! component ids numbered for the receiving client's release.

use vstd::prelude::*;

use crate::component::{
    ComponentRegistry, ComponentTable, DataComponent, has_id, legacy_of, lemma_wire_id_lookup,
    lookup_wire_id, table_unique, wire_id,
};
use crate::item::{
    AIR_ID, ComponentData, ItemStack, ItemTable, PatchEntry, added_count, counts_fit, item_or_air,
    lemma_counts_sum,
    remap_for_version, remap_from_version, removed_count,
};
use crate::version::{JavaMinecraftVersion, spec_current, spec_v26_1, uses_legacy_ids};
use crate::text::{i32_to_decimal, int_decimal};
use crate::wire::{
    ByteReader, ErrorKind, Failure, ReadOutcome, ReadingError, VarInt, WritingError, bytes_result,
    message, parse_var_int, read_agrees,
    lemma_skip_prefix, lemma_skip_skip, lemma_var_int_roundtrip, lemma_var_int_result_len, put_var_int, var_int_bytes, var_int_result,
    write_slice,
};

verus! {

/// The largest number of patch entries a slot may carry.
pub const MAX_COMPONENTS: i32 = 256;

/// The largest component payload a length-prefixed slot may announce.
pub const MAX_PACKET_DATA_SIZE: usize = 8_388_608;

// ---------------------------------------------------------------------------
// Component ids and counts
// ---------------------------------------------------------------------------

/// The wire id of component `id` for a client on release `version`.
pub fn component_wire_id(
    components: &ComponentRegistry,
    id: DataComponent,
    version: JavaMinecraftVersion,
) -> (w: u8)
    ensures
        w == wire_id(components@, id, version),
{
    if version.uses_legacy_component_ids() {
        match components.to_id_legacy(id) {
            Some(l) => l,
            None => id.to_id(),
        }
    } else {
        id.to_id()
    }
}

/// The number of entries of a stack's patch that set a value and that
/// remove one.
pub fn item_component_counts(stack: &ItemStack) -> (r: (u8, u8))
    requires
        added_count(stack.patch@) <= 255,
        removed_count(stack.patch@) <= 255,
    ensures
        r.0 == added_count(stack.patch@),
        r.1 == removed_count(stack.patch@),
{
    let mut to_add: u8 = 0;
    let mut to_remove: u8 = 0;
    let n = stack.patch.len();
    let mut i: usize = 0;
    while i < n
        invariant
            n == stack.patch@.len(),
            i <= n,
            to_add == added_count(stack.patch@.take(i as int)),
            to_remove == removed_count(stack.patch@.take(i as int)),
            added_count(stack.patch@) <= 255,
            removed_count(stack.patch@) <= 255,
        decreases n - i,
    {
        proof {
            let p = stack.patch@;
            assert(p.take(i + 1).drop_last() =~= p.take(i as int));
            lemma_counts_prefix(p, i + 1);
        }
        if stack.patch[i].1.is_none() {
            to_remove = to_remove + 1;
        } else {
            to_add = to_add + 1;
        }
        i = i + 1;
    }
    assert(stack.patch@.take(n as int) =~= stack.patch@);
    (to_add, to_remove)
}

/// The counts of a prefix of a patch do not exceed those of the patch.
proof fn lemma_counts_prefix(p: Seq<PatchEntry>, k: int)
    requires
        0 <= k <= p.len(),
    ensures
        added_count(p.take(k)) <= added_count(p),
        removed_count(p.take(k)) <= removed_count(p),
    decreases p.len() - k,
{
    if k < p.len() {
        assert(p.take(k + 1).drop_last() =~= p.take(k));
        lemma_counts_prefix(p, k + 1);
    } else {
        assert(p.take(k) =~= p);
    }
}

// ---------------------------------------------------------------------------
// Encoding
// ---------------------------------------------------------------------------

/// The wire bytes of a component id for a client on release `v`.
pub open spec fn component_id_bytes(t: ComponentTable, c: DataComponent, v: JavaMinecraftVersion) -> Seq<u8> {
    var_int_bytes(wire_id(t, c, v) as i32)
}

/// The set-value entries of a patch, in order: each its id, then its
/// payload.
pub open spec fn added_component_bytes(
    t: ComponentTable,
    v: JavaMinecraftVersion,
    p: Seq<PatchEntry>,
) -> Seq<u8>
    decreases p.len(),
{
    if p.len() == 0 {
        Seq::empty()
    } else {
        added_component_bytes(t, v, p.drop_last()) + match p.last().1 {
            Some(d) => component_id_bytes(t, p.last().0, v) + d.payload@,
            None => Seq::empty(),
        }
    }
}

/// The set-value entries of a patch, in order: each its id, its payload's
/// length, then its payload.
pub open spec fn lp_added_component_bytes(
    t: ComponentTable,
    v: JavaMinecraftVersion,
    p: Seq<PatchEntry>,
) -> Seq<u8>
    decreases p.len(),
{
    if p.len() == 0 {
        Seq::empty()
    } else {
        lp_added_component_bytes(t, v, p.drop_last()) + match p.last().1 {
            Some(d) => component_id_bytes(t, p.last().0, v) + var_int_bytes(d.payload@.len() as i32)
                + d.payload@,
            None => Seq::empty(),
        }
    }
}

/// The removal entries of a patch, in order: each its id.
pub open spec fn removed_component_bytes(
    t: ComponentTable,
    v: JavaMinecraftVersion,
    p: Seq<PatchEntry>,
) -> Seq<u8>
    decreases p.len(),
{
    if p.len() == 0 {
        Seq::empty()
    } else {
        removed_component_bytes(t, v, p.drop_last()) + match p.last().1 {
            Some(_) => Seq::empty(),
            None => component_id_bytes(t, p.last().0, v),
        }
    }
}

/// The count, item id and entry counts that open a non-empty slot; a
/// template names the item before the count.
pub open spec fn slot_head_bytes(stack: ItemStack, item_id: u16, is_template: bool) -> Seq<u8> {
    (if is_template {
        var_int_bytes(item_id as i32) + var_int_bytes(stack.item_count as i32)
    } else {
        var_int_bytes(stack.item_count as i32) + var_int_bytes(item_id as i32)
    }) + var_int_bytes(added_count(stack.patch@) as i32) + var_int_bytes(
        removed_count(stack.patch@) as i32,
    )
}

/// A slot in the plain form: a lone zero count when empty, else the head,
/// the set-value entries and the removal entries.
pub open spec fn slot_bytes(
    t: ComponentTable,
    v: JavaMinecraftVersion,
    stack: ItemStack,
    item_id: u16,
    is_template: bool,
) -> Seq<u8> {
    if stack.spec_is_empty() {
        var_int_bytes(0)
    } else {
        slot_head_bytes(stack, item_id, is_template) + added_component_bytes(t, v, stack.patch@)
            + removed_component_bytes(t, v, stack.patch@)
    }
}

/// A slot in the length-prefixed form: as the plain form, with each payload
/// preceded by its length.
pub open spec fn lp_slot_bytes(
    t: ComponentTable,
    v: JavaMinecraftVersion,
    stack: ItemStack,
    item_id: u16,
) -> Seq<u8> {
    if stack.spec_is_empty() {
        var_int_bytes(0)
    } else {
        slot_head_bytes(stack, item_id, false) + lp_added_component_bytes(t, v, stack.patch@)
            + removed_component_bytes(t, v, stack.patch@)
    }
}

/// An item cost: item id, count, number of set-value entries, then those
/// entries; written even for an empty stack.
pub open spec fn item_cost_bytes(
    t: ComponentTable,
    v: JavaMinecraftVersion,
    stack: ItemStack,
    item_id: u16,
) -> Seq<u8> {
    var_int_bytes(item_id as i32) + var_int_bytes(stack.item_count as i32) + var_int_bytes(
        added_count(stack.patch@) as i32,
    ) + added_component_bytes(t, v, stack.patch@)
}

// ---------------------------------------------------------------------------
// Writing
// ---------------------------------------------------------------------------

/// Writes a component value: its payload.
fn serialize_component(data: &ComponentData, write: &mut Vec<u8>)
    ensures
        final(write)@ == old(write)@ + data.payload@,
{
    write_slice(write, data.payload.as_slice());
}

fn write_added_components(
    stack: &ItemStack,
    write: &mut Vec<u8>,
    components: &ComponentRegistry,
    version: JavaMinecraftVersion,
    length_prefixed: bool,
)
    ensures
        final(write)@ == old(write)@ + if length_prefixed {
            lp_added_component_bytes(components@, version, stack.patch@)
        } else {
            added_component_bytes(components@, version, stack.patch@)
        },
{
    let ghost t = components@;
    let n = stack.patch.len();
    let mut i: usize = 0;
    while i < n
        invariant
            n == stack.patch@.len(),
            i <= n,
            t == components@,
            write@ == old(write)@ + if length_prefixed {
                lp_added_component_bytes(t, version, stack.patch@.take(i as int))
            } else {
                added_component_bytes(t, version, stack.patch@.take(i as int))
            },
        decreases n - i,
    {
        proof {
            assert(stack.patch@.take(i + 1).drop_last() =~= stack.patch@.take(i as int));
        }
        let ghost before = write@;
        let (id, data) = &stack.patch[i];
        if let Some(data) = data {
            let w = component_wire_id(components, *id, version);
            put_var_int(write, &VarInt(w as i32));
            if length_prefixed {
                let mut comp_buf: Vec<u8> = Vec::new();
                serialize_component(data, &mut comp_buf);
                let len = #[verifier::truncate] (comp_buf.len() as i32);
                put_var_int(write, &VarInt(len));
                write_slice(write, comp_buf.as_slice());
            } else {
                serialize_component(data, write);
            }
            proof {
                assert(write@ =~= old(write)@ + if length_prefixed {
                    lp_added_component_bytes(t, version, stack.patch@.take(i + 1))
                } else {
                    added_component_bytes(t, version, stack.patch@.take(i + 1))
                });
            }
        } else {
            proof {
                assert(write@ =~= old(write)@ + if length_prefixed {
                    lp_added_component_bytes(t, version, stack.patch@.take(i + 1))
                } else {
                    added_component_bytes(t, version, stack.patch@.take(i + 1))
                });
            }
        }
        i = i + 1;
    }
    assert(stack.patch@.take(n as int) =~= stack.patch@);
}

fn write_removed_components(
    stack: &ItemStack,
    write: &mut Vec<u8>,
    components: &ComponentRegistry,
    version: JavaMinecraftVersion,
)
    ensures
        final(write)@ == old(write)@ + removed_component_bytes(components@, version, stack.patch@),
{
    let ghost t = components@;
    let n = stack.patch.len();
    let mut i: usize = 0;
    while i < n
        invariant
            n == stack.patch@.len(),
            i <= n,
            t == components@,
            write@ == old(write)@ + removed_component_bytes(t, version, stack.patch@.take(i as int)),
        decreases n - i,
    {
        proof {
            assert(stack.patch@.take(i + 1).drop_last() =~= stack.patch@.take(i as int));
        }
        let (id, data) = &stack.patch[i];
        if data.is_none() {
            let w = component_wire_id(components, *id, version);
            put_var_int(write, &VarInt(w as i32));
        }
        proof {
            assert(write@ =~= old(write)@ + removed_component_bytes(
                t,
                version,
                stack.patch@.take(i + 1),
            ));
        }
        i = i + 1;
    }
    assert(stack.patch@.take(n as int) =~= stack.patch@);
}

fn write_slot_head(stack: &ItemStack, item_id: u16, is_template: bool, write: &mut Vec<u8>)
    requires
        counts_fit(*stack),
    ensures
        final(write)@ == old(write)@ + slot_head_bytes(*stack, item_id, is_template),
{
    let (to_add, to_remove) = item_component_counts(stack);
    if is_template {
        put_var_int(write, &VarInt(item_id as i32));
        put_var_int(write, &VarInt(stack.item_count as i32));
    } else {
        put_var_int(write, &VarInt(stack.item_count as i32));
        put_var_int(write, &VarInt(item_id as i32));
    }
    put_var_int(write, &VarInt(to_add as i32));
    put_var_int(write, &VarInt(to_remove as i32));
    assert(write@ =~= old(write)@ + slot_head_bytes(*stack, item_id, is_template));
}

/// Writes `stack` in the plain form under item id `item_id`, as a template
/// (item id before count) if `is_template`.
pub fn serialize_any_item_stack_with_id(
    stack: &ItemStack,
    item_id: u16,
    is_template: bool,
    write: &mut Vec<u8>,
    components: &ComponentRegistry,
    version: JavaMinecraftVersion,
) -> (res: Result<(), WritingError>)
    requires
        !stack.spec_is_empty() ==> counts_fit(*stack),
    ensures
        res is Ok,
        final(write)@ == old(write)@ + slot_bytes(components@, version, *stack, item_id, is_template),
{
    if stack.is_empty() {
        put_var_int(write, &VarInt(0));
        Ok(())
    } else {
        write_slot_head(stack, item_id, is_template, write);
        write_added_components(stack, write, components, version, false);
        write_removed_components(stack, write, components, version);
        assert(write@ =~= old(write)@ + slot_bytes(
            components@,
            version,
            *stack,
            item_id,
            is_template,
        ));
        Ok(())
    }
}

/// Writes `stack` in the plain form under item id `item_id`.
pub fn serialize_item_stack_with_id(
    stack: &ItemStack,
    item_id: u16,
    write: &mut Vec<u8>,
    components: &ComponentRegistry,
    version: JavaMinecraftVersion,
) -> (res: Result<(), WritingError>)
    requires
        !stack.spec_is_empty() ==> counts_fit(*stack),
    ensures
        res is Ok,
        final(write)@ == old(write)@ + slot_bytes(components@, version, *stack, item_id, false),
{
    serialize_any_item_stack_with_id(stack, item_id, false, write, components, version)
}

/// Writes `stack` in the length-prefixed form under item id `item_id`.
pub fn serialize_length_prefixed_item_stack_with_id(
    stack: &ItemStack,
    item_id: u16,
    write: &mut Vec<u8>,
    components: &ComponentRegistry,
    version: JavaMinecraftVersion,
) -> (res: Result<(), WritingError>)
    requires
        !stack.spec_is_empty() ==> counts_fit(*stack),
    ensures
        res is Ok,
        final(write)@ == old(write)@ + lp_slot_bytes(components@, version, *stack, item_id),
{
    if stack.is_empty() {
        put_var_int(write, &VarInt(0));
        Ok(())
    } else {
        write_slot_head(stack, item_id, false, write);
        write_added_components(stack, write, components, version, true);
        write_removed_components(stack, write, components, version);
        assert(write@ =~= old(write)@ + lp_slot_bytes(components@, version, *stack, item_id));
        Ok(())
    }
}

/// Writes `stack` as an item cost under item id `item_id`; fails when it has
/// more set-value entries than an `i32` counts.
pub fn serialize_item_cost_with_id(
    stack: &ItemStack,
    item_id: u16,
    write: &mut Vec<u8>,
    components: &ComponentRegistry,
    version: JavaMinecraftVersion,
) -> (res: Result<(), WritingError>)
    ensures
        res is Err <==> added_count(stack.patch@) > i32::MAX,
        res is Ok ==> final(write)@ == old(write)@ + item_cost_bytes(
            components@,
            version,
            *stack,
            item_id,
        ),
        res is Err ==> final(write)@ == old(write)@,
{
    let n = stack.patch.len();
    let mut component_count: usize = 0;
    let mut i: usize = 0;
    while i < n
        invariant
            n == stack.patch@.len(),
            i <= n,
            component_count == added_count(stack.patch@.take(i as int)),
            component_count <= i,
        decreases n - i,
    {
        proof {
            assert(stack.patch@.take(i + 1).drop_last() =~= stack.patch@.take(i as int));
        }
        if stack.patch[i].1.is_some() {
            component_count = component_count + 1;
        }
        i = i + 1;
    }
    assert(stack.patch@.take(n as int) =~= stack.patch@);
    if component_count > i32::MAX as usize {
        return Err(WritingError::Message(String::from_str("Too many item cost components")));
    }
    put_var_int(write, &VarInt(item_id as i32));
    put_var_int(write, &VarInt(stack.item_count as i32));
    put_var_int(write, &VarInt(component_count as i32));
    write_added_components(stack, write, components, version, false);
    assert(write@ =~= old(write)@ + item_cost_bytes(components@, version, *stack, item_id));
    Ok(())
}

// ---------------------------------------------------------------------------
// Serializers
// ---------------------------------------------------------------------------

/// A stack to be sent or just received in a slot.
#[derive(Debug)]
pub struct ItemStackSerializer(pub ItemStack);

impl From<ItemStack> for ItemStackSerializer {
    /// Wraps a stack.
    fn from(item: ItemStack) -> (s: Self) {
        ItemStackSerializer(item)
    }
}

impl vstd::std_specs::convert::FromSpecImpl<ItemStack> for ItemStackSerializer {
    open spec fn obeys_from_spec() -> bool {
        true
    }

    open spec fn from_spec(v: ItemStack) -> Self {
        ItemStackSerializer(v)
    }
}

impl ItemStackSerializer {
    /// Wraps a stack, or the empty slot for `None`.
    pub fn from_optional(item: Option<ItemStack>) -> (s: Self)
        ensures
            item matches Some(i) ==> s.0 == i,
            item is None ==> s.0.item_id == AIR_ID && s.0.item_count == 0 && s.0.patch@.len() == 0,
    {
        match item {
            Some(i) => ItemStackSerializer(i),
            None => ItemStackSerializer(ItemStack::empty()),
        }
    }

    /// Writes the stack in the plain form with the current numbering, for
    /// callers that have no recipient release at hand.
    pub fn write(&self, write: &mut Vec<u8>, components: &ComponentRegistry) -> (res: Result<
        (),
        WritingError,
    >)
        requires
            !self.0.spec_is_empty() ==> counts_fit(self.0),
        ensures
            res is Ok,
            final(write)@ == old(write)@ + slot_bytes(
                components@,
                spec_current(),
                self.0,
                self.0.item_id,
                false,
            ),
    {
        serialize_item_stack_with_id(
            &self.0,
            self.0.item_id,
            write,
            components,
            JavaMinecraftVersion::current(),
        )
    }

    /// Writes the stack in the plain form for a client on release `version`:
    /// the item id renumbered and component ids numbered for that release.
    pub fn write_with_version(
        &self,
        write: &mut Vec<u8>,
        version: &JavaMinecraftVersion,
        components: &ComponentRegistry,
        items: &ItemTable,
    ) -> (res: Result<(), WritingError>)
        requires
            !self.0.spec_is_empty() ==> counts_fit(self.0),
        ensures
            res is Ok,
            final(write)@ == old(write)@ + slot_bytes(
                components@,
                *version,
                self.0,
                remap_for_version(items.remap(), self.0.item_id, *version),
                false,
            ),
    {
        let remapped_item_id = items.remap_item_id_for_version(self.0.item_id, *version);
        serialize_item_stack_with_id(&self.0, remapped_item_id, write, components, *version)
    }

    /// Writes the stack in the length-prefixed form for a client on release
    /// `version`.
    pub fn write_length_prefixed_with_version(
        &self,
        write: &mut Vec<u8>,
        version: &JavaMinecraftVersion,
        components: &ComponentRegistry,
        items: &ItemTable,
    ) -> (res: Result<(), WritingError>)
        requires
            !self.0.spec_is_empty() ==> counts_fit(self.0),
        ensures
            res is Ok,
            final(write)@ == old(write)@ + lp_slot_bytes(
                components@,
                *version,
                self.0,
                remap_for_version(items.remap(), self.0.item_id, *version),
            ),
    {
        let remapped_item_id = items.remap_item_id_for_version(self.0.item_id, *version);
        serialize_length_prefixed_item_stack_with_id(
            &self.0,
            remapped_item_id,
            write,
            components,
            *version,
        )
    }

    /// Writes the stack as an item cost for a client on release `version`.
    pub fn write_item_cost_with_version(
        &self,
        write: &mut Vec<u8>,
        version: &JavaMinecraftVersion,
        components: &ComponentRegistry,
        items: &ItemTable,
    ) -> (res: Result<(), WritingError>)
        ensures
            res is Err <==> added_count(self.0.patch@) > i32::MAX,
            res is Ok ==> final(write)@ == old(write)@ + item_cost_bytes(
                components@,
                *version,
                self.0,
                remap_for_version(items.remap(), self.0.item_id, *version),
            ),
    {
        let remapped_item_id = items.remap_item_id_for_version(self.0.item_id, *version);
        serialize_item_cost_with_id(&self.0, remapped_item_id, write, components, *version)
    }

    /// The stack.
    pub fn to_stack(self) -> (s: ItemStack)
        ensures
            s == self.0,
    {
        self.0
    }

    /// The stack, its item id taken back from the numbering of release
    /// `version` to the current one (air if the result names no item); an
    /// empty slot is returned as it is.
    pub fn to_stack_for_version(self, version: &JavaMinecraftVersion, items: &ItemTable) -> (s:
        ItemStack)
        ensures
            s.item_count == self.0.item_count,
            s.patch@ == self.0.patch@,
            s.item_id == if self.0.spec_is_empty() {
                self.0.item_id
            } else {
                item_or_air(items.total(), remap_from_version(items.remap(), self.0.item_id, *version))
            },
    {
        let mut stack = self.0;
        if stack.is_empty() {
            return stack;
        }
        let remapped_item_id = items.remap_item_id_from_version(stack.item_id, *version);
        stack.item_id = items.item_or_air(remapped_item_id);
        stack
    }
}

/// A stack to be sent as a template: item id before count for clients from
/// release 26.1 on.
#[derive(Debug)]
pub struct ItemStackTemplateSerializer(pub ItemStack);

impl From<ItemStack> for ItemStackTemplateSerializer {
    /// Wraps a stack.
    fn from(item: ItemStack) -> (s: Self) {
        ItemStackTemplateSerializer(item)
    }
}

impl vstd::std_specs::convert::FromSpecImpl<ItemStack> for ItemStackTemplateSerializer {
    open spec fn obeys_from_spec() -> bool {
        true
    }

    open spec fn from_spec(v: ItemStack) -> Self {
        ItemStackTemplateSerializer(v)
    }
}

impl ItemStackTemplateSerializer {
    /// Writes the stack for a client on release `version`: in the template
    /// order from 26.1 on, in the plain order before.
    pub fn write_with_version(
        &self,
        write: &mut Vec<u8>,
        version: &JavaMinecraftVersion,
        components: &ComponentRegistry,
        items: &ItemTable,
    ) -> (res: Result<(), WritingError>)
        requires
            !self.0.spec_is_empty() ==> counts_fit(self.0),
        ensures
            res is Ok,
            final(write)@ == old(write)@ + slot_bytes(
                components@,
                *version,
                self.0,
                remap_for_version(items.remap(), self.0.item_id, *version),
                !version.precedes(spec_v26_1()),
            ),
    {
        let remapped_item_id = items.remap_item_id_for_version(self.0.item_id, *version);
        serialize_any_item_stack_with_id(
            &self.0,
            remapped_item_id,
            !version.is_before(&JavaMinecraftVersion::v26_1()),
            write,
            components,
            *version,
        )
    }

    /// Writes the stack in the template order with the current numbering.
    pub fn write(&self, write: &mut Vec<u8>, components: &ComponentRegistry) -> (res: Result<
        (),
        WritingError,
    >)
        requires
            !self.0.spec_is_empty() ==> counts_fit(self.0),
        ensures
            res is Ok,
            final(write)@ == old(write)@ + slot_bytes(
                components@,
                spec_current(),
                self.0,
                self.0.item_id,
                true,
            ),
    {
        serialize_any_item_stack_with_id(
            &self.0,
            self.0.item_id,
            true,
            write,
            components,
            JavaMinecraftVersion::current(),
        )
    }
}

// ---------------------------------------------------------------------------
// Decoding
// ---------------------------------------------------------------------------

/// Turns a component's payload into its value. Implemented by the code that
/// knows each component's encoding.
///
/// A decoder that states what it decodes overrides `states_decoding` to
/// return `true` and `decoded` to describe its reads; the contracts of the
/// readers below speak of the values decoded only for such a decoder.
pub trait ComponentDecoder {
    /// Whether `decoded` describes this decoder's reads.
    open spec fn states_decoding(&self) -> bool {
        false
    }

    /// What decoding `component` from the front of `bytes` gives: the
    /// value's payload and checksum with the bytes taken, or the failure with
    /// the bytes consumed.
    open spec fn decoded(&self, component: DataComponent, bytes: Seq<u8>) -> ReadOutcome<
        DecodedValue,
    > {
        vstd::pervasive::arbitrary()
    }

    /// Reads the value of `component` from `read`.
    fn decode(&self, component: DataComponent, read: &mut ByteReader) -> (res: Result<
        ComponentData,
        ReadingError,
    >)
        ensures
            self.states_decoding() ==> decode_agrees(
                self.decoded(component, old(read)@),
                res,
                old(read)@,
                final(read)@,
            ),
    ;
}

/// A decoded component value as contracts speak of it: payload and checksum.
pub type DecodedValue = (Seq<u8>, i32);

/// The payload and checksum of `d`.
pub open spec fn data_value(d: ComponentData) -> DecodedValue {
    (d.payload@, d.checksum)
}

/// A decode that returned `res` and moved a reader holding `before` to
/// holding `after` did what `o` describes.
pub open spec fn decode_agrees(
    o: ReadOutcome<DecodedValue>,
    res: Result<ComponentData, ReadingError>,
    before: Seq<u8>,
    after: Seq<u8>,
) -> bool {
    match o {
        Ok((v, n)) => res matches Ok(d) && data_value(d) == v && n <= before.len() && after
            == before.skip(n as int),
        Err((f, n)) => res matches Err(e) && e.failure() == f && n <= before.len() && after
            == before.skip(n as int),
    }
}

/// The outcome of reading a component id from the front of `s`, sent by a
/// client on release `v`: an id outside `0..=255`, or one that names no
/// component for that release, is refused with the id in the text.
pub open spec fn component_id_result(t: ComponentTable, v: JavaMinecraftVersion, s: Seq<u8>) -> ReadOutcome<
    DataComponent,
> {
    match var_int_result(s) {
        Err(e) => Err(e),
        Ok((x, l)) => if x < 0 || x > 255 {
            Err((message("Invalid component ID: "@ + int_decimal(x as int)), l))
        } else {
            match lookup_wire_id(t, v, x as u8) {
                Some(c) => Ok((c, l)),
                None => Err((message("Unknown component ID: "@ + int_decimal(x as int)), l)),
            }
        },
    }
}

/// Reads a component id sent by a client on release `version`.
pub fn read_component_id(
    read: &mut ByteReader,
    version: JavaMinecraftVersion,
    components: &ComponentRegistry,
) -> (res: Result<DataComponent, ReadingError>)
    ensures
        read_agrees(component_id_result(components@, version, old(read)@), res, old(read)@, final(read)@),
{
    proof {
        lemma_var_int_result_len(read@);
    }
    let id_val = read.get_var_int()?.0;
    if id_val < 0 || id_val > 255 {
        let mut text = String::from_str("Invalid component ID: ");
        let digits = i32_to_decimal(id_val);
        text.append(digits.as_str());
        return Err(ReadingError::Message(text));
    }
    let id_u8 = id_val as u8;
    let component = if version.uses_legacy_component_ids() {
        components.try_from_id_legacy(id_u8)
    } else {
        components.try_from_id(id_u8)
    };
    match component {
        Some(c) => Ok(c),
        None => {
            let mut text = String::from_str("Unknown component ID: ");
            let digits = i32_to_decimal(id_val);
            text.append(digits.as_str());
            Err(ReadingError::Message(text))
        },
    }
}

/// The outcome of reading a length-prefixed component from the front of
/// `s`: its id and its payload.
pub open spec fn lp_component_result(t: ComponentTable, v: JavaMinecraftVersion, s: Seq<u8>) -> ReadOutcome<
    (DataComponent, Seq<u8>),
> {
    match component_id_result(t, v, s) {
        Err(e) => Err(e),
        Ok((c, l0)) => match var_int_result(s.skip(l0 as int)) {
            Err((f, m)) => Err((f, l0 + m)),
            Ok((len, l1)) => if len < 0 {
                Err((message("Negative component data length"@), l0 + l1))
            } else if len > MAX_PACKET_DATA_SIZE {
                Err(((ErrorKind::TooLarge, "Component data too large"@), l0 + l1))
            } else {
                match bytes_result(s.skip((l0 + l1) as int), len as nat) {
                    Err((f, m)) => Err((f, l0 + l1 + m)),
                    Ok((b, l2)) => Ok(((c, b), l0 + l1 + l2)),
                }
            },
        },
    }
}

/// The outcome of reading a length-prefixed component from the front of `s`
/// and decoding its payload with `dec`: a decoding failure leaves the reader
/// past the payload.
pub open spec fn lp_component_decoded<D: ComponentDecoder>(
    dec: D,
    t: ComponentTable,
    v: JavaMinecraftVersion,
    s: Seq<u8>,
) -> ReadOutcome<(DataComponent, DecodedValue)> {
    match lp_component_result(t, v, s) {
        Err(e) => Err(e),
        Ok(((c, b), n)) => match dec.decoded(c, b) {
            Err((f, _)) => Err((f, n)),
            Ok((x, _)) => Ok(((c, x), n)),
        },
    }
}

/// Reads a length-prefixed component sent by a client on release `version`
/// and hands its payload, and nothing beyond it, to `decoder`.
pub fn read_length_prefixed_component<D: ComponentDecoder>(
    read: &mut ByteReader,
    version: JavaMinecraftVersion,
    components: &ComponentRegistry,
    decoder: &D,
) -> (res: Result<(DataComponent, ComponentData), ReadingError>)
    ensures
        match lp_component_result(components@, version, old(read)@) {
            Err((f, n)) => res matches Err(e) && e.failure() == f && final(read)@ == old(read)@.skip(
                n as int,
            ),
            Ok((cb, n)) => final(read)@ == old(read)@.skip(n as int) && (res matches Ok((c, d))
                ==> c == cb.0),
        },
        decoder.states_decoding() ==> match lp_component_decoded(
            *decoder,
            components@,
            version,
            old(read)@,
        ) {
            Ok(((c, x), n)) => res matches Ok((c2, d)) && c2 == c && data_value(d) == x,
            Err((f, n)) => res matches Err(e) && e.failure() == f,
        },
{
    let ghost s = read@;
    let id = read_component_id(read, version, components)?;
    let ghost s1 = read@;
    let ghost l0 = (s.len() - s1.len()) as nat;
    proof {
        lemma_var_int_result_len(s1);
    }
    let byte_len = match read.get_var_int() {
        Ok(v) => v.0,
        Err(e) => {
            proof {
                lemma_skip_skip(s, l0 as int, var_int_result(s1)->Err_0.1 as int);
            }
            return Err(e);
        },
    };
    let ghost s2 = read@;
    let ghost l1 = (s1.len() - s2.len()) as nat;
    proof {
        lemma_skip_skip(s, l0 as int, l1 as int);
    }
    if byte_len < 0 {
        return Err(ReadingError::Message(String::from_str("Negative component data length")));
    }
    let byte_len = byte_len as usize;
    if byte_len > MAX_PACKET_DATA_SIZE {
        return Err(ReadingError::TooLarge(String::from_str("Component data too large")));
    }
    let component_data = read.read_bytes(byte_len)?;
    proof {
        lemma_skip_skip(s, (l0 + l1) as int, byte_len as int);
    }
    let mut sub = ByteReader::new(component_data);
    let component_impl = decoder.decode(id, &mut sub)?;
    Ok((id, component_impl))
}

/// The decoder of a length-prefixed component's payload that sends the
/// custom name and the item name, which travel as NBT, to decoders of their
/// own, and every other component to `other`.
pub struct ComponentDispatch<N, I, O> {
    /// The custom name component.
    pub custom_name: DataComponent,
    /// The item name component.
    pub item_name: DataComponent,
    /// Decodes the custom name.
    pub custom_name_decoder: N,
    /// Decodes the item name.
    pub item_name_decoder: I,
    /// Decodes every other component.
    pub other: O,
}

impl<N: ComponentDecoder, I: ComponentDecoder, O: ComponentDecoder> ComponentDecoder for ComponentDispatch<
    N,
    I,
    O,
> {
    open spec fn states_decoding(&self) -> bool {
        &&& self.custom_name_decoder.states_decoding()
        &&& self.item_name_decoder.states_decoding()
        &&& self.other.states_decoding()
    }

    open spec fn decoded(&self, component: DataComponent, bytes: Seq<u8>) -> ReadOutcome<
        DecodedValue,
    > {
        if component == self.custom_name {
            self.custom_name_decoder.decoded(component, bytes)
        } else if component == self.item_name {
            self.item_name_decoder.decoded(component, bytes)
        } else {
            self.other.decoded(component, bytes)
        }
    }

    fn decode(&self, component: DataComponent, read: &mut ByteReader) -> (res: Result<
        ComponentData,
        ReadingError,
    >) {
        if component == self.custom_name {
            self.custom_name_decoder.decode(component, read)
        } else if component == self.item_name {
            self.item_name_decoder.decode(component, read)
        } else {
            self.other.decode(component, read)
        }
    }
}

proof fn lemma_component_id_result_len(t: ComponentTable, v: JavaMinecraftVersion, s: Seq<u8>)
    ensures
        component_id_result(t, v, s) matches Ok((c, n)) ==> 1 <= n <= s.len(),
        component_id_result(t, v, s) matches Err((f, n)) ==> n <= s.len(),
{
    lemma_var_int_result_len(s);
}

/// The opening of a non-empty slot: count, item id, number of set-value
/// entries, number of removal entries.
pub type SlotHead = (u8, i32, i32, i32);

/// The outcome of reading the opening of a slot from the front of `s`:
/// `None` for a zero count. With `strict_count` a count outside `0..=255` is
/// refused; without it the count is cut to its low byte. Entry counts must
/// be non-negative, add up within `i32` and to at most `MAX_COMPONENTS`.
pub open spec fn slot_head_result(s: Seq<u8>, strict_count: bool) -> ReadOutcome<Option<SlotHead>> {
    match var_int_result(s) {
        Err(e) => Err(e),
        Ok((c, l0)) => if c == 0 {
            Ok((None, l0))
        } else if strict_count && (c < 0 || c > 255) {
            Err((message("Invalid item count!"@), l0))
        } else {
            match var_int_result(s.skip(l0 as int)) {
                Err((f, m)) => Err((f, l0 + m)),
                Ok((id, l1)) => match var_int_result(s.skip((l0 + l1) as int)) {
                    Err((f, m)) => Err((f, l0 + l1 + m)),
                    Ok((a, l2)) => match var_int_result(s.skip((l0 + l1 + l2) as int)) {
                        Err((f, m)) => Err((f, l0 + l1 + l2 + m)),
                        Ok((r, l3)) => if a < 0 || r < 0 {
                            Err((message("Negative component count"@), l0 + l1 + l2 + l3))
                        } else if a + r > i32::MAX {
                            Err((message("Component count overflow"@), l0 + l1 + l2 + l3))
                        } else if a + r > MAX_COMPONENTS {
                            Err(
                                (
                                    message("Too many components in ItemStack patch"@),
                                    l0 + l1 + l2 + l3,
                                ),
                            )
                        } else {
                            Ok((Some((c as u8, id, a, r)), l0 + l1 + l2 + l3))
                        },
                    },
                },
            }
        },
    }
}

fn read_slot_head(read: &mut ByteReader, strict_count: bool) -> (res: Result<
    Option<SlotHead>,
    ReadingError,
>)
    ensures
        read_agrees(slot_head_result(old(read)@, strict_count), res, old(read)@, final(read)@),
{
    let ghost s = read@;
    proof {
        lemma_var_int_result_len(s);
    }
    let item_count = read.get_var_int()?;
    let ghost s1 = read@;
    let ghost l0 = (s.len() - s1.len()) as nat;
    if item_count.0 == 0 {
        return Ok(None);
    }
    if strict_count && (item_count.0 < 0 || item_count.0 > 255) {
        return Err(ReadingError::Message(String::from_str("Invalid item count!")));
    }
    proof {
        lemma_var_int_result_len(s1);
    }
    let item_id = match read.get_var_int() {
        Ok(v) => v,
        Err(e) => {
            proof {
                lemma_skip_skip(s, l0 as int, var_int_result(s1)->Err_0.1 as int);
            }
            return Err(e);
        },
    };
    let ghost s2 = read@;
    let ghost l1 = (s1.len() - s2.len()) as nat;
    proof {
        lemma_skip_skip(s, l0 as int, l1 as int);
        lemma_var_int_result_len(s2);
    }
    let num_to_add = match read.get_var_int() {
        Ok(v) => v.0,
        Err(e) => {
            proof {
                lemma_skip_skip(s, (l0 + l1) as int, var_int_result(s2)->Err_0.1 as int);
            }
            return Err(e);
        },
    };
    let ghost s3 = read@;
    let ghost l2 = (s2.len() - s3.len()) as nat;
    proof {
        lemma_skip_skip(s, (l0 + l1) as int, l2 as int);
        lemma_var_int_result_len(s3);
    }
    let num_to_remove = match read.get_var_int() {
        Ok(v) => v.0,
        Err(e) => {
            proof {
                lemma_skip_skip(s, (l0 + l1 + l2) as int, var_int_result(s3)->Err_0.1 as int);
            }
            return Err(e);
        },
    };
    let ghost s4 = read@;
    proof {
        lemma_skip_skip(s, (l0 + l1 + l2) as int, (s3.len() - s4.len()) as int);
    }
    if num_to_add < 0 || num_to_remove < 0 {
        return Err(ReadingError::Message(String::from_str("Negative component count")));
    }
    let total_components = match num_to_add.checked_add(num_to_remove) {
        Some(t) => t,
        None => {
            return Err(ReadingError::Message(String::from_str("Component count overflow")));
        },
    };
    if total_components > MAX_COMPONENTS {
        return Err(ReadingError::Message(String::from_str("Too many components in ItemStack patch")));
    }
    let count = #[verifier::truncate] (item_count.0 as u8);
    Ok(Some((count, item_id.0, num_to_add, num_to_remove)))
}

/// The outcome of reading `n` length-prefixed components from the front of
/// `s`.
pub open spec fn lp_added_result(t: ComponentTable, v: JavaMinecraftVersion, s: Seq<u8>, n: nat) -> ReadOutcome<
    Seq<(DataComponent, Seq<u8>)>,
>
    decreases n,
{
    if n == 0 {
        Ok((Seq::empty(), 0nat))
    } else {
        match lp_added_result(t, v, s, (n - 1) as nat) {
            Err(e) => Err(e),
            Ok((xs, l)) => match lp_component_result(t, v, s.skip(l as int)) {
                Err((f, m)) => Err((f, l + m)),
                Ok((x, l1)) => Ok((xs.push(x), l + l1)),
            },
        }
    }
}

/// The outcome of reading `n` length-prefixed components from the front of
/// `s` and decoding each payload with `dec` as soon as it is read.
pub open spec fn lp_added_decoded<D: ComponentDecoder>(
    dec: D,
    t: ComponentTable,
    v: JavaMinecraftVersion,
    s: Seq<u8>,
    n: nat,
) -> ReadOutcome<Seq<(DataComponent, DecodedValue)>>
    decreases n,
{
    if n == 0 {
        Ok((Seq::empty(), 0nat))
    } else {
        match lp_added_decoded(dec, t, v, s, (n - 1) as nat) {
            Err(e) => Err(e),
            Ok((xs, l)) => match lp_component_decoded(dec, t, v, s.skip(l as int)) {
                Err((f, m)) => Err((f, l + m)),
                Ok((x, l1)) => Ok((xs.push(x), l + l1)),
            },
        }
    }
}

/// The outcome of reading `n` set-value components in the plain form from
/// the front of `s`: each an id, then the value `dec` decodes from the bytes
/// right after it.
pub open spec fn plain_added_result<D: ComponentDecoder>(
    dec: D,
    t: ComponentTable,
    v: JavaMinecraftVersion,
    s: Seq<u8>,
    n: nat,
) -> ReadOutcome<Seq<(DataComponent, DecodedValue)>>
    decreases n,
{
    if n == 0 {
        Ok((Seq::empty(), 0nat))
    } else {
        match plain_added_result(dec, t, v, s, (n - 1) as nat) {
            Err(e) => Err(e),
            Ok((xs, l)) => match component_id_result(t, v, s.skip(l as int)) {
                Err((f, m)) => Err((f, l + m)),
                Ok((c, l1)) => match dec.decoded(c, s.skip((l + l1) as int)) {
                    Err((f, m)) => Err((f, l + l1 + m)),
                    Ok((x, l2)) => Ok((xs.push((c, x)), l + l1 + l2)),
                },
            },
        }
    }
}

/// The outcome of reading `n` component ids from the front of `s`.
pub open spec fn removed_ids_result(t: ComponentTable, v: JavaMinecraftVersion, s: Seq<u8>, n: nat) -> ReadOutcome<
    Seq<DataComponent>,
>
    decreases n,
{
    if n == 0 {
        Ok((Seq::empty(), 0nat))
    } else {
        match removed_ids_result(t, v, s, (n - 1) as nat) {
            Err(e) => Err(e),
            Ok((xs, l)) => match component_id_result(t, v, s.skip(l as int)) {
                Err((f, m)) => Err((f, l + m)),
                Ok((c, l1)) => Ok((xs.push(c), l + l1)),
            },
        }
    }
}

/// A length-prefixed slot as framed on the wire: count, item id, the
/// set-value components with their payloads, the removed components.
pub type LpFrame = (u8, i32, Seq<(DataComponent, Seq<u8>)>, Seq<DataComponent>);

/// A slot as read with its values decoded: count, item id, the set-value
/// components with their decoded values, the removed components.
pub type SlotFrame = (u8, i32, Seq<(DataComponent, DecodedValue)>, Seq<DataComponent>);

/// The outcome of reading, after the opening `h` taken from the first `l0`
/// bytes of `s`, the set-value entries (`added`, the outcome of reading them
/// from where the opening ends) and then the removed ids; the item id must
/// fit in 16 bits.
pub open spec fn slot_rest_result<X>(
    t: ComponentTable,
    v: JavaMinecraftVersion,
    s: Seq<u8>,
    h: SlotHead,
    l0: nat,
    added: ReadOutcome<Seq<X>>,
) -> ReadOutcome<Option<(u8, i32, Seq<X>, Seq<DataComponent>)>> {
    match added {
        Err((f, m)) => Err((f, l0 + m)),
        Ok((ad, l1)) => match removed_ids_result(t, v, s.skip((l0 + l1) as int), h.3 as nat) {
            Err((f, m)) => Err((f, l0 + l1 + m)),
            Ok((rm, l2)) => if h.1 < 0 || h.1 > 65535 {
                Err((message("Invalid item id!"@), l0 + l1 + l2))
            } else {
                Ok((Some((h.0, h.1, ad, rm)), l0 + l1 + l2))
            },
        },
    }
}

/// The outcome of reading a length-prefixed slot from the front of `s`,
/// sent by a client on release `v`: `None` for the empty slot. The item id
/// must fit in 16 bits.
pub open spec fn lp_slot_result(t: ComponentTable, v: JavaMinecraftVersion, s: Seq<u8>) -> ReadOutcome<
    Option<LpFrame>,
> {
    match slot_head_result(s, true) {
        Err(e) => Err(e),
        Ok((None, l0)) => Ok((None, l0)),
        Ok((Some(h), l0)) => slot_rest_result(
            t,
            v,
            s,
            h,
            l0,
            lp_added_result(t, v, s.skip(l0 as int), h.2 as nat),
        ),
    }
}

/// The outcome of reading a length-prefixed slot from the front of `s` and
/// decoding each payload with `dec` as soon as it is read.
pub open spec fn lp_slot_decoded<D: ComponentDecoder>(
    dec: D,
    t: ComponentTable,
    v: JavaMinecraftVersion,
    s: Seq<u8>,
) -> ReadOutcome<Option<SlotFrame>> {
    match slot_head_result(s, true) {
        Err(e) => Err(e),
        Ok((None, l0)) => Ok((None, l0)),
        Ok((Some(h), l0)) => slot_rest_result(
            t,
            v,
            s,
            h,
            l0,
            lp_added_decoded(dec, t, v, s.skip(l0 as int), h.2 as nat),
        ),
    }
}

/// The outcome of reading a slot in the plain form from the front of `s`,
/// sent by a client on release `v`, values decoded by `dec`: `None` for the
/// empty slot. The item id must fit in 16 bits.
pub open spec fn plain_slot_result<D: ComponentDecoder>(
    dec: D,
    t: ComponentTable,
    v: JavaMinecraftVersion,
    s: Seq<u8>,
) -> ReadOutcome<Option<SlotFrame>> {
    match slot_head_result(s, false) {
        Err(e) => Err(e),
        Ok((None, l0)) => Ok((None, l0)),
        Ok((Some(h), l0)) => slot_rest_result(
            t,
            v,
            s,
            h,
            l0,
            plain_added_result(dec, t, v, s.skip(l0 as int), h.2 as nat),
        ),
    }
}

/// `st` is the stack a reader builds from frame `f` with a table of `total`
/// items: the count, the item (air if the id names none), then one set-value
/// entry per framed component and one removal entry per removed id.
pub open spec fn stack_matches_frame(total: u16, st: ItemStack, f: LpFrame) -> bool {
    &&& st.item_count == f.0
    &&& st.item_id == item_or_air(total, f.1 as u16)
    &&& st.patch@.len() == f.2.len() + f.3.len()
    &&& forall|i: int|
        #![trigger st.patch@[i]]
        0 <= i < f.2.len() ==> st.patch@[i].0 == f.2[i].0 && st.patch@[i].1 is Some
    &&& forall|j: int|
        #![trigger st.patch@[f.2.len() + j]]
        0 <= j < f.3.len() ==> st.patch@[f.2.len() + j].0 == f.3[j] && st.patch@[f.2.len()
            + j].1 is None
}

/// `st` is the stack a reader builds from decoded frame `f` with a table of
/// `total` items: the count, the item (air if the id names none), then one
/// set-value entry per decoded component, holding its value, and one
/// removal entry per removed id.
pub open spec fn stack_matches_slot(total: u16, st: ItemStack, f: SlotFrame) -> bool {
    &&& st.item_count == f.0
    &&& st.item_id == item_or_air(total, f.1 as u16)
    &&& st.patch@.len() == f.2.len() + f.3.len()
    &&& forall|i: int|
        #![trigger st.patch@[i]]
        0 <= i < f.2.len() ==> st.patch@[i].0 == f.2[i].0 && (st.patch@[i].1 matches Some(d)
            && data_value(d) == f.2[i].1)
    &&& forall|j: int|
        #![trigger st.patch@[f.2.len() + j]]
        0 <= j < f.3.len() ==> st.patch@[f.2.len() + j].0 == f.3[j] && st.patch@[f.2.len()
            + j].1 is None
}

/// `st` is what a reader returns for the empty slot.
pub open spec fn empty_read(st: ItemStack) -> bool {
    st.item_id == AIR_ID && st.item_count == 0 && st.patch@.len() == 0
}

/// Component `c` is named by some wire id for a client on release `v`.
pub open spec fn known_component(t: ComponentTable, v: JavaMinecraftVersion, c: DataComponent) -> bool {
    exists|w: u8| #[trigger] lookup_wire_id(t, v, w) == Some(c)
}

/// `st` is a stack a reader can build in the plain form from opening `h`:
/// the count, the item, then the set-value entries and the removal entries,
/// each a component known to the release.
pub open spec fn stack_matches_head(
    total: u16,
    t: ComponentTable,
    v: JavaMinecraftVersion,
    st: ItemStack,
    h: SlotHead,
) -> bool {
    &&& st.item_count == h.0
    &&& 0 <= h.1 <= 65535
    &&& st.item_id == item_or_air(total, h.1 as u16)
    &&& st.patch@.len() == h.2 + h.3
    &&& forall|i: int|
        #![trigger st.patch@[i]]
        0 <= i < st.patch@.len() ==> (st.patch@[i].1 is Some <==> i < h.2) && known_component(
            t,
            v,
            st.patch@[i].0,
        )
}

/// The slot at the front of `s` opens without set-value entries, so
/// reading it needs no decoding: an empty slot, or a head counting none, or
/// a head that fails.
pub open spec fn head_without_added(s: Seq<u8>, strict_count: bool) -> bool {
    match slot_head_result(s, strict_count) {
        Ok((Some(h), _)) => h.2 == 0,
        _ => true,
    }
}

proof fn lemma_plain_added_err<D: ComponentDecoder>(
    dec: D,
    t: ComponentTable,
    v: JavaMinecraftVersion,
    s: Seq<u8>,
    i: nat,
    n: nat,
)
    requires
        i <= n,
        plain_added_result(dec, t, v, s, i) is Err,
    ensures
        plain_added_result(dec, t, v, s, n) == plain_added_result(dec, t, v, s, i),
    decreases n,
{
    if n > i {
        lemma_plain_added_err(dec, t, v, s, i, (n - 1) as nat);
    }
}

impl ItemStackSerializer {
    /// Reads a slot in the plain form sent by a client on release `version`,
    /// each component's value read by `decoder` straight from `read`. The
    /// item id is taken as the client sent it (see `to_stack_for_version`).
    #[verifier::loop_isolation(false)]
    #[verifier::rlimit(60)]
    pub fn read<D: ComponentDecoder>(
        read: &mut ByteReader,
        version: &JavaMinecraftVersion,
        components: &ComponentRegistry,
        items: &ItemTable,
        decoder: &D,
    ) -> (res: Result<ItemStackSerializer, ReadingError>)
        ensures
            decoder.states_decoding() || head_without_added(old(read)@, false) ==> match plain_slot_result(
                *decoder,
                components@,
                *version,
                old(read)@,
            ) {
                Ok((of, n)) => res matches Ok(st) && final(read)@ == old(read)@.skip(n as int)
                    && match of {
                    None => empty_read(st.0),
                    Some(f) => stack_matches_slot(items.total(), st.0, f),
                },
                Err((f, n)) => res matches Err(e) && e.failure() == f && final(read)@ == old(
                    read,
                )@.skip(n as int),
            },
            res matches Ok(st) ==> slot_head_result(old(read)@, false) matches Ok((oh, n)) && (
            oh matches Some(h) ==> stack_matches_head(
                items.total(),
                components@,
                *version,
                st.0,
                h,
            ) && (h.2 > 0 ==> st.0.patch@[0].0 == component_id_result(
                components@,
                *version,
                old(read)@.skip(n as int),
            )->Ok_0.0)),
    {
        let ghost s = read@;
        let ghost t = components@;
        let ghost exact = decoder.states_decoding() || head_without_added(s, false);
        let head = read_slot_head(read, false)?;
        let (count, item_id, num_to_add, num_to_remove) = match head {
            None => {
                return Ok(ItemStackSerializer(ItemStack::empty()));
            },
            Some(h) => h,
        };
        let ghost s1 = read@;
        let ghost l0 = (s.len() - s1.len()) as nat;
        let mut patch: Vec<PatchEntry> = Vec::with_capacity((num_to_add + num_to_remove) as usize);
        let mut i: i32 = 0;
        let ghost mut vals: Seq<(DataComponent, DecodedValue)> = Seq::empty();
        let ghost mut used: nat = 0;
        while i < num_to_add
            invariant
                0 <= i <= num_to_add,
                i == 0 ==> read@ == s1,
                patch@.len() == i,
                exact ==> vals.len() == i,
                forall|k: int|
                    #![trigger patch@[k]]
                    0 <= k < i ==> patch@[k].1 is Some && known_component(t, *version, patch@[k].0),
                i > 0 ==> patch@[0].0 == component_id_result(t, *version, s1)->Ok_0.0,
                exact ==> plain_added_result(*decoder, t, *version, s1, i as nat) == Ok::<
                    (Seq<(DataComponent, DecodedValue)>, nat),
                    (Failure, nat),
                >((vals, used)) && read@ == s1.skip(used as int) && used <= s1.len(),
                exact ==> forall|k: int|
                    #![trigger patch@[k]]
                    0 <= k < i ==> patch@[k].0 == vals[k].0 && (patch@[k].1 matches Some(d)
                        && data_value(d) == vals[k].1),
            decreases num_to_add - i,
        {
            let ghost before = read@;
            let id = match read_component_id(read, *version, components) {
                Ok(c) => c,
                Err(e) => {
                    proof {
                        if exact {
                            lemma_plain_added_err(
                                *decoder,
                                t,
                                *version,
                                s1,
                                (i + 1) as nat,
                                num_to_add as nat,
                            );
                            let m = component_id_result(t, *version, before)->Err_0.1;
                            lemma_skip_skip(s1, used as int, m as int);
                            lemma_skip_skip(s, l0 as int, (used + m) as int);
                        }
                    }
                    return Err(e);
                },
            };
            let ghost l1 = component_id_result(t, *version, before)->Ok_0.1;
            let ghost b2 = read@;
            proof {
                let x = var_int_result(before)->Ok_0.0;
                assert(lookup_wire_id(t, *version, x as u8) == Some(id));
                if exact {
                    lemma_skip_skip(s1, used as int, l1 as int);
                }
            }
            let component_impl = match decoder.decode(id, read) {
                Ok(d) => d,
                Err(e) => {
                    proof {
                        if exact {
                            let m = decoder.decoded(id, b2)->Err_0.1;
                            lemma_skip_skip(s1, (used + l1) as int, m as int);
                            lemma_plain_added_err(
                                *decoder,
                                t,
                                *version,
                                s1,
                                (i + 1) as nat,
                                num_to_add as nat,
                            );
                            lemma_skip_skip(s, l0 as int, (used + l1 + m) as int);
                        }
                    }
                    return Err(e);
                },
            };
            proof {
                if exact {
                    let (x, l2) = decoder.decoded(id, b2)->Ok_0;
                    lemma_skip_skip(s1, (used + l1) as int, l2 as int);
                    vals = vals.push((id, x));
                    used = used + l1 + l2;
                }
            }
            patch.push((id, Some(component_impl)));
            i = i + 1;
        }
        let ghost s2 = read@;
        proof {
            if exact {
                lemma_skip_skip(s, l0 as int, used as int);
            }
        }
        let mut j: i32 = 0;
        let ghost mut removed: Seq<DataComponent> = Seq::empty();
        let ghost mut used2: nat = 0;
        while j < num_to_remove
            invariant
                0 <= j <= num_to_remove,
                j == 0 ==> read@ == s2,
                patch@.len() == num_to_add + j,
                exact ==> removed.len() == j,
                forall|k: int|
                    #![trigger patch@[k]]
                    0 <= k < patch@.len() ==> (patch@[k].1 is Some <==> k < num_to_add)
                        && known_component(t, *version, patch@[k].0),
                num_to_add > 0 ==> patch@[0].0 == component_id_result(t, *version, s1)->Ok_0.0,
                exact ==> forall|k: int|
                    #![trigger patch@[k]]
                    0 <= k < num_to_add ==> patch@[k].0 == vals[k].0 && (patch@[k].1 matches Some(d)
                        && data_value(d) == vals[k].1),
                exact ==> {
                    &&& removed_ids_result(t, *version, s2, j as nat) == Ok::<
                        (Seq<DataComponent>, nat),
                        (Failure, nat),
                    >((removed, used2))
                    &&& read@ == s2.skip(used2 as int)
                    &&& used2 <= s2.len()
                },
                exact ==> forall|k: int|
                    #![trigger patch@[num_to_add + k]]
                    0 <= k < j ==> patch@[num_to_add + k].0 == removed[k],
            decreases num_to_remove - j,
        {
            let ghost before = read@;
            let id = match read_component_id(read, *version, components) {
                Ok(c) => c,
                Err(e) => {
                    proof {
                        if exact {
                            lemma_removed_ids_err(t, *version, s2, (j + 1) as nat, num_to_remove as nat);
                            let m = component_id_result(t, *version, before)->Err_0.1;
                            lemma_skip_skip(s2, used2 as int, m as int);
                            lemma_skip_skip(s, (l0 + used) as int, (used2 + m) as int);
                        }
                    }
                    return Err(e);
                },
            };
            proof {
                let x = var_int_result(before)->Ok_0.0;
                assert(lookup_wire_id(t, *version, x as u8) == Some(id));
                if exact {
                    let l = component_id_result(t, *version, before)->Ok_0.1;
                    lemma_skip_skip(s2, used2 as int, l as int);
                    removed = removed.push(id);
                    used2 = used2 + l;
                }
            }
            patch.push((id, None));
            j = j + 1;
        }
        proof {
            if exact {
                lemma_skip_skip(s, (l0 + used) as int, used2 as int);
            }
        }
        if item_id < 0 || item_id > 65535 {
            return Err(ReadingError::Message(String::from_str("Invalid item id!")));
        }
        let item_id_u16 = item_id as u16;
        let stack = ItemStack::new_with_component(count, items.item_or_air(item_id_u16), patch);
        proof {
            if exact {
                let f: SlotFrame = (count, item_id, vals, removed);
                assert(stack_matches_slot(items.total(), stack, f));
            }
        }
        Ok(ItemStackSerializer(stack))
    }
}

proof fn lemma_lp_added_err(t: ComponentTable, v: JavaMinecraftVersion, s: Seq<u8>, i: nat, n: nat)
    requires
        i <= n,
        lp_added_result(t, v, s, i) is Err,
    ensures
        lp_added_result(t, v, s, n) == lp_added_result(t, v, s, i),
    decreases n,
{
    if n > i {
        lemma_lp_added_err(t, v, s, i, (n - 1) as nat);
    }
}

proof fn lemma_lp_decoded_err<D: ComponentDecoder>(
    dec: D,
    t: ComponentTable,
    v: JavaMinecraftVersion,
    s: Seq<u8>,
    i: nat,
    n: nat,
)
    requires
        i <= n,
        lp_added_decoded(dec, t, v, s, i) is Err,
    ensures
        lp_added_decoded(dec, t, v, s, n) == lp_added_decoded(dec, t, v, s, i),
    decreases n,
{
    if n > i {
        lemma_lp_decoded_err(dec, t, v, s, i, (n - 1) as nat);
    }
}

proof fn lemma_lp_component_result_len(t: ComponentTable, v: JavaMinecraftVersion, s: Seq<u8>)
    ensures
        lp_component_result(t, v, s) matches Ok((x, n)) ==> n <= s.len(),
        lp_component_result(t, v, s) matches Err((f, n)) ==> n <= s.len(),
{
    lemma_component_id_result_len(t, v, s);
    if let Ok((c, l0)) = component_id_result(t, v, s) {
        lemma_var_int_result_len(s.skip(l0 as int));
    }
}

impl ItemStackSerializer {
    /// Reads a slot in the length-prefixed form sent by a client on release
    /// `version`, each component's payload handed alone to `decoder`. The
    /// item id is taken as the client sent it (see `to_stack_for_version`).
    #[verifier::loop_isolation(false)]
    #[verifier::rlimit(60)]
    pub fn read_length_prefixed_optional<D: ComponentDecoder>(
        read: &mut ByteReader,
        version: &JavaMinecraftVersion,
        components: &ComponentRegistry,
        items: &ItemTable,
        decoder: &D,
    ) -> (res: Result<ItemStackSerializer, ReadingError>)
        ensures
            res matches Ok(st) ==> lp_slot_result(components@, *version, old(read)@) matches Ok(
                (of, n),
            ) && final(read)@ == old(read)@.skip(n as int) && match of {
                None => empty_read(st.0),
                Some(f) => stack_matches_frame(items.total(), st.0, f),
            },
            lp_slot_result(components@, *version, old(read)@) is Err ==> res is Err,
            decoder.states_decoding() || head_without_added(old(read)@, true) ==> match lp_slot_decoded(
                *decoder,
                components@,
                *version,
                old(read)@,
            ) {
                Ok((of, n)) => res matches Ok(st) && final(read)@ == old(read)@.skip(n as int)
                    && match of {
                    None => empty_read(st.0),
                    Some(f) => stack_matches_slot(items.total(), st.0, f),
                },
                Err((f, n)) => res matches Err(e) && e.failure() == f && final(read)@ == old(
                    read,
                )@.skip(n as int),
            },
    {
        let ghost s = read@;
        let ghost t = components@;
        let ghost exact = decoder.states_decoding() || head_without_added(s, true);
        let head = read_slot_head(read, true)?;
        let (count, item_id, num_to_add, num_to_remove) = match head {
            None => {
                return Ok(ItemStackSerializer(ItemStack::empty()));
            },
            Some(h) => h,
        };
        let ghost s1 = read@;
        let ghost l0 = (s.len() - s1.len()) as nat;
        let mut patch: Vec<PatchEntry> = Vec::with_capacity((num_to_add + num_to_remove) as usize);
        let mut i: i32 = 0;
        let ghost mut frames: Seq<(DataComponent, Seq<u8>)> = Seq::empty();
        let ghost mut vals: Seq<(DataComponent, DecodedValue)> = Seq::empty();
        let ghost mut used: nat = 0;
        while i < num_to_add
            invariant
                0 <= i <= num_to_add,
                patch@.len() == i,
                frames.len() == i,
                exact ==> vals.len() == i,
                lp_added_result(t, *version, s1, i as nat) == Ok::<
                    (Seq<(DataComponent, Seq<u8>)>, nat),
                    (Failure, nat),
                >((frames, used)),
                exact ==> lp_added_decoded(*decoder, t, *version, s1, i as nat) == Ok::<
                    (Seq<(DataComponent, DecodedValue)>, nat),
                    (Failure, nat),
                >((vals, used)),
                read@ == s1.skip(used as int),
                used <= s1.len(),
                forall|k: int|
                    #![trigger patch@[k]]
                    0 <= k < i ==> patch@[k].1 is Some && patch@[k].0 == frames[k].0,
                exact ==> forall|k: int|
                    #![trigger patch@[k]]
                    0 <= k < i ==> patch@[k].0 == vals[k].0 && (patch@[k].1 matches Some(d)
                        && data_value(d) == vals[k].1),
            decreases num_to_add - i,
        {
            let ghost before = read@;
            proof {
                lemma_lp_component_result_len(t, *version, before);
            }
            let (id, component_impl) = match read_length_prefixed_component(
                read,
                *version,
                components,
                decoder,
            ) {
                Ok(x) => x,
                Err(e) => {
                    proof {
                        if lp_component_result(t, *version, before) is Err {
                            lemma_lp_added_err(t, *version, s1, (i + 1) as nat, num_to_add as nat);
                        }
                        if exact {
                            lemma_lp_decoded_err(
                                *decoder,
                                t,
                                *version,
                                s1,
                                (i + 1) as nat,
                                num_to_add as nat,
                            );
                            let m = lp_component_decoded(*decoder, t, *version, before)->Err_0.1;
                            lemma_skip_skip(s1, used as int, m as int);
                            lemma_skip_skip(s, l0 as int, (used + m) as int);
                        }
                    }
                    return Err(e);
                },
            };
            proof {
                let (x, l) = lp_component_result(t, *version, before)->Ok_0;
                lemma_skip_skip(s1, used as int, l as int);
                frames = frames.push(x);
                if exact {
                    let y = lp_component_decoded(*decoder, t, *version, before)->Ok_0.0;
                    vals = vals.push(y);
                }
                used = used + l;
            }
            patch.push((id, Some(component_impl)));
            i = i + 1;
        }
        let ghost s2 = read@;
        proof {
            lemma_skip_skip(s, l0 as int, used as int);
        }
        let mut j: i32 = 0;
        let ghost mut removed: Seq<DataComponent> = Seq::empty();
        let ghost mut used2: nat = 0;
        while j < num_to_remove
            invariant
                0 <= j <= num_to_remove,
                patch@.len() == num_to_add + j,
                removed.len() == j,
                frames.len() == num_to_add,
                removed_ids_result(t, *version, s2, j as nat) == Ok::<
                    (Seq<DataComponent>, nat),
                    (Failure, nat),
                >((removed, used2)),
                read@ == s2.skip(used2 as int),
                used2 <= s2.len(),
                forall|k: int|
                    #![trigger patch@[k]]
                    0 <= k < num_to_add ==> patch@[k].1 is Some && patch@[k].0 == frames[k].0,
                exact ==> forall|k: int|
                    #![trigger patch@[k]]
                    0 <= k < num_to_add ==> patch@[k].0 == vals[k].0 && (patch@[k].1 matches Some(d)
                        && data_value(d) == vals[k].1),
                forall|k: int|
                    #![trigger patch@[num_to_add + k]]
                    0 <= k < j ==> patch@[num_to_add + k].1 is None && patch@[num_to_add + k].0
                        == removed[k],
            decreases num_to_remove - j,
        {
            let ghost before = read@;
            let id = match read_component_id(read, *version, components) {
                Ok(c) => c,
                Err(e) => {
                    proof {
                        lemma_removed_ids_err(t, *version, s2, (j + 1) as nat, num_to_remove as nat);
                        let m = component_id_result(t, *version, before)->Err_0.1;
                        lemma_skip_skip(s2, used2 as int, m as int);
                        lemma_skip_skip(s, (l0 + used) as int, (used2 + m) as int);
                    }
                    return Err(e);
                },
            };
            proof {
                let l = component_id_result(t, *version, before)->Ok_0.1;
                lemma_skip_skip(s2, used2 as int, l as int);
                removed = removed.push(id);
                used2 = used2 + l;
            }
            patch.push((id, None));
            j = j + 1;
        }
        proof {
            lemma_skip_skip(s, (l0 + used) as int, used2 as int);
        }
        if item_id < 0 || item_id > 65535 {
            return Err(ReadingError::Message(String::from_str("Invalid item id!")));
        }
        let item_id_u16 = item_id as u16;
        let stack = ItemStack::new_with_component(count, items.item_or_air(item_id_u16), patch);
        proof {
            let f: LpFrame = (count, item_id, frames, removed);
            assert(stack_matches_frame(items.total(), stack, f));
            if exact {
                let g: SlotFrame = (count, item_id, vals, removed);
                assert(stack_matches_slot(items.total(), stack, g));
            }
        }
        Ok(ItemStackSerializer(stack))
    }
}

proof fn lemma_removed_ids_err(t: ComponentTable, v: JavaMinecraftVersion, s: Seq<u8>, i: nat, n: nat)
    requires
        i <= n,
        removed_ids_result(t, v, s, i) is Err,
    ensures
        removed_ids_result(t, v, s, n) == removed_ids_result(t, v, s, i),
    decreases n,
{
    if n > i {
        lemma_removed_ids_err(t, v, s, i, (n - 1) as nat);
    }
}

// ---------------------------------------------------------------------------
// Round trip of the length-prefixed form
// ---------------------------------------------------------------------------

/// The set-value entries of a patch, in order, as component and payload.
pub open spec fn added_frames(p: Seq<PatchEntry>) -> Seq<(DataComponent, Seq<u8>)>
    decreases p.len(),
{
    if p.len() == 0 {
        Seq::empty()
    } else {
        match p.last().1 {
            Some(d) => added_frames(p.drop_last()).push((p.last().0, d.payload@)),
            None => added_frames(p.drop_last()),
        }
    }
}

/// The components a patch removes, in order.
pub open spec fn removed_components(p: Seq<PatchEntry>) -> Seq<DataComponent>
    decreases p.len(),
{
    if p.len() == 0 {
        Seq::empty()
    } else {
        match p.last().1 {
            Some(_) => removed_components(p.drop_last()),
            None => removed_components(p.drop_last()).push(p.last().0),
        }
    }
}

/// Every component of the patch is in the registry and, for a client that
/// numbers the older way, has an older id; every payload is within the
/// length a reader accepts.
pub open spec fn patch_readable(t: ComponentTable, v: JavaMinecraftVersion, p: Seq<PatchEntry>) -> bool {
    forall|i: int|
        #![trigger p[i]]
        0 <= i < p.len() ==> {
            &&& has_id(t, p[i].0.0)
            &&& uses_legacy_ids(v) ==> legacy_of(t, p[i].0.0) is Some
            &&& p[i].1 matches Some(d) ==> d.payload@.len() <= MAX_PACKET_DATA_SIZE
        }
}

/// Every component of the patch is in the registry and, for a client that
/// numbers the older way, has an older id.
pub open spec fn components_readable(t: ComponentTable, v: JavaMinecraftVersion, p: Seq<PatchEntry>) -> bool {
    forall|i: int|
        #![trigger p[i]]
        0 <= i < p.len() ==> has_id(t, p[i].0.0) && (uses_legacy_ids(v) ==> legacy_of(t, p[i].0.0) is Some)
}

proof fn lemma_components_drop_last(t: ComponentTable, v: JavaMinecraftVersion, p: Seq<PatchEntry>)
    requires
        p.len() > 0,
        components_readable(t, v, p),
    ensures
        components_readable(t, v, p.drop_last()),
        has_id(t, p.last().0.0),
        uses_legacy_ids(v) ==> legacy_of(t, p.last().0.0) is Some,
{
    let q = p.drop_last();
    assert forall|i: int| 0 <= i < q.len() implies has_id(t, #[trigger] q[i].0.0) && (uses_legacy_ids(v)
        ==> legacy_of(t, q[i].0.0) is Some) by {
        assert(q[i] == p[i]);
    }
    assert(p[p.len() - 1] == p.last());
}

proof fn lemma_readable_components(t: ComponentTable, v: JavaMinecraftVersion, p: Seq<PatchEntry>)
    requires
        patch_readable(t, v, p),
    ensures
        components_readable(t, v, p),
{
}

proof fn lemma_readable_drop_last(t: ComponentTable, v: JavaMinecraftVersion, p: Seq<PatchEntry>)
    requires
        p.len() > 0,
        patch_readable(t, v, p),
    ensures
        patch_readable(t, v, p.drop_last()),
        has_id(t, p.last().0.0),
        uses_legacy_ids(v) ==> legacy_of(t, p.last().0.0) is Some,
        p.last().1 matches Some(d) ==> d.payload@.len() <= MAX_PACKET_DATA_SIZE,
{
    let q = p.drop_last();
    assert forall|i: int| 0 <= i < q.len() implies {
        &&& has_id(t, #[trigger] q[i].0.0)
        &&& uses_legacy_ids(v) ==> legacy_of(t, q[i].0.0) is Some
        &&& q[i].1 matches Some(d) ==> d.payload@.len() <= MAX_PACKET_DATA_SIZE
    } by {
        assert(q[i] == p[i]);
    }
    assert(p[p.len() - 1] == p.last());
}

/// A component id written for a client on release `v` is read back by that
/// release as the same component, whatever follows it, provided the
/// component is in the registry and, for a release that numbers the older
/// way, has an older id.
pub proof fn lemma_component_id_roundtrip(
    t: ComponentTable,
    v: JavaMinecraftVersion,
    c: DataComponent,
    rest: Seq<u8>,
)
    requires
        table_unique(t),
        has_id(t, c.0),
        uses_legacy_ids(v) ==> legacy_of(t, c.0) is Some,
    ensures
        component_id_result(t, v, component_id_bytes(t, c, v) + rest) == Ok::<
            (DataComponent, nat),
            (Failure, nat),
        >((c, component_id_bytes(t, c, v).len())),
{
    let w = wire_id(t, c, v);
    lemma_var_int_roundtrip(w as i32, rest);
    lemma_wire_id_lookup(t, c, v);
    assert((w as i32) as u8 == w);
}

proof fn lemma_lp_added_roundtrip(
    t: ComponentTable,
    v: JavaMinecraftVersion,
    p: Seq<PatchEntry>,
    rest: Seq<u8>,
)
    requires
        table_unique(t),
        patch_readable(t, v, p),
    ensures
        lp_added_result(t, v, lp_added_component_bytes(t, v, p) + rest, added_count(p)) == Ok::<
            (Seq<(DataComponent, Seq<u8>)>, nat),
            (Failure, nat),
        >((added_frames(p), lp_added_component_bytes(t, v, p).len())),
    decreases p.len(),
{
    if p.len() == 0 {
        assert(lp_added_component_bytes(t, v, p) + rest =~= rest);
    } else {
        let q = p.drop_last();
        let e = p.last();
        lemma_readable_drop_last(t, v, p);
        match e.1 {
            None => {
                assert(lp_added_component_bytes(t, v, p) =~= lp_added_component_bytes(t, v, q));
                lemma_lp_added_roundtrip(t, v, q, rest);
            },
            Some(d) => {
                let chunk = component_id_bytes(t, e.0, v) + var_int_bytes(d.payload@.len() as i32)
                    + d.payload@;
                let s = lp_added_component_bytes(t, v, p) + rest;
                assert(s =~= lp_added_component_bytes(t, v, q) + (chunk + rest));
                lemma_lp_added_roundtrip(t, v, q, chunk + rest);
                lemma_skip_prefix(lp_added_component_bytes(t, v, q), chunk + rest);
                lemma_lp_component_roundtrip(t, v, e.0, d.payload@, rest);
            },
        }
    }
}

proof fn lemma_lp_component_roundtrip(
    t: ComponentTable,
    v: JavaMinecraftVersion,
    c: DataComponent,
    pb: Seq<u8>,
    rest: Seq<u8>,
)
    requires
        table_unique(t),
        has_id(t, c.0),
        uses_legacy_ids(v) ==> legacy_of(t, c.0) is Some,
        pb.len() <= MAX_PACKET_DATA_SIZE,
    ensures
        ({
            let chunk = component_id_bytes(t, c, v) + var_int_bytes(pb.len() as i32) + pb;
            lp_component_result(t, v, chunk + rest) == Ok::<
                ((DataComponent, Seq<u8>), nat),
                (Failure, nat),
            >(((c, pb), chunk.len()))
        }),
{
    let ib = component_id_bytes(t, c, v);
    let lb = var_int_bytes(pb.len() as i32);
    let chunk = ib + lb + pb;
    let x = chunk + rest;
    assert(x =~= ib + (lb + (pb + rest)));
    lemma_component_id_roundtrip(t, v, c, lb + (pb + rest));
    lemma_skip_prefix(ib, lb + (pb + rest));
    lemma_var_int_roundtrip(pb.len() as i32, pb + rest);
    lemma_skip_skip(x, ib.len() as int, lb.len() as int);
    lemma_skip_prefix(lb, pb + rest);
    assert((pb + rest).take(pb.len() as int) =~= pb);
}

proof fn lemma_removed_roundtrip(
    t: ComponentTable,
    v: JavaMinecraftVersion,
    p: Seq<PatchEntry>,
    rest: Seq<u8>,
)
    requires
        table_unique(t),
        components_readable(t, v, p),
    ensures
        removed_ids_result(t, v, removed_component_bytes(t, v, p) + rest, removed_count(p))
            == Ok::<(Seq<DataComponent>, nat), (Failure, nat)>(
            (removed_components(p), removed_component_bytes(t, v, p).len()),
        ),
    decreases p.len(),
{
    if p.len() == 0 {
        assert(removed_component_bytes(t, v, p) + rest =~= rest);
    } else {
        let q = p.drop_last();
        let e = p.last();
        lemma_components_drop_last(t, v, p);
        match e.1 {
            Some(_) => {
                assert(removed_component_bytes(t, v, p) =~= removed_component_bytes(t, v, q));
                lemma_removed_roundtrip(t, v, q, rest);
            },
            None => {
                let ib = component_id_bytes(t, e.0, v);
                assert(removed_component_bytes(t, v, p) + rest =~= removed_component_bytes(t, v, q)
                    + (ib + rest));
                lemma_removed_roundtrip(t, v, q, ib + rest);
                lemma_skip_prefix(removed_component_bytes(t, v, q), ib + rest);
                lemma_component_id_roundtrip(t, v, e.0, rest);
            },
        }
    }
}

proof fn lemma_slot_head_roundtrip(count: u8, item_id: u16, a: nat, r: nat, rest: Seq<u8>)
    requires
        count != 0,
        a + r <= MAX_COMPONENTS,
    ensures
        ({
            let hb = var_int_bytes(count as i32) + var_int_bytes(item_id as i32) + var_int_bytes(
                a as i32,
            ) + var_int_bytes(r as i32);
            slot_head_result(hb + rest, true) == Ok::<(Option<SlotHead>, nat), (Failure, nat)>(
                (Some((count, item_id as i32, a as i32, r as i32)), hb.len()),
            )
        }),
{
    let b0 = var_int_bytes(count as i32);
    let b1 = var_int_bytes(item_id as i32);
    let b2 = var_int_bytes(a as i32);
    let b3 = var_int_bytes(r as i32);
    let s = b0 + b1 + b2 + b3 + rest;
    assert(s =~= b0 + (b1 + (b2 + (b3 + rest))));
    lemma_var_int_roundtrip(count as i32, b1 + (b2 + (b3 + rest)));
    lemma_skip_prefix(b0, b1 + (b2 + (b3 + rest)));
    lemma_var_int_roundtrip(item_id as i32, b2 + (b3 + rest));
    lemma_skip_skip(s, b0.len() as int, b1.len() as int);
    lemma_skip_prefix(b1, b2 + (b3 + rest));
    lemma_var_int_roundtrip(a as i32, b3 + rest);
    lemma_skip_skip(s, (b0.len() + b1.len()) as int, b2.len() as int);
    lemma_skip_prefix(b2, b3 + rest);
    lemma_var_int_roundtrip(r as i32, rest);
    lemma_skip_skip(s, (b0.len() + b1.len() + b2.len()) as int, b3.len() as int);
    lemma_skip_prefix(b3, rest);
    assert(((count as i32) as u8) == count);
}

/// The plain form opens a non-empty stack with its count, the item id it is
/// written under and its entry counts, which a plain reader takes back
/// (the count as written), provided the counts fit the byte counters and the
/// entries are within the accepted number.
pub proof fn lemma_plain_slot_head_roundtrip(
    t: ComponentTable,
    v: JavaMinecraftVersion,
    stack: ItemStack,
    item_id: u16,
    rest: Seq<u8>,
)
    requires
        !stack.spec_is_empty(),
        counts_fit(stack),
        stack.patch@.len() <= MAX_COMPONENTS,
    ensures
        ({
            let body = added_component_bytes(t, v, stack.patch@) + removed_component_bytes(
                t,
                v,
                stack.patch@,
            ) + rest;
            slot_head_result(slot_bytes(t, v, stack, item_id, false) + rest, false) == Ok::<
                (Option<SlotHead>, nat),
                (Failure, nat),
            >(
                (
                    Some(
                        (
                            stack.item_count,
                            item_id as i32,
                            added_count(stack.patch@) as i32,
                            removed_count(stack.patch@) as i32,
                        ),
                    ),
                    slot_head_bytes(stack, item_id, false).len(),
                ),
            )
        }),
{
    let p = stack.patch@;
    lemma_counts_sum(p);
    let hb = slot_head_bytes(stack, item_id, false);
    let body = added_component_bytes(t, v, p) + removed_component_bytes(t, v, p) + rest;
    lemma_slot_head_roundtrip(stack.item_count, item_id, added_count(p), removed_count(p), body);
    assert(slot_bytes(t, v, stack, item_id, false) + rest =~= hb + body);
    lemma_slot_head_strictness(hb + body);
}

proof fn lemma_slot_head_strictness(s: Seq<u8>)
    requires
        slot_head_result(s, true) is Ok,
    ensures
        slot_head_result(s, false) == slot_head_result(s, true),
{
}

/// Reading a stack back from its own length-prefixed encoding, whatever
/// follows it, gives its count, the item id it was written under, its
/// set-value entries with their payloads and its removed components, each in
/// patch order; an empty stack reads back as the empty slot. This holds for
/// a patch whose components the client's release can name, whose payloads
/// are within the accepted length and whose entries are within the accepted
/// number.
#[verifier::rlimit(40)]
pub proof fn lemma_lp_slot_roundtrip(
    t: ComponentTable,
    v: JavaMinecraftVersion,
    stack: ItemStack,
    item_id: u16,
    rest: Seq<u8>,
)
    requires
        table_unique(t),
        patch_readable(t, v, stack.patch@),
        counts_fit(stack),
        stack.patch@.len() <= MAX_COMPONENTS,
    ensures
        lp_slot_result(t, v, lp_slot_bytes(t, v, stack, item_id) + rest) == Ok::<
            (Option<LpFrame>, nat),
            (Failure, nat),
        >(
            (
                if stack.spec_is_empty() {
                    None
                } else {
                    Some(
                        (
                            stack.item_count,
                            item_id as i32,
                            added_frames(stack.patch@),
                            removed_components(stack.patch@),
                        ),
                    )
                },
                lp_slot_bytes(t, v, stack, item_id).len(),
            ),
        ),
{
    let p = stack.patch@;
    if stack.spec_is_empty() {
        lemma_var_int_roundtrip(0, rest);
    } else {
        lemma_counts_sum(p);
        let a = added_count(p);
        let r = removed_count(p);
        let hb = slot_head_bytes(stack, item_id, false);
        lemma_slot_head_roundtrip(stack.item_count, item_id, a, r, (lp_added_component_bytes(t, v, p)
            + removed_component_bytes(t, v, p)) + rest);
        let ba = lp_added_component_bytes(t, v, p);
        let br = removed_component_bytes(t, v, p);
        let s = lp_slot_bytes(t, v, stack, item_id) + rest;
        let l0 = hb.len();
        assert(s =~= hb + ((ba + br) + rest));
        lemma_skip_prefix(hb, (ba + br) + rest);
        assert((ba + br) + rest =~= ba + (br + rest));
        lemma_lp_added_roundtrip(t, v, p, br + rest);
        lemma_skip_skip(s, l0 as int, ba.len() as int);
        lemma_skip_prefix(ba, br + rest);
        lemma_readable_components(t, v, p);
        lemma_removed_roundtrip(t, v, p, rest);
    }
}

// ---------------------------------------------------------------------------
// Round trips through a decoder
// ---------------------------------------------------------------------------

/// The set-value entries of a patch, in order, as component and value.
pub open spec fn added_values(p: Seq<PatchEntry>) -> Seq<(DataComponent, DecodedValue)>
    decreases p.len(),
{
    if p.len() == 0 {
        Seq::empty()
    } else {
        match p.last().1 {
            Some(d) => added_values(p.drop_last()).push((p.last().0, data_value(d))),
            None => added_values(p.drop_last()),
        }
    }
}

/// `dec` states what it decodes, and reads the value of each set-value entry
/// of `p` back from that entry's payload, taking the payload and nothing
/// after it, whatever follows.
pub open spec fn decodes_payloads<D: ComponentDecoder>(dec: D, p: Seq<PatchEntry>) -> bool {
    &&& dec.states_decoding()
    &&& forall|i: int, rest: Seq<u8>|
        0 <= i < p.len() && p[i].1 is Some ==> #[trigger] dec.decoded(
            p[i].0,
            p[i].1.unwrap().payload@ + rest,
        ) == Ok::<(DecodedValue, nat), (Failure, nat)>(
            (data_value(p[i].1.unwrap()), p[i].1.unwrap().payload@.len()),
        )
}

proof fn lemma_decodes_drop_last<D: ComponentDecoder>(dec: D, p: Seq<PatchEntry>)
    requires
        p.len() > 0,
        decodes_payloads(dec, p),
    ensures
        decodes_payloads(dec, p.drop_last()),
{
    let q = p.drop_last();
    assert forall|i: int, rest: Seq<u8>| 0 <= i < q.len() && q[i].1 is Some implies #[trigger] dec.decoded(
        q[i].0,
        q[i].1.unwrap().payload@ + rest,
    ) == Ok::<(DecodedValue, nat), (Failure, nat)>(
        (data_value(q[i].1.unwrap()), q[i].1.unwrap().payload@.len()),
    ) by {
        assert(q[i] == p[i]);
        assert(dec.decoded(p[i].0, p[i].1.unwrap().payload@ + rest) == Ok::<
            (DecodedValue, nat),
            (Failure, nat),
        >((data_value(p[i].1.unwrap()), p[i].1.unwrap().payload@.len())));
    }
}

proof fn lemma_plain_added_roundtrip<D: ComponentDecoder>(
    dec: D,
    t: ComponentTable,
    v: JavaMinecraftVersion,
    p: Seq<PatchEntry>,
    rest: Seq<u8>,
)
    requires
        table_unique(t),
        components_readable(t, v, p),
        decodes_payloads(dec, p),
    ensures
        plain_added_result(dec, t, v, added_component_bytes(t, v, p) + rest, added_count(p))
            == Ok::<(Seq<(DataComponent, DecodedValue)>, nat), (Failure, nat)>(
            (added_values(p), added_component_bytes(t, v, p).len()),
        ),
    decreases p.len(),
{
    if p.len() == 0 {
        assert(added_component_bytes(t, v, p) + rest =~= rest);
    } else {
        let q = p.drop_last();
        let e = p.last();
        lemma_components_drop_last(t, v, p);
        lemma_decodes_drop_last(dec, p);
        match e.1 {
            None => {
                assert(added_component_bytes(t, v, p) =~= added_component_bytes(t, v, q));
                lemma_plain_added_roundtrip(dec, t, v, q, rest);
            },
            Some(d) => {
                let ib = component_id_bytes(t, e.0, v);
                let pb = d.payload@;
                let s = added_component_bytes(t, v, p) + rest;
                let l = added_component_bytes(t, v, q).len();
                assert(s =~= added_component_bytes(t, v, q) + (ib + (pb + rest)));
                lemma_plain_added_roundtrip(dec, t, v, q, ib + (pb + rest));
                lemma_skip_prefix(added_component_bytes(t, v, q), ib + (pb + rest));
                lemma_component_id_roundtrip(t, v, e.0, pb + rest);
                lemma_skip_skip(s, l as int, ib.len() as int);
                lemma_skip_prefix(ib, pb + rest);
                assert(p[p.len() - 1] == e);
                assert(dec.decoded(p[p.len() - 1].0, p[p.len() - 1].1.unwrap().payload@ + rest)
                    == Ok::<(DecodedValue, nat), (Failure, nat)>(
                    (data_value(p[p.len() - 1].1.unwrap()), p[p.len() - 1].1.unwrap().payload@.len()),
                ));
            },
        }
    }
}

/// Reading a stack back in the plain form from its own plain encoding,
/// whatever follows it, with a decoder that reads each value back from its
/// payload, gives its count, the item id it was written under, its
/// set-value entries with their values and its removed components, each in
/// patch order, and takes exactly the bytes written; an empty stack reads
/// back as the empty slot. This holds for a patch whose components the
/// client's release can name and whose entries are within the accepted
/// number.
#[verifier::rlimit(40)]
pub proof fn lemma_plain_slot_roundtrip<D: ComponentDecoder>(
    dec: D,
    t: ComponentTable,
    v: JavaMinecraftVersion,
    stack: ItemStack,
    item_id: u16,
    rest: Seq<u8>,
)
    requires
        table_unique(t),
        components_readable(t, v, stack.patch@),
        decodes_payloads(dec, stack.patch@),
        counts_fit(stack),
        stack.patch@.len() <= MAX_COMPONENTS,
    ensures
        plain_slot_result(dec, t, v, slot_bytes(t, v, stack, item_id, false) + rest) == Ok::<
            (Option<SlotFrame>, nat),
            (Failure, nat),
        >(
            (
                if stack.spec_is_empty() {
                    None
                } else {
                    Some(
                        (
                            stack.item_count,
                            item_id as i32,
                            added_values(stack.patch@),
                            removed_components(stack.patch@),
                        ),
                    )
                },
                slot_bytes(t, v, stack, item_id, false).len(),
            ),
        ),
{
    let p = stack.patch@;
    if stack.spec_is_empty() {
        lemma_var_int_roundtrip(0, rest);
    } else {
        lemma_counts_sum(p);
        let a = added_count(p);
        let r = removed_count(p);
        let hb = slot_head_bytes(stack, item_id, false);
        let ba = added_component_bytes(t, v, p);
        let br = removed_component_bytes(t, v, p);
        lemma_slot_head_roundtrip(stack.item_count, item_id, a, r, (ba + br) + rest);
        let s = slot_bytes(t, v, stack, item_id, false) + rest;
        let l0 = hb.len();
        assert(s =~= hb + ((ba + br) + rest));
        lemma_slot_head_strictness(s);
        lemma_skip_prefix(hb, (ba + br) + rest);
        assert((ba + br) + rest =~= ba + (br + rest));
        lemma_plain_added_roundtrip(dec, t, v, p, br + rest);
        lemma_skip_skip(s, l0 as int, ba.len() as int);
        lemma_skip_prefix(ba, br + rest);
        lemma_removed_roundtrip(t, v, p, rest);
    }
}

proof fn lemma_lp_added_decoded_roundtrip<D: ComponentDecoder>(
    dec: D,
    t: ComponentTable,
    v: JavaMinecraftVersion,
    p: Seq<PatchEntry>,
    rest: Seq<u8>,
)
    requires
        table_unique(t),
        patch_readable(t, v, p),
        decodes_payloads(dec, p),
    ensures
        lp_added_decoded(dec, t, v, lp_added_component_bytes(t, v, p) + rest, added_count(p))
            == Ok::<(Seq<(DataComponent, DecodedValue)>, nat), (Failure, nat)>(
            (added_values(p), lp_added_component_bytes(t, v, p).len()),
        ),
    decreases p.len(),
{
    if p.len() == 0 {
        assert(lp_added_component_bytes(t, v, p) + rest =~= rest);
    } else {
        let q = p.drop_last();
        let e = p.last();
        lemma_readable_drop_last(t, v, p);
        lemma_decodes_drop_last(dec, p);
        match e.1 {
            None => {
                assert(lp_added_component_bytes(t, v, p) =~= lp_added_component_bytes(t, v, q));
                lemma_lp_added_decoded_roundtrip(dec, t, v, q, rest);
            },
            Some(d) => {
                let pb = d.payload@;
                let chunk = component_id_bytes(t, e.0, v) + var_int_bytes(pb.len() as i32) + pb;
                let s = lp_added_component_bytes(t, v, p) + rest;
                assert(s =~= lp_added_component_bytes(t, v, q) + (chunk + rest));
                lemma_lp_added_decoded_roundtrip(dec, t, v, q, chunk + rest);
                lemma_skip_prefix(lp_added_component_bytes(t, v, q), chunk + rest);
                lemma_lp_component_roundtrip(t, v, e.0, pb, rest);
                assert(p[p.len() - 1] == e);
                assert(pb + Seq::<u8>::empty() =~= pb);
                assert(dec.decoded(
                    p[p.len() - 1].0,
                    p[p.len() - 1].1.unwrap().payload@ + Seq::<u8>::empty(),
                ) == Ok::<(DecodedValue, nat), (Failure, nat)>(
                    (data_value(p[p.len() - 1].1.unwrap()), p[p.len() - 1].1.unwrap().payload@.len()),
                ));
            },
        }
    }
}

/// Reading a stack back in the length-prefixed form from its own
/// length-prefixed encoding, whatever follows it, with a decoder that reads
/// each value back from its payload, gives its count, the item id it was
/// written under, its set-value entries with their values and its removed
/// components, each in patch order, and takes exactly the bytes written; an
/// empty stack reads back as the empty slot. This holds for a patch whose
/// components the client's release can name, whose payloads are within the
/// accepted length and whose entries are within the accepted number.
#[verifier::rlimit(40)]
pub proof fn lemma_lp_slot_decoded_roundtrip<D: ComponentDecoder>(
    dec: D,
    t: ComponentTable,
    v: JavaMinecraftVersion,
    stack: ItemStack,
    item_id: u16,
    rest: Seq<u8>,
)
    requires
        table_unique(t),
        patch_readable(t, v, stack.patch@),
        decodes_payloads(dec, stack.patch@),
        counts_fit(stack),
        stack.patch@.len() <= MAX_COMPONENTS,
    ensures
        lp_slot_decoded(dec, t, v, lp_slot_bytes(t, v, stack, item_id) + rest) == Ok::<
            (Option<SlotFrame>, nat),
            (Failure, nat),
        >(
            (
                if stack.spec_is_empty() {
                    None
                } else {
                    Some(
                        (
                            stack.item_count,
                            item_id as i32,
                            added_values(stack.patch@),
                            removed_components(stack.patch@),
                        ),
                    )
                },
                lp_slot_bytes(t, v, stack, item_id).len(),
            ),
        ),
{
    let p = stack.patch@;
    if stack.spec_is_empty() {
        lemma_var_int_roundtrip(0, rest);
    } else {
        lemma_counts_sum(p);
        let a = added_count(p);
        let r = removed_count(p);
        let hb = slot_head_bytes(stack, item_id, false);
        let ba = lp_added_component_bytes(t, v, p);
        let br = removed_component_bytes(t, v, p);
        lemma_slot_head_roundtrip(stack.item_count, item_id, a, r, (ba + br) + rest);
        let s = lp_slot_bytes(t, v, stack, item_id) + rest;
        let l0 = hb.len();
        assert(s =~= hb + ((ba + br) + rest));
        lemma_skip_prefix(hb, (ba + br) + rest);
        assert((ba + br) + rest =~= ba + (br + rest));
        lemma_lp_added_decoded_roundtrip(dec, t, v, p, br + rest);
        lemma_skip_skip(s, l0 as int, ba.len() as int);
        lemma_skip_prefix(ba, br + rest);
        lemma_readable_components(t, v, p);
        lemma_removed_roundtrip(t, v, p, rest);
    }
}

/// Every set-value entry of `p` comes before every removal entry.
pub open spec fn sets_before_removals(p: Seq<PatchEntry>) -> bool {
    forall|i: int, j: int| 0 <= i < j < p.len() && #[trigger] p[i].1 is None ==> #[trigger] p[j].1 is None
}

/// Position `i` of `p` sets a value, and the `i`-th set value of `p` is its.
spec fn kept_set(p: Seq<PatchEntry>, i: int) -> bool {
    p[i].1 is Some && added_values(p)[i] == (p[i].0, data_value(p[i].1.unwrap()))
}

/// Position `added_count(p) + j` of `p` removes, and the `j`-th removed
/// component of `p` is its.
spec fn kept_removal(p: Seq<PatchEntry>, j: int) -> bool {
    p[added_count(p) + j].1 is None && removed_components(p)[j] == p[added_count(p) + j].0
}

proof fn lemma_sets_first_split(p: Seq<PatchEntry>)
    requires
        sets_before_removals(p),
    ensures
        added_count(p) + removed_count(p) == p.len(),
        added_values(p).len() == added_count(p),
        removed_components(p).len() == removed_count(p),
        forall|i: int| 0 <= i < added_count(p) ==> #[trigger] kept_set(p, i),
        forall|j: int| 0 <= j < removed_count(p) ==> #[trigger] kept_removal(p, j),
    decreases p.len(),
{
    lemma_counts_sum(p);
    if p.len() > 0 {
        let q = p.drop_last();
        let e = p.last();
        assert(forall|i: int| 0 <= i < q.len() ==> #[trigger] q[i] == p[i]);
        assert(sets_before_removals(q));
        lemma_sets_first_split(q);
        lemma_counts_sum(q);
        let a = added_count(q);
        let r = removed_count(q);
        assert(p[p.len() - 1] == e);
        if e.1 is Some {
            if r > 0 {
                assert(kept_removal(q, 0));
                assert(q[a as int].1 is None);
                assert(p[a as int].1 is None);
                assert(p[p.len() - 1].1 is None);
            }
            assert(added_values(p) == added_values(q).push((e.0, data_value(e.1.unwrap()))));
            assert(removed_components(p) == removed_components(q));
            assert forall|i: int| 0 <= i < added_count(p) implies #[trigger] kept_set(p, i) by {
                if i < a {
                    assert(kept_set(q, i));
                    assert(q[i] == p[i]);
                }
            }
        } else {
            assert(added_values(p) == added_values(q));
            assert(removed_components(p) == removed_components(q).push(e.0));
            assert forall|i: int| 0 <= i < added_count(p) implies #[trigger] kept_set(p, i) by {
                assert(kept_set(q, i));
                assert(q[i] == p[i]);
            }
            assert forall|j: int| 0 <= j < removed_count(p) implies #[trigger] kept_removal(p, j) by {
                if j < r {
                    assert(kept_removal(q, j));
                    assert(q[a + j] == p[a + j]);
                }
            }
        }
    }
}

/// A stack whose set-value entries all come before its removals is rebuilt
/// entry for entry by a reader that takes back its count, item id, values
/// and removed components: the stack read has the same count, the item of
/// that id (air if it names none), and, at each position, the same
/// component, the same presence of a value and the same payload and
/// checksum.
pub proof fn lemma_read_back_patch(total: u16, read: ItemStack, stack: ItemStack, item_id: u16)
    requires
        sets_before_removals(stack.patch@),
        stack_matches_slot(
            total,
            read,
            (stack.item_count, item_id as i32, added_values(stack.patch@), removed_components(stack.patch@)),
        ),
    ensures
        read.item_count == stack.item_count,
        read.item_id == item_or_air(total, item_id),
        read.patch@.len() == stack.patch@.len(),
        forall|i: int|
            #![trigger read.patch@[i]]
            0 <= i < read.patch@.len() ==> {
                &&& read.patch@[i].0 == stack.patch@[i].0
                &&& read.patch@[i].1 is Some <==> stack.patch@[i].1 is Some
                &&& stack.patch@[i].1 matches Some(d) ==> data_value(read.patch@[i].1.unwrap())
                    == data_value(d)
            },
{
    let p = stack.patch@;
    lemma_sets_first_split(p);
    let a = added_count(p);
    assert((item_id as i32) as u16 == item_id);
    assert forall|i: int| #![trigger read.patch@[i]] 0 <= i < read.patch@.len() implies {
        &&& read.patch@[i].0 == stack.patch@[i].0
        &&& read.patch@[i].1 is Some <==> stack.patch@[i].1 is Some
        &&& stack.patch@[i].1 matches Some(d) ==> data_value(read.patch@[i].1.unwrap()) == data_value(d)
    } by {
        if i < a {
            assert(kept_set(p, i));
        } else {
            let j = i - a;
            assert(kept_removal(p, j));
            assert(read.patch@[added_values(p).len() + j] == read.patch@[i]);
        }
    }
}

/// An item cost opens with the item id it is written under, then the
/// stack's count, then the number of its set-value entries: a reader takes
/// back each of them, in that order, whatever follows.
pub proof fn lemma_item_cost_head(
    t: ComponentTable,
    v: JavaMinecraftVersion,
    stack: ItemStack,
    item_id: u16,
    rest: Seq<u8>,
)
    ensures
        ({
            let s = item_cost_bytes(t, v, stack, item_id) + rest;
            let l0 = var_int_bytes(item_id as i32).len();
            let l1 = var_int_bytes(stack.item_count as i32).len();
            let l2 = var_int_bytes(added_count(stack.patch@) as i32).len();
            &&& parse_var_int(s) == Some((item_id as i32, l0))
            &&& parse_var_int(s.skip(l0 as int)) == Some((stack.item_count as i32, l1))
            &&& parse_var_int(s.skip((l0 + l1) as int)) == Some(
                (added_count(stack.patch@) as i32, l2),
            )
            &&& s.skip((l0 + l1 + l2) as int) == added_component_bytes(t, v, stack.patch@) + rest
        }),
{
    let b0 = var_int_bytes(item_id as i32);
    let b1 = var_int_bytes(stack.item_count as i32);
    let b2 = var_int_bytes(added_count(stack.patch@) as i32);
    let ba = added_component_bytes(t, v, stack.patch@);
    let s = item_cost_bytes(t, v, stack, item_id) + rest;
    assert(s =~= b0 + (b1 + (b2 + (ba + rest))));
    lemma_var_int_roundtrip(item_id as i32, b1 + (b2 + (ba + rest)));
    lemma_skip_prefix(b0, b1 + (b2 + (ba + rest)));
    lemma_var_int_roundtrip(stack.item_count as i32, b2 + (ba + rest));
    lemma_skip_skip(s, b0.len() as int, b1.len() as int);
    lemma_skip_prefix(b1, b2 + (ba + rest));
    lemma_var_int_roundtrip(added_count(stack.patch@) as i32, ba + rest);
    lemma_skip_skip(s, (b0.len() + b1.len()) as int, b2.len() as int);
    lemma_skip_prefix(b2, ba + rest);
}

/// How the dispatch decoder routes: the custom name's payload is what the
/// custom-name decoder makes of it, the item name's (where it is not also
/// the custom name) what the item-name decoder makes of it, and every other
/// component's what the third decoder makes of it; the dispatch states its
/// decoding when all three do.
pub proof fn lemma_dispatch_routes<N: ComponentDecoder, I: ComponentDecoder, O: ComponentDecoder>(
    d: ComponentDispatch<N, I, O>,
    component: DataComponent,
    bytes: Seq<u8>,
)
    ensures
        component == d.custom_name ==> d.decoded(component, bytes)
            == d.custom_name_decoder.decoded(component, bytes),
        component != d.custom_name && component == d.item_name ==> d.decoded(component, bytes)
            == d.item_name_decoder.decoded(component, bytes),
        component != d.custom_name && component != d.item_name ==> d.decoded(component, bytes)
            == d.other.decoded(component, bytes),
        d.custom_name_decoder.states_decoding() && d.item_name_decoder.states_decoding()
            && d.other.states_decoding() ==> d.states_decoding(),
{
}

} // verus!
