use pumpkin_wire::component::{ComponentEntry, ComponentRegistry, DataComponent};
use pumpkin_wire::firework::FIREWORK_ROCKET_ID;
use pumpkin_wire::item::{ComponentData, ItemStack, ItemTable};
use pumpkin_wire::slot::{
    ComponentDecoder, ComponentDispatch, ItemStackSerializer, ItemStackTemplateSerializer, component_wire_id,
    item_component_counts, read_component_id,
};
use pumpkin_wire::version::JavaMinecraftVersion;
use pumpkin_wire::wire::{ByteReader, ReadingError};

const FIREWORKS: DataComponent = DataComponent(69);
const LODESTONE_TRACKER: DataComponent = DataComponent(67);
const NEWER_COMPONENT: DataComponent = DataComponent(68);
const CUSTOM_NAME: DataComponent = DataComponent(6);

fn entry(name: &str, id: u8, legacy_id: Option<u8>) -> ComponentEntry {
    ComponentEntry { name: name.to_string(), id, legacy_id }
}

fn registry() -> ComponentRegistry {
    ComponentRegistry::new(vec![
        entry("minecraft:custom_name", 6, Some(6)),
        entry("minecraft:lodestone_tracker", 67, Some(65)),
        entry("minecraft:newer_component", 68, None),
        entry("minecraft:fireworks", 69, Some(67)),
    ])
    .expect("distinct ids")
}

fn items() -> ItemTable {
    ItemTable::new(1500, Vec::new()).expect("distinct ids")
}

/// Takes the whole remaining payload as the component value, with the
/// payload's length as checksum.
struct RawDecoder;

impl ComponentDecoder for RawDecoder {
    fn decode(
        &self,
        _component: DataComponent,
        read: &mut ByteReader,
    ) -> Result<ComponentData, ReadingError> {
        let n = read.remaining();
        let payload = read.read_bytes(n)?;
        Ok(ComponentData { checksum: payload.len() as i32, payload })
    }
}

/// Decodes the fireworks component (flight duration, then an explosion
/// count that must be zero here) and nothing else.
struct FireworksDecoder;

impl ComponentDecoder for FireworksDecoder {
    fn decode(
        &self,
        component: DataComponent,
        read: &mut ByteReader,
    ) -> Result<ComponentData, ReadingError> {
        if component != FIREWORKS {
            return Err(ReadingError::Message("unexpected component".to_string()));
        }
        let flight = read.get_var_int()?;
        let explosions = read.get_var_int()?;
        let mut payload = Vec::new();
        pumpkin_wire::wire::put_var_int(&mut payload, &flight);
        pumpkin_wire::wire::put_var_int(&mut payload, &explosions);
        Ok(ComponentData { payload, checksum: 0 })
    }
}

fn fireworks_data(flight_duration: i32) -> ComponentData {
    let mut payload = Vec::new();
    pumpkin_wire::wire::put_var_int(&mut payload, &pumpkin_wire::wire::VarInt(flight_duration));
    pumpkin_wire::wire::put_var_int(&mut payload, &pumpkin_wire::wire::VarInt(0));
    ComponentData { payload, checksum: 0 }
}

#[test]
fn legacy_client_firework_component_id_resolves_correctly() {
    let bytes: Vec<u8> = vec![0x40, 0xda, 0x09, 0x01, 0x00, 0x43, 0x02, 0x03, 0x00];
    let mut read = ByteReader::new(bytes);

    let stack = ItemStackSerializer::read_length_prefixed_optional(
        &mut read,
        &JavaMinecraftVersion::v1_21_11(),
        &registry(),
        &items(),
        &FireworksDecoder,
    )
    .expect("legacy client's firework component should decode")
    .to_stack();

    let fireworks = stack
        .patch
        .iter()
        .find(|(id, _)| *id == FIREWORKS)
        .and_then(|(_, data)| data.as_ref())
        .expect("component id 67 resolved to Fireworks, not LodestoneTracker");
    let mut payload = ByteReader::new(fireworks.payload.clone());
    assert_eq!(payload.get_var_int().unwrap().0, 3);
    assert_eq!(payload.get_var_int().unwrap().0, 0);
}

#[test]
fn legacy_client_receives_legacy_fireworks_component_id() {
    let mut stack = ItemStack::new(64, FIREWORK_ROCKET_ID);
    stack.patch.push((FIREWORKS, Some(fireworks_data(3))));
    let serializer = ItemStackSerializer::from(stack);

    let mut bytes = Vec::new();
    serializer
        .write_with_version(&mut bytes, &JavaMinecraftVersion::v1_21_11(), &registry(), &items())
        .expect("serialize for a legacy client");

    let mut cursor = ByteReader::new(bytes.clone());
    cursor.get_var_int().unwrap();
    cursor.get_var_int().unwrap();
    cursor.get_var_int().unwrap();
    cursor.get_var_int().unwrap();
    let component_id = bytes[cursor.position()];
    assert_eq!(
        component_id, 67,
        "fireworks must be written as legacy id 67 for a 1.21.11 client, not the current id 69"
    );
}

#[test]
fn current_client_receives_current_fireworks_component_id() {
    let mut stack = ItemStack::new(64, FIREWORK_ROCKET_ID);
    stack.patch.push((FIREWORKS, Some(fireworks_data(3))));
    let serializer = ItemStackSerializer::from(stack);
    let mut bytes = Vec::new();
    serializer
        .write_with_version(&mut bytes, &JavaMinecraftVersion::v26_1(), &registry(), &items())
        .unwrap();
    assert_eq!(bytes, vec![0x40, 0xda, 0x09, 0x01, 0x00, 69, 0x03, 0x00]);
}

#[test]
fn component_wire_id_falls_back_to_current_id_without_legacy_id() {
    let reg = registry();
    let old = JavaMinecraftVersion::v1_21_11();
    assert_eq!(component_wire_id(&reg, FIREWORKS, old), 67);
    assert_eq!(component_wire_id(&reg, LODESTONE_TRACKER, old), 65);
    assert_eq!(component_wire_id(&reg, NEWER_COMPONENT, old), 68);
    assert_eq!(component_wire_id(&reg, FIREWORKS, JavaMinecraftVersion::v26_2()), 69);
}

#[test]
fn read_component_id_uses_the_clients_numbering() {
    let reg = registry();
    let mut r = ByteReader::new(vec![67]);
    assert_eq!(read_component_id(&mut r, JavaMinecraftVersion::v1_21_11(), &reg).unwrap(), FIREWORKS);
    let mut r = ByteReader::new(vec![67]);
    assert_eq!(read_component_id(&mut r, JavaMinecraftVersion::v26_1(), &reg).unwrap(), LODESTONE_TRACKER);
}

#[test]
fn read_component_id_rejects_unknown_and_out_of_range_ids() {
    let reg = registry();
    let mut r = ByteReader::new(vec![68]);
    assert!(matches!(
        read_component_id(&mut r, JavaMinecraftVersion::v1_21_11(), &reg),
        Err(ReadingError::Message(_))
    ));
    // 300 does not fit a byte.
    let mut r = ByteReader::new(vec![0xac, 0x02]);
    assert!(matches!(
        read_component_id(&mut r, JavaMinecraftVersion::v26_1(), &reg),
        Err(ReadingError::Message(_))
    ));
    let mut r = ByteReader::new(vec![]);
    assert!(matches!(
        read_component_id(&mut r, JavaMinecraftVersion::v26_1(), &reg),
        Err(ReadingError::Incomplete(_))
    ));
}

#[test]
fn length_prefixed_round_trip_keeps_ids_and_payloads() {
    let reg = registry();
    let mut stack = ItemStack::new(5, 42);
    stack.patch.push((CUSTOM_NAME, None));
    stack.patch.push((FIREWORKS, Some(fireworks_data(2))));
    stack.patch.push((LODESTONE_TRACKER, Some(ComponentData { payload: vec![9, 8, 7], checksum: 0 })));
    let ser = ItemStackSerializer::from(stack);
    for version in [JavaMinecraftVersion::v1_21_11(), JavaMinecraftVersion::v26_1()] {
        let mut bytes = Vec::new();
        ser.write_length_prefixed_with_version(&mut bytes, &version, &reg, &items()).unwrap();
        bytes.push(0xee);
        let mut read = ByteReader::new(bytes);
        let back = ItemStackSerializer::read_length_prefixed_optional(
            &mut read, &version, &reg, &items(), &RawDecoder,
        )
        .unwrap()
        .to_stack();
        assert_eq!(read.remaining(), 1);
        assert_eq!(back.item_count, 5);
        assert_eq!(back.item_id, 42);
        assert_eq!(back.patch.len(), 3);
        assert_eq!(back.patch[0].0, FIREWORKS);
        assert_eq!(back.patch[0].1.as_ref().unwrap().payload, vec![2, 0]);
        assert_eq!(back.patch[1].0, LODESTONE_TRACKER);
        assert_eq!(back.patch[1].1.as_ref().unwrap().payload, vec![9, 8, 7]);
        assert_eq!(back.patch[2].0, CUSTOM_NAME);
        assert!(back.patch[2].1.is_none());
    }
}

#[test]
fn empty_stack_is_a_single_zero() {
    let ser = ItemStackSerializer::from_optional(None);
    let mut bytes = Vec::new();
    ser.write(&mut bytes, &registry()).unwrap();
    assert_eq!(bytes, vec![0]);
    let mut lp = Vec::new();
    ser.write_length_prefixed_with_version(&mut lp, &JavaMinecraftVersion::v26_1(), &registry(), &items())
        .unwrap();
    assert_eq!(lp, vec![0]);
    let mut read = ByteReader::new(vec![0, 7]);
    let back = ItemStackSerializer::read(
        &mut read, &JavaMinecraftVersion::v26_1(), &registry(), &items(), &RawDecoder,
    )
    .unwrap()
    .to_stack();
    assert!(back.is_empty());
    assert_eq!(read.remaining(), 1);
}

#[test]
fn plain_read_uses_the_decoder_without_length_prefix() {
    // count 1, item 7, one added (fireworks, current id 69), no removal.
    let bytes = vec![1, 7, 1, 0, 69, 3, 0];
    let mut read = ByteReader::new(bytes);
    let st = ItemStackSerializer::read(
        &mut read, &JavaMinecraftVersion::v26_1(), &registry(), &items(), &FireworksDecoder,
    )
    .unwrap()
    .to_stack();
    assert_eq!(read.remaining(), 0);
    assert_eq!(st.item_count, 1);
    assert_eq!(st.item_id, 7);
    assert_eq!(st.patch.len(), 1);
    assert_eq!(st.patch[0].0, FIREWORKS);
    assert_eq!(st.patch[0].1.as_ref().unwrap().payload, vec![3, 0]);
}

#[test]
fn slot_head_errors() {
    let v = JavaMinecraftVersion::v26_1();
    // Negative component count.
    let mut r = ByteReader::new(vec![1, 7, 0x7f, 0]);
    let bad = vec![1u8, 7, 0xff, 0xff, 0xff, 0xff, 0x0f, 0];
    let mut r2 = ByteReader::new(bad);
    assert!(ItemStackSerializer::read(&mut r, &v, &registry(), &items(), &RawDecoder).is_err());
    assert!(matches!(
        ItemStackSerializer::read(&mut r2, &v, &registry(), &items(), &RawDecoder),
        Err(ReadingError::Message(_))
    ));
    // Too many components: 200 + 100.
    let mut r3 = ByteReader::new(vec![1, 7, 0xc8, 0x01, 0x64]);
    assert!(matches!(
        ItemStackSerializer::read_length_prefixed_optional(&mut r3, &v, &registry(), &items(), &RawDecoder),
        Err(ReadingError::Message(_))
    ));
    // Item count 300 is refused by the length-prefixed form.
    let mut r4 = ByteReader::new(vec![0xac, 0x02, 7, 0, 0]);
    assert!(matches!(
        ItemStackSerializer::read_length_prefixed_optional(&mut r4, &v, &registry(), &items(), &RawDecoder),
        Err(ReadingError::Message(_))
    ));
    // ... and cut to its low byte by the plain form.
    let mut r5 = ByteReader::new(vec![0xac, 0x02, 7, 0, 0]);
    let st = ItemStackSerializer::read(&mut r5, &v, &registry(), &items(), &RawDecoder).unwrap().to_stack();
    assert_eq!(st.item_count, 44);
    // Truncated input.
    let mut r6 = ByteReader::new(vec![1, 7]);
    assert!(matches!(
        ItemStackSerializer::read(&mut r6, &v, &registry(), &items(), &RawDecoder),
        Err(ReadingError::Incomplete(_))
    ));
}

#[test]
fn length_prefixed_component_errors() {
    let v = JavaMinecraftVersion::v26_1();
    // Negative payload length.
    let mut r = ByteReader::new(vec![1, 7, 1, 0, 69, 0xff, 0xff, 0xff, 0xff, 0x0f]);
    assert!(matches!(
        ItemStackSerializer::read_length_prefixed_optional(&mut r, &v, &registry(), &items(), &RawDecoder),
        Err(ReadingError::Message(_))
    ));
    // Payload longer than the packet limit.
    let mut r = ByteReader::new(vec![1, 7, 1, 0, 69, 0x81, 0x80, 0x80, 0x04]);
    assert!(matches!(
        ItemStackSerializer::read_length_prefixed_optional(&mut r, &v, &registry(), &items(), &RawDecoder),
        Err(ReadingError::TooLarge(_))
    ));
    // Payload shorter than announced.
    let mut r = ByteReader::new(vec![1, 7, 1, 0, 69, 3, 1]);
    assert!(matches!(
        ItemStackSerializer::read_length_prefixed_optional(&mut r, &v, &registry(), &items(), &RawDecoder),
        Err(ReadingError::Incomplete(_))
    ));
}

#[test]
fn invalid_item_id_is_refused_and_unknown_item_becomes_air() {
    let v = JavaMinecraftVersion::v26_1();
    // Item id 70000 does not fit 16 bits.
    let mut r = ByteReader::new(vec![1, 0xf0, 0xa2, 0x04, 0, 0]);
    assert!(matches!(
        ItemStackSerializer::read(&mut r, &v, &registry(), &items(), &RawDecoder),
        Err(ReadingError::Message(_))
    ));
    // Item id 2000 is beyond the table: air.
    let mut r = ByteReader::new(vec![1, 0xd0, 0x0f, 0, 0]);
    let st = ItemStackSerializer::read(&mut r, &v, &registry(), &items(), &RawDecoder).unwrap().to_stack();
    assert_eq!(st.item_id, 0);
}

#[test]
fn template_order_depends_on_release() {
    let stack = ItemStack::new(3, 300);
    let ser = ItemStackTemplateSerializer::from(stack);
    let mut new = Vec::new();
    ser.write_with_version(&mut new, &JavaMinecraftVersion::v26_1(), &registry(), &items()).unwrap();
    assert_eq!(new, vec![0xac, 0x02, 3, 0, 0]);
    let mut old = Vec::new();
    ser.write_with_version(&mut old, &JavaMinecraftVersion::v1_21_11(), &registry(), &items()).unwrap();
    assert_eq!(old, vec![3, 0xac, 0x02, 0, 0]);
    let mut cur = Vec::new();
    ser.write(&mut cur, &registry()).unwrap();
    assert_eq!(cur, vec![0xac, 0x02, 3, 0, 0]);
}

#[test]
fn item_cost_lists_only_set_values() {
    let mut stack = ItemStack::new(2, 10);
    stack.patch.push((CUSTOM_NAME, None));
    stack.patch.push((FIREWORKS, Some(fireworks_data(1))));
    let ser = ItemStackSerializer::from(stack);
    let mut bytes = Vec::new();
    ser.write_item_cost_with_version(&mut bytes, &JavaMinecraftVersion::v1_21_11(), &registry(), &items())
        .unwrap();
    assert_eq!(bytes, vec![10, 2, 1, 67, 1, 0]);
    assert_eq!(item_component_counts(&ser.0), (1, 1));
}

#[test]
fn item_ids_are_renumbered_for_older_clients() {
    let table = ItemTable::new(1500, vec![(1300, 1299)]).unwrap();
    let old = JavaMinecraftVersion::v1_21_11();
    assert_eq!(table.remap_item_id_for_version(1300, old), 1299);
    assert_eq!(table.remap_item_id_from_version(1299, old), 1300);
    assert_eq!(table.remap_item_id_for_version(1300, JavaMinecraftVersion::v26_1()), 1300);
    let ser = ItemStackSerializer::from(ItemStack::new(1, 1299));
    let st = ser.to_stack_for_version(&old, &table);
    assert_eq!(st.item_id, 1300);
    let mut bytes = Vec::new();
    ItemStackSerializer::from(ItemStack::new(1, 1300))
        .write_with_version(&mut bytes, &old, &registry(), &table)
        .unwrap();
    assert_eq!(bytes, vec![1, 0x93, 0x0a, 0, 0]);
    assert!(ItemTable::new(10, vec![(1, 2), (3, 2)]).is_none());
}

#[test]
fn registry_refuses_shared_ids() {
    assert!(ComponentRegistry::new(vec![entry("a", 1, Some(1)), entry("b", 1, Some(2))]).is_none());
    assert!(ComponentRegistry::new(vec![entry("a", 1, Some(3)), entry("b", 2, Some(3))]).is_none());
    assert!(ComponentRegistry::new(vec![entry("a", 1, None), entry("b", 2, None)]).is_some());
    let reg = registry();
    assert_eq!(reg.try_from_id(69), Some(FIREWORKS));
    assert_eq!(reg.try_from_id(70), None);
    assert_eq!(reg.try_from_id_legacy(65), Some(LODESTONE_TRACKER));
    assert_eq!(reg.to_id_legacy(NEWER_COMPONENT), None);
}

#[test]
fn renumbered_item_comes_back_through_an_older_client() {
    let table = ItemTable::new(1500, vec![(1300, 1299)]).unwrap();
    let old = JavaMinecraftVersion::v1_21_11();
    let mut bytes = Vec::new();
    ItemStackSerializer::from(ItemStack::new(3, 1300))
        .write_length_prefixed_with_version(&mut bytes, &old, &registry(), &table)
        .unwrap();
    let mut read = ByteReader::new(bytes);
    let received = ItemStackSerializer::read_length_prefixed_optional(
        &mut read, &old, &registry(), &table, &RawDecoder,
    )
    .unwrap();
    assert_eq!(received.0.item_id, 1299);
    let back = received.to_stack_for_version(&old, &table);
    assert_eq!(back.item_id, 1300);
    assert_eq!(back.item_count, 3);
}

#[test]
fn slot_without_set_values_needs_no_decoder() {
    let v = JavaMinecraftVersion::v26_1();
    // count 2, item 9, no set values, one removal of component 6.
    let mut r = ByteReader::new(vec![2, 9, 0, 1, 6]);
    let st = ItemStackSerializer::read(&mut r, &v, &registry(), &items(), &FireworksDecoder)
        .unwrap()
        .to_stack();
    assert_eq!(st.patch.len(), 1);
    assert_eq!(st.patch[0].0, CUSTOM_NAME);
    assert!(st.patch[0].1.is_none());
    // The same with an unknown removed id fails.
    let mut r = ByteReader::new(vec![2, 9, 0, 1, 99]);
    assert!(ItemStackSerializer::read(&mut r, &v, &registry(), &items(), &FireworksDecoder).is_err());
    let mut r = ByteReader::new(vec![2, 9, 0, 1, 6]);
    assert!(ItemStackSerializer::read_length_prefixed_optional(
        &mut r, &v, &registry(), &items(), &FireworksDecoder
    )
    .is_ok());
}

fn failure_of<T: std::fmt::Debug>(r: Result<T, ReadingError>) -> ReadingError {
    match r {
        Err(e) => e,
        Ok(v) => panic!("expected a failure, got {:?}", v),
    }
}

fn message_text(e: ReadingError) -> String {
    match e {
        ReadingError::Message(m) => m,
        other => panic!("expected a message error, got {:?}", other),
    }
}

#[test]
fn component_id_errors_name_the_id() {
    let reg = registry();
    let mut r = ByteReader::new(vec![68, 9]);
    let e = failure_of(read_component_id(&mut r, JavaMinecraftVersion::v1_21_11(), &reg));
    assert_eq!(message_text(e), "Unknown component ID: 68");
    assert_eq!(r.remaining(), 1);
    let mut r = ByteReader::new(vec![0xac, 0x02, 9]);
    let e = failure_of(read_component_id(&mut r, JavaMinecraftVersion::v26_1(), &reg));
    assert_eq!(message_text(e), "Invalid component ID: 300");
    assert_eq!(r.remaining(), 1);
    let mut r = ByteReader::new(vec![0xff, 0xff, 0xff, 0xff, 0x0f]);
    let e = failure_of(read_component_id(&mut r, JavaMinecraftVersion::v26_1(), &reg));
    assert_eq!(message_text(e), "Invalid component ID: -1");
    assert_eq!(r.remaining(), 0);
}

#[test]
fn slot_read_errors_carry_their_text_and_stop_where_found() {
    let v = JavaMinecraftVersion::v26_1();
    let plain = |bytes: Vec<u8>| {
        let mut r = ByteReader::new(bytes);
        let e = failure_of(ItemStackSerializer::read(&mut r, &v, &registry(), &items(), &RawDecoder));
        (e, r.remaining())
    };
    let lp = |bytes: Vec<u8>| {
        let mut r = ByteReader::new(bytes);
        let e = failure_of(ItemStackSerializer::read_length_prefixed_optional(
            &mut r, &v, &registry(), &items(), &RawDecoder,
        ));
        (e, r.remaining())
    };
    let (e, left) = plain(vec![1, 7, 0xff, 0xff, 0xff, 0xff, 0x0f, 0, 0xee]);
    assert_eq!((message_text(e), left), ("Negative component count".to_string(), 1));
    let (e, left) = plain(vec![1, 7, 0xff, 0xff, 0xff, 0xff, 0x07, 1, 0xee]);
    assert_eq!((message_text(e), left), ("Component count overflow".to_string(), 1));
    let (e, left) = lp(vec![1, 7, 0xc8, 0x01, 0x64, 0xee]);
    assert_eq!((message_text(e), left), ("Too many components in ItemStack patch".to_string(), 1));
    let (e, left) = lp(vec![0xac, 0x02, 0xee]);
    assert_eq!((message_text(e), left), ("Invalid item count!".to_string(), 1));
    let (e, left) = plain(vec![1, 0xff, 0xff, 0xff, 0xff, 0x0f, 0, 1, 6, 0xee]);
    assert_eq!((message_text(e), left), ("Invalid item id!".to_string(), 1));
    let (e, left) = lp(vec![1, 7, 1, 0, 69, 0xff, 0xff, 0xff, 0xff, 0x0f, 0xee]);
    assert_eq!((message_text(e), left), ("Negative component data length".to_string(), 1));
    let (e, left) = lp(vec![1, 7, 1, 0, 69, 0x81, 0x80, 0x80, 0x04, 0xee]);
    match e {
        ReadingError::TooLarge(m) => assert_eq!(m, "Component data too large"),
        other => panic!("expected too large, got {:?}", other),
    }
    assert_eq!(left, 1);
    let (e, left) = plain(vec![1, 7, 0, 2, 6, 0x7e]);
    assert_eq!((message_text(e), left), ("Unknown component ID: 126".to_string(), 0));
}

#[test]
fn plain_read_keeps_removed_ids_in_wire_order() {
    let v = JavaMinecraftVersion::v26_1();
    let mut r = ByteReader::new(vec![2, 7, 0, 2, 67, 6, 0xee]);
    let st = ItemStackSerializer::read(&mut r, &v, &registry(), &items(), &RawDecoder)
        .unwrap()
        .to_stack();
    assert_eq!(r.remaining(), 1);
    assert_eq!(st.patch.len(), 2);
    assert_eq!(st.patch[0].0, LODESTONE_TRACKER);
    assert_eq!(st.patch[1].0, CUSTOM_NAME);
    assert!(st.patch[0].1.is_none() && st.patch[1].1.is_none());
}

/// Takes the whole payload and marks the value with checksum 7.
struct MarkingDecoder;

impl ComponentDecoder for MarkingDecoder {
    fn decode(
        &self,
        _component: DataComponent,
        read: &mut ByteReader,
    ) -> Result<ComponentData, ReadingError> {
        let n = read.remaining();
        let payload = read.read_bytes(n)?;
        Ok(ComponentData { payload, checksum: 7 })
    }
}

#[test]
fn length_prefixed_names_go_to_their_own_decoder() {
    let reg = registry();
    let v = JavaMinecraftVersion::v26_1();
    let mut stack = ItemStack::new(1, 42);
    stack.patch.push((CUSTOM_NAME, Some(ComponentData { payload: vec![8, 0, 2, 104, 105], checksum: 0 })));
    stack.patch.push((FIREWORKS, Some(fireworks_data(1))));
    let mut bytes = Vec::new();
    ItemStackSerializer::from(stack)
        .write_length_prefixed_with_version(&mut bytes, &v, &reg, &items())
        .unwrap();
    let dispatch = ComponentDispatch {
        custom_name: CUSTOM_NAME,
        item_name: DataComponent(9),
        custom_name_decoder: MarkingDecoder,
        item_name_decoder: MarkingDecoder,
        other: RawDecoder,
    };
    let mut read = ByteReader::new(bytes);
    let back = ItemStackSerializer::read_length_prefixed_optional(&mut read, &v, &reg, &items(), &dispatch)
        .unwrap()
        .to_stack();
    assert_eq!(read.remaining(), 0);
    let name = back.patch[0].1.as_ref().unwrap();
    assert_eq!((name.payload.clone(), name.checksum), (vec![8, 0, 2, 104, 105], 7));
    let fireworks = back.patch[1].1.as_ref().unwrap();
    assert_eq!((fireworks.payload.clone(), fireworks.checksum), (vec![1, 0], 2));
}

#[test]
fn plain_round_trip_through_the_decoder() {
    let reg = registry();
    for version in [JavaMinecraftVersion::v1_21_11(), JavaMinecraftVersion::v26_1()] {
        let mut stack = ItemStack::new(3, 42);
        stack.patch.push((FIREWORKS, Some(fireworks_data(2))));
        stack.patch.push((CUSTOM_NAME, None));
        let mut bytes = Vec::new();
        ItemStackSerializer::from(stack)
            .write_with_version(&mut bytes, &version, &reg, &items())
            .unwrap();
        bytes.push(0xee);
        let mut read = ByteReader::new(bytes);
        let back = ItemStackSerializer::read(&mut read, &version, &reg, &items(), &FireworksDecoder)
            .unwrap()
            .to_stack();
        assert_eq!(read.remaining(), 1);
        assert_eq!((back.item_count, back.item_id, back.patch.len()), (3, 42, 2));
        assert_eq!(back.patch[0].0, FIREWORKS);
        assert_eq!(back.patch[0].1.as_ref().unwrap().payload, vec![2, 0]);
        assert_eq!(back.patch[1].0, CUSTOM_NAME);
        assert!(back.patch[1].1.is_none());
    }
}
