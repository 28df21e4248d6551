use pumpkin_wire::names::{
    NbtNameTag, custom_name_text, decode_custom_name, decode_item_name, get_string, item_name_text,
};
use pumpkin_wire::text::TextMessage;
use pumpkin_wire::wire::ReadingError;

fn compound(entries: &[(&str, Option<&str>)]) -> NbtNameTag {
    NbtNameTag::Compound(
        entries.iter().map(|(k, v)| (k.to_string(), v.map(|s| s.to_string()))).collect(),
    )
}

#[test]
fn custom_name_from_each_tag_shape() {
    assert_eq!(custom_name_text(&NbtNameTag::String("Sword".to_string())), "Sword");
    assert_eq!(custom_name_text(&compound(&[("color", Some("red")), ("text", Some("Blade"))])), "Blade");
    assert_eq!(custom_name_text(&compound(&[("text", None)])), "");
    assert_eq!(custom_name_text(&compound(&[])), "");
    assert_eq!(custom_name_text(&NbtNameTag::Other), "");
}

#[test]
fn item_name_prefers_translate_over_text() {
    assert_eq!(item_name_text(&NbtNameTag::String("Rocket".to_string())), "Rocket");
    assert_eq!(
        item_name_text(&compound(&[("text", Some("plain")), ("translate", Some("item.minecraft.firework_rocket"))])),
        "item.minecraft.firework_rocket"
    );
    assert_eq!(item_name_text(&compound(&[("text", Some("plain"))])), "plain");
    assert_eq!(item_name_text(&compound(&[("translate", None), ("text", Some("plain"))])), "plain");
    assert_eq!(item_name_text(&NbtNameTag::Other), "");
}

#[test]
fn first_entry_of_a_key_decides() {
    let entries = vec![
        ("text".to_string(), None),
        ("text".to_string(), Some("second".to_string())),
    ];
    assert_eq!(get_string(&entries, &"text".to_string()), None);
}

#[test]
fn name_decoders_take_the_parse_outcome() {
    match decode_custom_name(Ok(compound(&[("text", Some("Blade"))]))) {
        Ok(TextMessage::Text(t)) => assert_eq!(t, "Blade"),
        other => panic!("unexpected {:?}", other),
    }
    match decode_custom_name(Err("unexpected tag id 99".to_string())) {
        Err(ReadingError::Message(m)) => assert_eq!(m, "Failed to decode CustomName NBT: unexpected tag id 99"),
        other => panic!("unexpected {:?}", other),
    }
    assert_eq!(
        decode_item_name(Ok(compound(&[("translate", Some("item.minecraft.stick"))]))).unwrap(),
        "item.minecraft.stick"
    );
    match decode_item_name(Err("truncated".to_string())) {
        Err(ReadingError::Message(m)) => assert_eq!(m, "Failed to decode ItemName NBT: truncated"),
        other => panic!("unexpected {:?}", other),
    }
}
