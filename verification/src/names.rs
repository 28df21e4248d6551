//! The names a client gives items: what is kept of the NBT tag a custom name
//! or an item name arrives as.

use vstd::prelude::*;

use crate::text::TextMessage;
use crate::wire::{ReadingError, message};

verus! {

/// The shape of a name tag as far as naming reads it: a string tag, a
/// compound (each entry's key with its value when that is a string tag), or
/// any other tag.
#[derive(Debug)]
pub enum NbtNameTag {
    String(String),
    Compound(Vec<(String, Option<String>)>),
    Other,
}

/// The string value of the first entry with key `key`, if that entry is a
/// string tag.
pub open spec fn compound_string(entries: Seq<(String, Option<String>)>, key: Seq<char>) -> Option<
    Seq<char>,
>
    decreases entries.len(),
{
    if entries.len() == 0 {
        None
    } else if entries[0].0@ == key {
        match entries[0].1 {
            Some(s) => Some(s@),
            None => None,
        }
    } else {
        compound_string(entries.drop_first(), key)
    }
}

/// The string value of the first entry of `entries` with key `key`, if
/// that entry is a string tag.
pub fn get_string(entries: &Vec<(String, Option<String>)>, key: &String) -> (r: Option<String>)
    ensures
        r is None <==> compound_string(entries@, key@) is None,
        r matches Some(s) ==> compound_string(entries@, key@) == Some(s@),
{
    let n = entries.len();
    let mut i: usize = 0;
    assert(entries@.skip(0) =~= entries@);
    while i < n
        invariant
            n == entries@.len(),
            i <= n,
            compound_string(entries@, key@) == compound_string(entries@.skip(i as int), key@),
        decreases n - i,
    {
        proof {
            assert(entries@.skip(i as int).drop_first() =~= entries@.skip(i + 1));
            assert(entries@.skip(i as int)[0] == entries@[i as int]);
        }
        if entries[i].0 == *key {
            return match &entries[i].1 {
                Some(s) => Some(s.clone()),
                None => None,
            };
        }
        i = i + 1;
    }
    proof {
        assert(entries@.skip(n as int).len() == 0);
    }
    None
}

/// The text of a custom name: a string tag's value, a compound's `text`
/// string, or empty.
pub open spec fn custom_name_of(tag: NbtNameTag) -> Seq<char> {
    match tag {
        NbtNameTag::String(s) => s@,
        NbtNameTag::Compound(c) => match compound_string(c@, "text"@) {
            Some(t) => t,
            None => Seq::empty(),
        },
        NbtNameTag::Other => Seq::empty(),
    }
}

/// The text of an item name: a string tag's value, a compound's
/// `translate` string or else its `text` string, or empty.
pub open spec fn item_name_of(tag: NbtNameTag) -> Seq<char> {
    match tag {
        NbtNameTag::String(s) => s@,
        NbtNameTag::Compound(c) => match compound_string(c@, "translate"@) {
            Some(t) => t,
            None => match compound_string(c@, "text"@) {
                Some(t) => t,
                None => Seq::empty(),
            },
        },
        NbtNameTag::Other => Seq::empty(),
    }
}

/// The text a custom-name tag gives.
pub fn custom_name_text(tag: &NbtNameTag) -> (name: String)
    ensures
        name@ == custom_name_of(*tag),
{
    match tag {
        NbtNameTag::String(s) => s.clone(),
        NbtNameTag::Compound(c) => match get_string(c, &String::from_str("text")) {
            Some(t) => t,
            None => String::new(),
        },
        NbtNameTag::Other => String::new(),
    }
}

/// The text an item-name tag gives.
pub fn item_name_text(tag: &NbtNameTag) -> (name: String)
    ensures
        name@ == item_name_of(*tag),
{
    match tag {
        NbtNameTag::String(s) => s.clone(),
        NbtNameTag::Compound(c) => match get_string(c, &String::from_str("translate")) {
            Some(t) => t,
            None => match get_string(c, &String::from_str("text")) {
                Some(t) => t,
                None => String::new(),
            },
        },
        NbtNameTag::Other => String::new(),
    }
}

/// The custom name a payload gives, from the outcome of parsing it as
/// NBT: the text of the tag, as a plain text message; or, where parsing
/// failed with error text `err`, a failure whose text is
/// `Failed to decode CustomName NBT: ` followed by `err`.
pub fn decode_custom_name(parsed: Result<NbtNameTag, String>) -> (r: Result<TextMessage, ReadingError>)
    ensures
        match parsed {
            Ok(tag) => r matches Ok(TextMessage::Text(t)) && t@ == custom_name_of(tag),
            Err(err) => r matches Err(e) && e.failure() == message(
                "Failed to decode CustomName NBT: "@ + err@,
            ),
        },
{
    match parsed {
        Ok(tag) => Ok(TextMessage::Text(custom_name_text(&tag))),
        Err(err) => {
            let mut text = String::from_str("Failed to decode CustomName NBT: ");
            text.append(err.as_str());
            Err(ReadingError::Message(text))
        },
    }
}

/// The item name a payload gives, from the outcome of parsing it as NBT:
/// the text of the tag; or, where parsing failed with error text `err`, a
/// failure whose text is `Failed to decode ItemName NBT: ` followed by
/// `err`.
pub fn decode_item_name(parsed: Result<NbtNameTag, String>) -> (r: Result<String, ReadingError>)
    ensures
        match parsed {
            Ok(tag) => r matches Ok(n) && n@ == item_name_of(tag),
            Err(err) => r matches Err(e) && e.failure() == message(
                "Failed to decode ItemName NBT: "@ + err@,
            ),
        },
{
    match parsed {
        Ok(tag) => Ok(item_name_text(&tag)),
        Err(err) => {
            let mut text = String::from_str("Failed to decode ItemName NBT: ");
            text.append(err.as_str());
            Err(ReadingError::Message(text))
        },
    }
}

} // verus!
