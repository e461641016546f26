//! The part of JSON that patches are made of, as a grammar of its own: strings, objects and the
//! three literals, written without white space. Numbers and arrays are not read.

use vstd::prelude::*;

verus! {

/// A JSON value.
pub enum Json {
    Null,
    Bool(bool),
    Text(Seq<char>),
    Object(Seq<Member>),
}

/// A member of a JSON object.
pub struct Member {
    pub key: Seq<char>,
    pub value: Json,
}

/// The number that a hexadecimal digit stands for, if it is one.
pub open spec fn hex_value(c: char) -> Option<int> {
    if '0' <= c && c <= '9' {
        Some(c as u32 - '0' as u32)
    } else if 'a' <= c && c <= 'f' {
        Some(c as u32 - 'a' as u32 + 10)
    } else if 'A' <= c && c <= 'F' {
        Some(c as u32 - 'A' as u32 + 10)
    } else {
        None
    }
}

/// The first character that the inside of a JSON string stands for, and what follows it.
pub open spec fn read_char(text: Seq<char>) -> Option<(char, Seq<char>)> {
    if text.len() == 0 || text[0] == '"' || (text[0] as u32) < 0x20 {
        None
    } else if text[0] != '\\' {
        Some((text[0], text.skip(1)))
    } else if text.len() < 2 {
        None
    } else if text[1] == '"' || text[1] == '\\' || text[1] == '/' {
        Some((text[1], text.skip(2)))
    } else if text[1] == 'b' {
        Some((0x08u32 as char, text.skip(2)))
    } else if text[1] == 'f' {
        Some((0x0cu32 as char, text.skip(2)))
    } else if text[1] == 'n' {
        Some((0x0au32 as char, text.skip(2)))
    } else if text[1] == 'r' {
        Some((0x0du32 as char, text.skip(2)))
    } else if text[1] == 't' {
        Some((0x09u32 as char, text.skip(2)))
    } else if text[1] == 'u' && text.len() >= 6 {
        match (hex_value(text[2]), hex_value(text[3]), hex_value(text[4]), hex_value(text[5])) {
            (Some(a), Some(b), Some(c), Some(d)) => {
                let code = ((a * 16 + b) * 16 + c) * 16 + d;
                if 0xd800 <= code < 0xe000 {
                    None
                } else {
                    Some((code as u32 as char, text.skip(6)))
                }
            },
            _ => None,
        }
    } else {
        None
    }
}

/// The text that the inside of a JSON string stands for, up to the closing quote, and what follows
/// the quote.
pub open spec fn read_inside(text: Seq<char>) -> Option<(Seq<char>, Seq<char>)>
    decreases text.len(),
{
    if text.len() > 0 && text[0] == '"' {
        Some((Seq::empty(), text.skip(1)))
    } else {
        match read_char(text) {
            None => None,
            Some((c, rest)) => if rest.len() >= text.len() {
                None
            } else {
                match read_inside(rest) {
                    None => None,
                    Some((later, end)) => Some((seq![c] + later, end)),
                }
            },
        }
    }
}

/// The text that a JSON string stands for, and what follows the string.
pub open spec fn read_string(text: Seq<char>) -> Option<(Seq<char>, Seq<char>)> {
    if text.len() > 0 && text[0] == '"' {
        read_inside(text.skip(1))
    } else {
        None
    }
}

/// What follows `word` in `text`, if it begins with it.
pub open spec fn read_word(text: Seq<char>, word: Seq<char>) -> Option<Seq<char>> {
    if text.len() >= word.len() && text.take(word.len() as int) == word {
        Some(text.skip(word.len() as int))
    } else {
        None
    }
}

/// The JSON value that `text` begins with, and what follows it.
pub open spec fn read_value(text: Seq<char>) -> Option<(Json, Seq<char>)>
    decreases text.len(), 1int,
{
    if text.len() == 0 {
        None
    } else if text[0] == '"' {
        match read_string(text) {
            Some((value, rest)) => Some((Json::Text(value), rest)),
            None => None,
        }
    } else if text[0] == '{' {
        if text.len() > 1 && text[1] == '}' {
            Some((Json::Object(Seq::empty()), text.skip(2)))
        } else {
            match read_members(text.skip(1)) {
                Some((members, rest)) => Some((Json::Object(members), rest)),
                None => None,
            }
        }
    } else if read_word(text, "true"@) is Some {
        Some((Json::Bool(true), read_word(text, "true"@)->0))
    } else if read_word(text, "false"@) is Some {
        Some((Json::Bool(false), read_word(text, "false"@)->0))
    } else if read_word(text, "null"@) is Some {
        Some((Json::Null, read_word(text, "null"@)->0))
    } else {
        None
    }
}

/// The members of a JSON object, up to the closing brace, and what follows the brace.
pub open spec fn read_members(text: Seq<char>) -> Option<(Seq<Member>, Seq<char>)>
    decreases text.len(), 0int,
{
    match read_string(text) {
        None => None,
        Some((key, rest)) => if rest.len() == 0 || rest[0] != ':' || rest.len() > text.len() {
            None
        } else {
            match read_value(rest.skip(1)) {
                None => None,
                Some((value, end)) => if end.len() >= rest.len() || end.len() == 0 {
                    None
                } else if end[0] == '}' {
                    Some((seq![Member { key, value }], end.skip(1)))
                } else if end[0] == ',' {
                    match read_members(end.skip(1)) {
                        None => None,
                        Some((later, after)) => Some((seq![Member { key, value }] + later, after)),
                    }
                } else {
                    None
                },
            }
        },
    }
}

/// The JSON value that the whole of `text` is.
pub open spec fn parse(text: Seq<char>) -> Option<Json> {
    match read_value(text) {
        Some((value, rest)) => if rest.len() == 0 {
            Some(value)
        } else {
            None
        },
        None => None,
    }
}

/// An object with one member.
pub open spec fn only(key: Seq<char>, value: Json) -> Json {
    Json::Object(seq![Member { key, value }])
}

/// The value of the last member of that key, if `json` is an object with one.
pub open spec fn member(json: Json, key: Seq<char>) -> Option<Json> {
    match json {
        Json::Object(members) => member_among(members, key),
        _ => None,
    }
}

/// The value of the last of the members with that key, if there is one.
pub open spec fn member_among(members: Seq<Member>, key: Seq<char>) -> Option<Json>
    decreases members.len(),
{
    if members.len() == 0 {
        None
    } else if members.last().key == key {
        Some(members.last().value)
    } else {
        member_among(members.drop_last(), key)
    }
}

/// `labels` after a merge patch of them: a text is set, a null takes the label away, and nothing
/// else can be the value of a label.
pub open spec fn merged(labels: Map<Seq<char>, Seq<char>>, patch: Seq<Member>) -> Option<
    Map<Seq<char>, Seq<char>>,
>
    decreases patch.len(),
{
    if patch.len() == 0 {
        Some(labels)
    } else {
        match (merged(labels, patch.drop_last()), patch.last().value) {
            (Some(before), Json::Text(value)) => Some(before.insert(patch.last().key, value)),
            (Some(before), Json::Null) => Some(before.remove(patch.last().key)),
            _ => None,
        }
    }
}

} // verus!
