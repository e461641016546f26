//! The patch that puts a label on a pod.

use crate::json::{
    member, merged, only, parse, read_char, read_inside, read_members, read_string, read_value, Json,
    Member,
};
use vstd::prelude::*;

verus! {

/// The hexadecimal digit of `n`, for `n` below sixteen.
pub open spec fn hex_digit(n: int) -> char {
    if n < 10 {
        ('0' as u32 + n) as char
    } else {
        ('a' as u32 + n - 10) as char
    }
}

/// How a character is written within a JSON string.
pub open spec fn escaped_char(c: char) -> Seq<char> {
    let code = c as u32 as int;
    if c == '"' || c == '\\' {
        seq!['\\', c]
    } else if code == 0x08 {
        seq!['\\', 'b']
    } else if code == 0x09 {
        seq!['\\', 't']
    } else if code == 0x0a {
        seq!['\\', 'n']
    } else if code == 0x0c {
        seq!['\\', 'f']
    } else if code == 0x0d {
        seq!['\\', 'r']
    } else if code < 0x20 {
        seq!['\\', 'u', '0', '0', hex_digit(code / 16), hex_digit(code % 16)]
    } else {
        seq![c]
    }
}

/// How a text is written within a JSON string.
pub open spec fn escaped(text: Seq<char>) -> Seq<char>
    decreases text.len(),
{
    if text.len() == 0 {
        Seq::empty()
    } else {
        escaped_char(text[0]) + escaped(text.skip(1))
    }
}

/// The JSON string that stands for `text`.
pub open spec fn json_string(text: Seq<char>) -> Seq<char> {
    seq!['"'] + escaped(text) + seq!['"']
}

/// The JSON text of a merge patch that sets the label `name` to `value`.
pub open spec fn label_patch_text(name: Seq<char>, value: Seq<char>) -> Seq<char> {
    "{\"metadata\":{\"labels\":{"@ + json_string(name) + ":"@ + json_string(value) + "}}}"@
}

/// Calls `serde_json::to_string`.
///
/// Claimed of it: a text is written in double quotes, with a backslash before a double quote and
/// a backslash, with the short forms of backspace, tab, line feed, form feed and carriage return,
/// with the other characters below space as `\u` and four digits, and with all other characters
/// as they are; and writing a text does not fail.
#[verifier::external_body]
fn write_json_string(text: &str) -> (json: String)
    ensures
        json@ == json_string(text@),
{
    serde_json::to_string(text).unwrap()
}

/// The body of a merge patch that sets the label `name` of a pod to `value` and leaves all else.
pub fn label_patch(name: &str, value: &str) -> (body: String)
    ensures
        body@ == label_patch_text(name@, value@),
        parse(body@) == Some(only("metadata"@, only("labels"@, only(name@, Json::Text(value@))))),
{
    proof {
        law_patch_sets_the_label(name@, value@);
    }
    let mut body = "{\"metadata\":{\"labels\":{".to_owned();
    body.append(write_json_string(name).as_str());
    body.append(":");
    body.append(write_json_string(value).as_str());
    body.append("}}}");
    body
}

/// No escape begins another one: what follows the first character of a text is told apart from
/// it.
proof fn lemma_escaped_char(c: char, d: char, rest: Seq<char>, other: Seq<char>)
    requires
        escaped_char(c) + rest == escaped_char(d) + other,
    ensures
        c == d,
        rest == other,
{
    let whole = escaped_char(c) + rest;
    assert(whole[0] == escaped_char(c)[0]);
    assert(whole[0] == escaped_char(d)[0]);
    if escaped_char(c).len() > 1 && escaped_char(d).len() > 1 {
        assert(whole[1] == escaped_char(c)[1]);
        assert(whole[1] == escaped_char(d)[1]);
        if escaped_char(c).len() > 2 && escaped_char(d).len() > 2 {
            assert(whole[4] == escaped_char(c)[4]);
            assert(whole[4] == escaped_char(d)[4]);
            assert(whole[5] == escaped_char(c)[5]);
            assert(whole[5] == escaped_char(d)[5]);
        }
    }
    assert(c == d);
    assert(rest =~= whole.skip(escaped_char(c).len() as int));
    assert(other =~= whole.skip(escaped_char(d).len() as int));
}

/// No escape begins with a double quote.
proof fn lemma_no_quote(c: char, rest: Seq<char>)
    ensures
        (escaped_char(c) + rest)[0] != '"',
{
}

/// A JSON string ends where it is first closed.
proof fn lemma_escaped(a: Seq<char>, b: Seq<char>, rest: Seq<char>, other: Seq<char>)
    requires
        escaped(a) + seq!['"'] + rest == escaped(b) + seq!['"'] + other,
    ensures
        a == b,
        rest == other,
    decreases a.len(),
{
    let whole = escaped(a) + seq!['"'] + rest;
    if a.len() == 0 {
        assert(whole[0] == '"');
        if b.len() > 0 {
            lemma_no_quote(b[0], escaped(b.skip(1)) + seq!['"'] + other);
            assert(whole =~= escaped_char(b[0]) + (escaped(b.skip(1)) + seq!['"'] + other));
        }
        assert(rest =~= whole.skip(1));
        assert(other =~= whole.skip(1));
        assert(a =~= b);
    } else if b.len() == 0 {
        assert((escaped(b) + seq!['"'] + other)[0] == '"');
        lemma_no_quote(a[0], escaped(a.skip(1)) + seq!['"'] + rest);
        assert(whole =~= escaped_char(a[0]) + (escaped(a.skip(1)) + seq!['"'] + rest));
    } else {
        let left = escaped(a.skip(1)) + seq!['"'] + rest;
        let right = escaped(b.skip(1)) + seq!['"'] + other;
        assert(whole =~= escaped_char(a[0]) + left);
        assert(whole =~= escaped_char(b[0]) + right);
        lemma_escaped_char(a[0], b[0], left, right);
        lemma_escaped(a.skip(1), b.skip(1), rest, other);
        assert(a =~= seq![a[0]] + a.skip(1));
        assert(b =~= seq![b[0]] + b.skip(1));
    }
}

/// A patch says which label it sets and to what, whatever characters they are made of: patches
/// for different labels or values are different.
pub proof fn law_patch_tells_label_and_value(
    name: Seq<char>,
    value: Seq<char>,
    other_name: Seq<char>,
    other_value: Seq<char>,
)
    requires
        label_patch_text(name, value) == label_patch_text(other_name, other_value),
    ensures
        name == other_name,
        value == other_value,
{
    let head = "{\"metadata\":{\"labels\":{"@;
    let whole = label_patch_text(name, value);
    let k = head.len() as int + 1;
    reveal_strlit(":");
    let rest = ":"@ + json_string(value) + "}}}"@;
    let other = ":"@ + json_string(other_value) + "}}}"@;
    assert(whole.skip(k) =~= escaped(name) + seq!['"'] + rest);
    assert(whole.skip(k) =~= escaped(other_name) + seq!['"'] + other);
    lemma_escaped(name, other_name, rest, other);
    assert(rest.skip(2) =~= escaped(value) + seq!['"'] + "}}}"@);
    assert(other.skip(2) =~= escaped(other_value) + seq!['"'] + "}}}"@);
    lemma_escaped(value, other_value, "}}}"@, "}}}"@);
}

/// A character is read back from the way it is written.
proof fn lemma_read_char(c: char, rest: Seq<char>)
    ensures
        read_char(escaped_char(c) + rest) == Some((c, rest)),
        (escaped_char(c) + rest)[0] != '"',
{
    let text = escaped_char(c) + rest;
    let code = c as u32 as int;
    assert(text.skip(escaped_char(c).len() as int) =~= rest);
    assert(text[0] == escaped_char(c)[0]);
    if escaped_char(c).len() > 1 {
        assert(text[1] == escaped_char(c)[1]);
    }
    if escaped_char(c).len() > 2 {
        assert(text[2] == '0' && text[3] == '0');
        assert(text[4] == hex_digit(code / 16));
        assert(text[5] == hex_digit(code % 16));
    }
}

/// A text is read back from the inside of the string that stands for it.
proof fn lemma_read_inside(text: Seq<char>, rest: Seq<char>)
    ensures
        read_inside(escaped(text) + seq!['"'] + rest) == Some((text, rest)),
    decreases text.len(),
{
    let whole = escaped(text) + seq!['"'] + rest;
    if text.len() == 0 {
        assert(whole[0] == '"');
        assert(whole.skip(1) =~= rest);
        assert(text =~= Seq::empty());
    } else {
        let later = escaped(text.skip(1)) + seq!['"'] + rest;
        assert(whole =~= escaped_char(text[0]) + later);
        lemma_read_char(text[0], later);
        lemma_read_inside(text.skip(1), rest);
        assert(seq![text[0]] + text.skip(1) =~= text);
    }
}

proof fn lemma_read_string(text: Seq<char>, rest: Seq<char>)
    ensures
        read_string(json_string(text) + rest) == Some((text, rest)),
        (json_string(text) + rest)[0] == '"',
{
    lemma_read_inside(text, rest);
    assert((json_string(text) + rest).skip(1) =~= escaped(text) + seq!['"'] + rest);
}

/// The JSON text of an object with one member, whose value is written as `inner`.
spec fn only_text(key: Seq<char>, inner: Seq<char>) -> Seq<char> {
    seq!['{'] + json_string(key) + seq![':'] + inner + seq!['}']
}

/// An object with one member is read back from its JSON text.
proof fn lemma_read_only(key: Seq<char>, inner: Seq<char>, value: Json, rest: Seq<char>)
    requires
        inner.len() > 0,
        read_value(inner + (seq!['}'] + rest)) == Some((value, seq!['}'] + rest)),
    ensures
        read_value(only_text(key, inner) + rest) == Some((only(key, value), rest)),
{
    let whole = only_text(key, inner) + rest;
    let members = whole.skip(1);
    let after_key = seq![':'] + (inner + (seq!['}'] + rest));
    assert(members =~= json_string(key) + after_key);
    lemma_read_string(key, after_key);
    assert(after_key.skip(1) =~= inner + (seq!['}'] + rest));
    assert((seq!['}'] + rest).skip(1) =~= rest);
    assert(read_members(members) == Some((seq![Member { key, value }], rest)));
    assert(whole[0] == '{');
    assert(whole[1] == members[0]);
}

proof fn lemma_plain(text: Seq<char>)
    requires
        forall|i: int| 0 <= i < text.len() ==> 'a' <= #[trigger] text[i] && text[i] <= 'z',
    ensures
        escaped(text) == text,
    decreases text.len(),
{
    if text.len() > 0 {
        assert('a' <= text[0] && text[0] <= 'z');
        assert forall|i: int| 0 <= i < text.skip(1).len() implies 'a' <= #[trigger] text.skip(1)[i]
            && text.skip(1)[i] <= 'z' by {
            assert('a' <= text[i + 1] && text[i + 1] <= 'z');
        }
        lemma_plain(text.skip(1));
        assert(seq![text[0]] + text.skip(1) =~= text);
    }
}

/// The beginning of a patch, as what two objects begin with.
proof fn lemma_head()
    ensures
        "{\"metadata\":{\"labels\":{"@ == seq!['{'] + json_string("metadata"@) + seq![':', '{']
            + json_string("labels"@) + seq![':', '{'],
{
    reveal_strlit("labels");
    reveal_strlit("metadata");
    reveal_strlit("{\"metadata\":{\"labels\":{");
    lemma_plain("labels"@);
    lemma_plain("metadata"@);
    assert("{\"metadata\":{\"labels\":{"@ =~= seq!['{'] + (seq!['"'] + "metadata"@ + seq!['"'])
        + seq![':', '{'] + (seq!['"'] + "labels"@ + seq!['"']) + seq![':', '{']);
}

proof fn lemma_shape(head: Seq<char>, a: Seq<char>, b: Seq<char>, c: Seq<char>, d: Seq<char>)
    requires
        head == seq!['{'] + a + seq![':', '{'] + b + seq![':', '{'],
    ensures
        head + c + seq![':'] + d + seq!['}', '}', '}'] == seq!['{'] + a + seq![':'] + (seq!['{'] + b
            + seq![':'] + (seq!['{'] + c + seq![':'] + d + seq!['}']) + seq!['}']) + seq!['}'],
{
    assert(head + c + seq![':'] + d + seq!['}', '}', '}'] =~= seq!['{'] + a + seq![':'] + (seq!['{']
        + b + seq![':'] + (seq!['{'] + c + seq![':'] + d + seq!['}']) + seq!['}']) + seq!['}']);
}

/// A patch is three objects with one member each.
proof fn lemma_patch_shape(name: Seq<char>, value: Seq<char>)
    ensures
        label_patch_text(name, value) == only_text(
            "metadata"@,
            only_text("labels"@, only_text(name, json_string(value))),
        ),
{
    lemma_head();
    reveal_strlit(":");
    reveal_strlit("}}}");
    assert(":"@ =~= seq![':']);
    assert("}}}"@ =~= seq!['}', '}', '}']);
    lemma_shape(
        "{\"metadata\":{\"labels\":{"@,
        json_string("metadata"@),
        json_string("labels"@),
        json_string(name),
        json_string(value),
    );
}

proof fn lemma_patch_read(name: Seq<char>, value: Seq<char>)
    ensures
        parse(label_patch_text(name, value)) == Some(
            only("metadata"@, only("labels"@, only(name, Json::Text(value)))),
        ),
{
    let inner = json_string(value);
    let label = only_text(name, inner);
    let labels = only_text("labels"@, label);
    let none = Seq::<char>::empty();
    let close: Seq<char> = seq!['}'];
    let after_label = close + (close + none);
    lemma_patch_shape(name, value);
    lemma_read_string(value, close + after_label);
    assert(read_value(inner + (close + after_label)) == Some((Json::Text(value), close + after_label)));
    lemma_read_only(name, inner, Json::Text(value), after_label);
    lemma_read_only("labels"@, label, only(name, Json::Text(value)), close + none);
    lemma_read_only("metadata"@, labels, only("labels"@, only(name, Json::Text(value))), none);
    assert(only_text("metadata"@, labels) + none =~= label_patch_text(name, value));
}

/// A patch, read as JSON, is an object that holds nothing but `metadata`, which holds nothing but
/// `labels`, which holds nothing but the label, with the value as a text, whatever characters they
/// are made of. Merged into the labels of a pod, it sets the label to the value and leaves the
/// others.
pub proof fn law_patch_sets_the_label(name: Seq<char>, value: Seq<char>)
    ensures
        parse(label_patch_text(name, value)) == Some(
            only("metadata"@, only("labels"@, only(name, Json::Text(value)))),
        ),
        forall|labels: Map<Seq<char>, Seq<char>>|
            merged(
                labels,
                member(
                    member(parse(label_patch_text(name, value))->0, "metadata"@)->0,
                    "labels"@,
                )->0->Object_0,
            ) == Some(#[trigger] labels.insert(name, value)),
{
    lemma_patch_read(name, value);
    let last = only(name, Json::Text(value))->Object_0;
    assert forall|before: Map<Seq<char>, Seq<char>>| merged(before, last) == Some(
        #[trigger] before.insert(name, value),
    ) by {
        reveal_with_fuel(merged, 2);
        assert(last.drop_last() =~= Seq::empty());
    }
}

} // verus!
