//! JSON, as the `serde_json` crate reads and writes it.

use serde_json::Value;
use std::collections::HashMap;
use vstd::prelude::*;

verus! {

/// The error of `serde_json`.
#[verifier::external_type_specification]
#[verifier::external_body]
pub struct ExJsonError(serde_json::Error);

/// A small hexadecimal digit.
pub open spec fn hex_digit(d: nat) -> char {
    if d < 10 {
        (48 + d) as char
    } else {
        (87 + d) as char
    }
}

/// A character as it stands in a JSON string: the quotation mark, the backslash and the control
/// characters below U+0020 are escaped, in the short form where there is one; all others stand as
/// they are.
pub open spec fn escaped_char(c: char) -> Seq<char> {
    if c == '"' {
        seq!['\\', '"']
    } else if c == '\\' {
        seq!['\\', '\\']
    } else if c as u32 == 8 {
        seq!['\\', 'b']
    } else if c as u32 == 9 {
        seq!['\\', 't']
    } else if c as u32 == 10 {
        seq!['\\', 'n']
    } else if c as u32 == 12 {
        seq!['\\', 'f']
    } else if c as u32 == 13 {
        seq!['\\', 'r']
    } else if (c as u32) < 32 {
        seq!['\\', 'u', '0', '0', hex_digit((c as nat) / 16), hex_digit((c as nat) % 16)]
    } else {
        seq![c]
    }
}

/// The characters of a text, each as it stands in a JSON string.
pub open spec fn escaped(text: Seq<char>) -> Seq<char>
    decreases text.len(),
{
    if text.len() == 0 {
        seq![]
    } else {
        escaped_char(text.first()) + escaped(text.drop_first())
    }
}

/// A text as a JSON string, with its quotation marks.
pub open spec fn json_literal(text: Seq<char>) -> Seq<char> {
    seq!['"'] + escaped(text) + seq!['"']
}

proof fn escaped_char_shape(c: char)
    ensures
        1 <= escaped_char(c).len() <= 6,
        forall|i: int| 0 <= i < escaped_char(c).len() ==> 32 <= #[trigger] escaped_char(c)[i] as u32,
        escaped_char(c).len() == 1 <==> escaped_char(c)[0] != '\\',
        escaped_char(c).len() == 1 ==> escaped_char(c)[0] == c,
        escaped_char(c).len() == 6 <==> escaped_char(c).len() > 1 && escaped_char(c)[1] == 'u',
        escaped_char(c).len() == 1 || escaped_char(c).len() == 2 || escaped_char(c).len() == 6,
{
    assert((c as u32) < 32 ==> (c as nat) / 16 < 2 && (c as nat) % 16 < 16);
}

/// Where one of two escaped characters begins as the other, they are the same character.
proof fn escaped_char_is_unambiguous(a: char, b: char)
    requires
        forall|i: int|
            0 <= i < escaped_char(a).len() && i < escaped_char(b).len() ==> #[trigger] escaped_char(
                a,
            )[i] == escaped_char(b)[i],
    ensures
        a == b,
{
    let x = escaped_char(a);
    let y = escaped_char(b);
    escaped_char_shape(a);
    escaped_char_shape(b);
    assert(x[0] == y[0]);
    if x.len() > 1 {
        assert(x[1] == y[1]);
        if x.len() == 6 {
            assert(x[4] == y[4]);
            assert(x[5] == y[5]);
            assert((a as nat) / 16 == (b as nat) / 16);
            assert((a as nat) % 16 == (b as nat) % 16);
        }
    }
}

proof fn escaped_is_unambiguous(a: Seq<char>, b: Seq<char>)
    requires
        escaped(a) == escaped(b),
    ensures
        a == b,
    decreases a.len(),
{
    if a.len() > 0 {
        escaped_char_shape(a.first());
        assert(escaped(a).len() >= escaped_char(a.first()).len());
    }
    if b.len() > 0 {
        escaped_char_shape(b.first());
        assert(escaped(b).len() >= escaped_char(b.first()).len());
    }
    if a.len() == 0 || b.len() == 0 {
        assert(a =~= b);
    } else {
        let x = escaped_char(a.first());
        let y = escaped_char(b.first());
        let whole = escaped(a);
        assert forall|i: int| 0 <= i < x.len() && i < y.len() implies #[trigger] x[i] == y[i] by {
            assert((x + escaped(a.drop_first()))[i] == x[i]);
            assert((y + escaped(b.drop_first()))[i] == y[i]);
        }
        escaped_char_is_unambiguous(a.first(), b.first());
        assert(escaped(a.drop_first()) =~= whole.skip(x.len() as int));
        assert(escaped(b.drop_first()) =~= whole.skip(x.len() as int));
        escaped_is_unambiguous(a.drop_first(), b.drop_first());
        assert(a =~= seq![a.first()] + a.drop_first());
        assert(b =~= seq![b.first()] + b.drop_first());
    }
}

/// Different texts are different JSON strings.
pub proof fn json_literal_is_unambiguous(a: Seq<char>, b: Seq<char>)
    requires
        json_literal(a) == json_literal(b),
    ensures
        a == b,
{
    let literal = json_literal(a);
    assert(escaped(a) =~= literal.subrange(1, literal.len() - 1));
    assert(escaped(b) =~= literal.subrange(1, literal.len() - 1));
    escaped_is_unambiguous(a, b);
}

/// A text in which nothing is to be escaped stands in its JSON string as it is.
pub proof fn plain_text_stands_as_it_is(text: Seq<char>)
    requires
        forall|i: int|
            0 <= i < text.len() ==> #[trigger] text[i] as u32 >= 32 && text[i] != '"' && text[i]
                != '\\',
    ensures
        json_literal(text) == seq!['"'] + text + seq!['"'],
    decreases text.len(),
{
    if text.len() == 0 {
        assert(escaped(text) =~= text);
    } else {
        let rest = text.drop_first();
        assert(text[0] as u32 >= 32);
        assert forall|i: int| 0 <= i < rest.len() implies #[trigger] rest[i] as u32 >= 32 && rest[i]
            != '"' && rest[i] != '\\' by {
            assert(rest[i] == text[i + 1]);
        }
        plain_text_stands_as_it_is(rest);
        assert(escaped(rest) =~= json_literal(rest).subrange(1, json_literal(rest).len() - 1));
        assert(escaped(rest) =~= rest);
        assert(escaped(text) =~= text);
    }
}

/// A JSON string is made character by character: that of two texts in a row is what the two have
/// between their quotation marks, in a row.
pub proof fn json_literals_join(a: Seq<char>, b: Seq<char>)
    ensures
        json_literal(a + b) == json_literal(a).drop_last() + json_literal(b).drop_first(),
    decreases a.len(),
{
    escaped_joins(a, b);
    assert(json_literal(a + b) =~= json_literal(a).drop_last() + json_literal(b).drop_first());
}

proof fn escaped_joins(a: Seq<char>, b: Seq<char>)
    ensures
        escaped(a + b) == escaped(a) + escaped(b),
    decreases a.len(),
{
    if a.len() == 0 {
        assert(a + b =~= b);
        assert(escaped(a) + escaped(b) =~= escaped(b));
    } else {
        escaped_joins(a.drop_first(), b);
        assert((a + b).drop_first() =~= a.drop_first() + b);
        assert(escaped(a + b) =~= escaped(a) + escaped(b));
    }
}

proof fn escaped_has_no_control_character(text: Seq<char>)
    ensures
        forall|i: int| 0 <= i < escaped(text).len() ==> #[trigger] escaped(text)[i] as u32 >= 32,
    decreases text.len(),
{
    if text.len() > 0 {
        let head = escaped_char(text.first());
        let tail = escaped(text.drop_first());
        escaped_char_shape(text.first());
        escaped_has_no_control_character(text.drop_first());
        assert forall|i: int| 0 <= i < escaped(text).len() implies #[trigger] escaped(
            text,
        )[i] as u32 >= 32 by {
            if i < head.len() {
                assert(escaped(text)[i] == head[i]);
            } else {
                assert(escaped(text)[i] == tail[i - head.len()]);
            }
        }
    }
}

/// A JSON string holds no control character, so it stands on one line.
pub proof fn json_literal_stands_on_one_line(text: Seq<char>)
    ensures
        forall|i: int|
            0 <= i < json_literal(text).len() ==> #[trigger] json_literal(text)[i] as u32 >= 32,
{
    escaped_has_no_control_character(text);
    assert forall|i: int| 0 <= i < json_literal(text).len() implies #[trigger] json_literal(
        text,
    )[i] as u32 >= 32 by {
        if 0 < i < json_literal(text).len() - 1 {
            assert(json_literal(text)[i] == escaped(text)[i - 1]);
        }
    }
}

/// Calls `serde_json::to_string` on a string.
///
/// Trusted: it does not fail, and gives the text between quotation marks, escaped as
/// `escaped_char` says.
#[verifier::external_body]
fn to_json_string(text: &str) -> (written: Result<String, serde_json::Error>)
    ensures
        written is Ok,
        written->Ok_0@ == json_literal(text@),
{
    serde_json::to_string(text)
}

/// Writes a text as a JSON string.
pub fn string_literal(text: &str) -> (literal: String)
    ensures
        literal@ == json_literal(text@),
{
    to_json_string(text).unwrap()
}

/// The object that a list of members makes; of members with the same name the last one counts.
pub open spec fn member_map<V>(members: Seq<(Seq<char>, V)>) -> Map<Seq<char>, V>
    decreases members.len(),
{
    if members.len() == 0 {
        Map::empty()
    } else {
        member_map(members.drop_last()).insert(members.last().0, members.last().1)
    }
}

/// Of the members with one name the last one counts: where the member at `at` has it and no later
/// one does, the object has its value under that name; and an object has nothing under a name that
/// no member has.
pub proof fn last_member_counts<V>(members: Seq<(Seq<char>, V)>, name: Seq<char>, at: int)
    requires
        -1 <= at < members.len(),
        0 <= at ==> members[at].0 == name,
        forall|i: int| at < i < members.len() ==> (#[trigger] members[i]).0 != name,
    ensures
        member_map(members).dom().contains(name) <==> 0 <= at,
        0 <= at ==> member_map(members)[name] == members[at].1,
    decreases members.len(),
{
    if members.len() > 0 && at < members.len() - 1 {
        assert(members[members.len() - 1].0 != name);
        last_member_counts(members.drop_last(), name, at);
    }
}

/// No two members have the same name.
pub open spec fn distinct_names<V>(members: Seq<(Seq<char>, V)>) -> bool {
    forall|i: int, j: int|
        0 <= i < j < members.len() ==> (#[trigger] members[i]).0 != (#[trigger] members[j]).0
}

/// The JSON text of an object's members when all of them are strings, without white space.
pub open spec fn members_text(members: Seq<(Seq<char>, Seq<char>)>) -> Seq<char>
    decreases members.len(),
{
    if members.len() == 0 {
        seq![]
    } else {
        let last = json_literal(members.last().0) + seq![':'] + json_literal(members.last().1);
        if members.len() == 1 {
            last
        } else {
            members_text(members.drop_last()) + seq![','] + last
        }
    }
}

/// The JSON text of an object whose members are all strings, without white space.
pub open spec fn string_object(members: Seq<(Seq<char>, Seq<char>)>) -> Seq<char> {
    seq!['{'] + members_text(members) + seq!['}']
}

/// The text of an object grows at its end: a member that is added stands before the last brace, after
/// a comma where it is not the first.
pub proof fn string_object_grows(
    members: Seq<(Seq<char>, Seq<char>)>,
    name: Seq<char>,
    value: Seq<char>,
)
    ensures
        string_object(seq![]) == seq!['{', '}'],
        string_object(members.push((name, value))) == string_object(members).drop_last() + (
        if members.len() == 0 {
            seq![]
        } else {
            seq![',']
        }) + json_literal(name) + seq![':'] + json_literal(value) + seq!['}'],
{
    let longer = members.push((name, value));
    assert(string_object(seq![]) =~= seq!['{', '}']);
    assert(longer.drop_last() =~= members);
    assert(string_object(members).drop_last() =~= seq!['{'] + members_text(members));
    if members.len() == 0 {
        assert(members_text(members) =~= seq![]);
    }
    assert(string_object(longer) =~= string_object(members).drop_last() + (if members.len() == 0 {
        seq![]
    } else {
        seq![',']
    }) + json_literal(name) + seq![':'] + json_literal(value) + seq!['}']);
}

/// What kind of value a member of an object has, and what it is where it is a string or a boolean.
#[derive(Debug)]
pub enum Field {
    Null,
    Bool(bool),
    Number,
    Text(String),
    Array,
    Object,
}

/// A field, in terms of characters.
pub enum FieldView {
    Null,
    Bool(bool),
    Number,
    Text(Seq<char>),
    Array,
    Object,
}

impl View for Field {
    type V = FieldView;

    open spec fn view(&self) -> FieldView {
        match self {
            Field::Null => FieldView::Null,
            Field::Bool(b) => FieldView::Bool(*b),
            Field::Number => FieldView::Number,
            Field::Text(text) => FieldView::Text(text@),
            Field::Array => FieldView::Array,
            Field::Object => FieldView::Object,
        }
    }
}

/// A JSON document, as far as its members go.
#[derive(Debug)]
pub enum Document {
    Null,
    Bool(bool),
    Number,
    Text(String),
    Array,
    Object(Vec<(String, Field)>),
}

/// A JSON document as a map from the names of its members.
pub enum DocumentView {
    Null,
    Bool(bool),
    Number,
    Text(Seq<char>),
    Array,
    Object(Map<Seq<char>, FieldView>),
}

/// Members, in terms of characters.
pub open spec fn field_views(members: Seq<(String, Field)>) -> Seq<(Seq<char>, FieldView)> {
    members.map_values(|member: (String, Field)| (member.0@, member.1@))
}

impl View for Document {
    type V = DocumentView;

    open spec fn view(&self) -> DocumentView {
        match self {
            Document::Null => DocumentView::Null,
            Document::Bool(b) => DocumentView::Bool(*b),
            Document::Number => DocumentView::Number,
            Document::Text(text) => DocumentView::Text(text@),
            Document::Array => DocumentView::Array,
            Document::Object(members) => DocumentView::Object(member_map(field_views(members@))),
        }
    }
}

/// Fields are the same in terms of characters: of the same kind, with the same text or truth value.
pub proof fn field_view_is_of_the_field(field: Field)
    ensures
        match field {
            Field::Null => field@ is Null,
            Field::Bool(b) => field@ == FieldView::Bool(b),
            Field::Number => field@ is Number,
            Field::Text(text) => field@ == FieldView::Text(text@),
            Field::Array => field@ is Array,
            Field::Object => field@ is Object,
        },
{
}

/// An object has under each name what its last member of that name has, and other documents are of
/// the same kind with the same text or truth value.
pub proof fn document_view_is_of_the_document(document: Document)
    ensures
        match document {
            Document::Null => document@ is Null,
            Document::Bool(b) => document@ == DocumentView::Bool(b),
            Document::Number => document@ is Number,
            Document::Text(text) => document@ == DocumentView::Text(text@),
            Document::Array => document@ is Array,
            Document::Object(members) => document@ is Object && (forall|i: int|
                0 <= i < members@.len() && (forall|j: int|
                    i < j < members@.len() ==> (#[trigger] members@[j]).0@ != members@[i].0@) ==> {
                    &&& document@->Object_0.dom().contains((#[trigger] members@[i]).0@)
                    &&& document@->Object_0[members@[i].0@] == members@[i].1@
                }) && (forall|name: Seq<char>| #[trigger]
                document@->Object_0.dom().contains(name) ==> exists|i: int|
                    0 <= i < members@.len() && (#[trigger] members@[i]).0@ == name),
        },
{
    if let Document::Object(members) = document {
        let views = field_views(members@);
        assert forall|i: int|
            0 <= i < members@.len() && (forall|j: int|
                i < j < members@.len() ==> (#[trigger] members@[j]).0@ != members@[i].0@) implies {
            &&& document@->Object_0.dom().contains((#[trigger] members@[i]).0@)
            &&& document@->Object_0[members@[i].0@] == members@[i].1@
        } by {
            assert(views[i] == (members@[i].0@, members@[i].1@));
            assert forall|j: int| i < j < views.len() implies (#[trigger] views[j]).0
                != views[i].0 by {
                assert(members@[j].0@ != members@[i].0@);
            }
            last_member_counts(views, views[i].0, i);
        }
        assert forall|name: Seq<char>| #[trigger]
            document@->Object_0.dom().contains(name) implies exists|i: int|
            0 <= i < members@.len() && (#[trigger] members@[i]).0@ == name by {
            if forall|i: int| 0 <= i < members@.len() ==> (#[trigger] members@[i]).0@ != name {
                assert forall|j: int| 0 <= j < views.len() implies (#[trigger] views[j]).0
                    != name by {
                    assert(members@[j].0@ != name);
                }
                last_member_counts(views, name, -1);
            }
        }
    }
}

/// Members that are all strings.
pub open spec fn text_fields(members: Seq<(Seq<char>, Seq<char>)>) -> Seq<(Seq<char>, FieldView)> {
    members.map_values(|member: (Seq<char>, Seq<char>)| (member.0, FieldView::Text(member.1)))
}

/// The document that a result holds, if any.
pub open spec fn document_view(parsed: Result<Document, serde_json::Error>) -> Option<DocumentView> {
    match parsed {
        Ok(document) => Some(document@),
        Err(_) => None,
    }
}

/// What `serde_json::from_str` reads from a text as a JSON value, if it reads one.
pub uninterp spec fn json_document(text: Seq<char>) -> Option<DocumentView>;

/// Calls `serde_json::from_str` for a `serde_json::Value`.
///
/// Trusted: whether the text is read, and as what, depends on the text alone; and the text of an
/// object whose members are strings is read as these members, the last one of each name.
#[verifier::external_body]
pub(crate) fn parse_document(text: &str) -> (parsed: Result<Document, serde_json::Error>)
    ensures
        document_view(parsed) == json_document(text@),
        forall|members: Seq<(Seq<char>, Seq<char>)>|
            text@ == #[trigger] string_object(members) ==> document_view(parsed) == Some(
                DocumentView::Object(member_map(text_fields(members))),
            ),
{
    Ok(match serde_json::from_str(text)? {
        Value::Null => Document::Null,
        Value::Bool(b) => Document::Bool(b),
        Value::Number(_) => Document::Number,
        Value::String(text) => Document::Text(text),
        Value::Array(_) => Document::Array,
        Value::Object(fields) => Document::Object(fields.into_iter().map(|(name, field)| (name, match field {
            Value::Null => Field::Null,
            Value::Bool(b) => Field::Bool(b),
            Value::Number(_) => Field::Number,
            Value::String(text) => Field::Text(text),
            Value::Array(_) => Field::Array,
            Value::Object(_) => Field::Object,
        })).collect()),
    })
}

/// Pairs of strings, in terms of characters.
pub open spec fn pair_views(pairs: Seq<(String, String)>) -> Seq<(Seq<char>, Seq<char>)> {
    pairs.map_values(|pair: (String, String)| (pair.0@, pair.1@))
}

/// `pairs` holds what `map` holds, each name once, in any order.
pub open spec fn lists(
    pairs: Seq<(Seq<char>, Seq<char>)>,
    map: Map<Seq<char>, Seq<char>>,
) -> bool {
    distinct_names(pairs) && member_map(pairs) == map
}

/// Pairs of strings are the same in terms of characters: as many, in the same order.
pub proof fn pair_views_are_of_the_pairs(pairs: Seq<(String, String)>)
    ensures
        pair_views(pairs).len() == pairs.len(),
        forall|i: int|
            0 <= i < pairs.len() ==> (#[trigger] pair_views(pairs)[i]) == (pairs[i].0@, pairs[i].1@),
{
}

/// A list of a map holds each name of the map once, with its value, and no other.
pub proof fn list_holds_the_map(pairs: Seq<(Seq<char>, Seq<char>)>, map: Map<Seq<char>, Seq<char>>)
    requires
        lists(pairs, map),
    ensures
        forall|i: int|
            0 <= i < pairs.len() ==> map.dom().contains((#[trigger] pairs[i]).0) && map[pairs[i].0]
                == pairs[i].1,
        forall|name: Seq<char>| #[trigger]
            map.dom().contains(name) ==> exists|i: int|
                0 <= i < pairs.len() && (#[trigger] pairs[i]).0 == name,
        forall|i: int, j: int|
            0 <= i < j < pairs.len() ==> (#[trigger] pairs[i]).0 != (#[trigger] pairs[j]).0,
{
    assert forall|i: int| 0 <= i < pairs.len() implies map.dom().contains((#[trigger] pairs[i]).0)
        && map[pairs[i].0] == pairs[i].1 by {
        last_member_counts(pairs, pairs[i].0, i);
    }
    assert forall|name: Seq<char>| #[trigger] map.dom().contains(name) implies exists|i: int|
        0 <= i < pairs.len() && (#[trigger] pairs[i]).0 == name by {
        if forall|i: int| 0 <= i < pairs.len() ==> (#[trigger] pairs[i]).0 != name {
            last_member_counts(pairs, name, -1);
        }
    }
}

/// What `serde_json::from_str` reads from a text as a map from strings to strings, if it reads one.
pub uninterp spec fn json_string_map(text: Seq<char>) -> Option<Map<Seq<char>, Seq<char>>>;

/// Calls `serde_json::from_str` for a `HashMap<String, String>`, and walks the map.
///
/// Trusted: whether the text is read, and as which map, depends on the text alone; the text of an
/// object whose members are strings is read as these members, the last one of each name; and the
/// walk meets each entry once. Its order is left open.
#[verifier::external_body]
pub(crate) fn parse_string_map(text: &str) -> (parsed: Result<
    Vec<(String, String)>,
    serde_json::Error,
>)
    ensures
        match parsed {
            Ok(pairs) => json_string_map(text@) matches Some(map) && lists(
                pair_views(pairs@),
                map,
            ),
            Err(_) => json_string_map(text@) is None,
        },
        forall|members: Seq<(Seq<char>, Seq<char>)>|
            text@ == #[trigger] string_object(members) ==> {
                &&& parsed is Ok
                &&& lists(pair_views(parsed->Ok_0@), member_map(members))
            },
{
    let map: HashMap<String, String> = serde_json::from_str(text)?;
    Ok(map.into_iter().collect())
}

} // verus!
