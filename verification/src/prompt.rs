//! The request of a subscriber: the prompt in its body, and how it is answered.

use crate::json::{self, Document, Field};
use crate::queue;
use crate::request::InternalError;
use crate::text;
use vstd::prelude::*;
use vstd::utf8::*;

verus! {

/// The prompt of a document: its member `prompt`, where that is a string.
pub open spec fn prompt_in(document: json::DocumentView) -> Option<Seq<char>> {
    match document {
        json::DocumentView::Object(members) => if members.dom().contains("prompt"@) {
            match members["prompt"@] {
                json::FieldView::Text(prompt) => Some(prompt),
                _ => None,
            }
        } else {
            None
        },
        _ => None,
    }
}

/// The prompt in the body of a request: none where the body is not UTF-8, is not JSON, or holds no
/// prompt.
pub open spec fn prompt_in_body(body: Seq<u8>) -> Option<Seq<char>> {
    if valid_utf8(body) {
        match json::json_document(decode_utf8(body)) {
            Some(document) => prompt_in(document),
            None => None,
        }
    } else {
        None
    }
}

/// The prompt of an object whose members are strings.
pub open spec fn prompt_among(members: Seq<(Seq<char>, Seq<char>)>) -> Option<Seq<char>> {
    let map = json::member_map(members);
    if map.dom().contains("prompt"@) {
        Some(map["prompt"@])
    } else {
        None
    }
}

/// The last member that has a name decides what the object has under it.
proof fn member_map_by_last<V>(members: Seq<(Seq<char>, V)>, name: Seq<char>, at: int)
    requires
        -1 <= at < members.len(),
        0 <= at ==> members[at].0 == name,
        forall|i: int| at < i < members.len() ==> (#[trigger] members[i]).0 != name,
    ensures
        json::member_map(members).dom().contains(name) <==> 0 <= at,
        0 <= at ==> json::member_map(members)[name] == members[at].1,
{
    json::last_member_counts(members, name, at);
}

/// Finds the prompt of a document.
pub fn prompt_of(document: &Document) -> (prompt: Option<String>)
    ensures
        queue::text_view(prompt) == prompt_in(document@),
        !(document is Object) ==> prompt is None,
        document matches Document::Object(members) ==> {
            &&& forall|i: int|
                0 <= i < members@.len() && (#[trigger] members@[i]).0@ == "prompt"@ && (forall|j: int|
                    i < j < members@.len() ==> (#[trigger] members@[j]).0@ != "prompt"@)
                    ==> match members@[i].1 {
                    Field::Text(text) => prompt is Some && prompt->Some_0@ == text@,
                    _ => prompt is None,
                }
            &&& (forall|i: int|
                0 <= i < members@.len() ==> (#[trigger] members@[i]).0@ != "prompt"@)
                ==> prompt is None
        },
{
    match document {
        Document::Object(members) => {
            let name: String = "prompt".to_owned();
            let ghost views = json::field_views(members@);
            let mut i: usize = members.len();
            while i > 0
                invariant
                    i <= members@.len(),
                    name@ == "prompt"@,
                    *document == Document::Object(*members),
                    views == json::field_views(members@),
                    document@ == json::DocumentView::Object(json::member_map(views)),
                    forall|j: int| i <= j < views.len() ==> (#[trigger] views[j]).0 != name@,
                    forall|j: int|
                        i <= j < members@.len() ==> (#[trigger] members@[j]).0@ != "prompt"@,
                decreases i,
            {
                i = i - 1;
                assert(views[i as int] == (members@[i as int].0@, members@[i as int].1@));
                if members[i].0 == name {
                    proof {
                        member_map_by_last(views, name@, i as int);
                    }
                    let found: Option<String> = match &members[i].1 {
                        Field::Text(prompt) => Some(prompt.clone()),
                        _ => None,
                    };
                    proof {
                        let last = i as int;
                        assert(members@[last].0@ == "prompt"@);
                        assert forall|k: int|
                            0 <= k < members@.len() && (#[trigger] members@[k]).0@ == "prompt"@ && (
                            forall|j: int|
                                k < j < members@.len() ==> (#[trigger] members@[j]).0@
                                    != "prompt"@) implies k == last by {
                            if k < last {
                                assert(members@[last].0@ != "prompt"@);
                            }
                        }
                    }
                    return found;
                }
            }
            proof {
                member_map_by_last(views, name@, -1);
            }
            None
        },
        _ => None,
    }
}

proof fn text_fields_are_texts(members: Seq<(Seq<char>, Seq<char>)>)
    ensures
        json::member_map(json::text_fields(members)).dom() == json::member_map(members).dom(),
        forall|name: Seq<char>| #[trigger]
            json::member_map(members).dom().contains(name) ==> json::member_map(
                json::text_fields(members),
            )[name] == json::FieldView::Text(json::member_map(members)[name]),
    decreases members.len(),
{
    if members.len() > 0 {
        text_fields_are_texts(members.drop_last());
        assert(json::text_fields(members).drop_last() =~= json::text_fields(members.drop_last()));
    }
    assert(json::member_map(json::text_fields(members)).dom() =~= json::member_map(members).dom());
}

/// Finds the prompt in the body of a request.
///
/// The body is a JSON object, such as `{"prompt":"..."}`: the prompt that was written into such a
/// body is the one that is found.
pub fn extract_prompt(body: Vec<u8>) -> (prompt: Option<String>)
    ensures
        queue::text_view(prompt) == prompt_in_body(body@),
        forall|members: Seq<(Seq<char>, Seq<char>)>|
            body@ == encode_utf8(#[trigger] json::string_object(members)) ==> queue::text_view(
                prompt,
            ) == prompt_among(members),
        valid_utf8(body@) ==> (json::json_document(decode_utf8(body@)) matches Some(
            json::DocumentView::Object(members),
        ) ==> {
            &&& prompt is Some <==> members.dom().contains("prompt"@) && members["prompt"@] is Text
            &&& prompt is Some ==> members["prompt"@] == json::FieldView::Text(prompt->Some_0@)
        }),
        prompt is Some ==> valid_utf8(body@) && (json::json_document(
            decode_utf8(body@),
        ) matches Some(document) && document is Object),
        forall|members: Seq<(Seq<char>, Seq<char>)>, i: int|
            #![trigger json::string_object(members), members[i]]
            body@ == encode_utf8(json::string_object(members)) && 0 <= i < members.len()
                && members[i].0 == "prompt"@ && (forall|j: int|
                i < j < members.len() ==> (#[trigger] members[j]).0 != "prompt"@) ==> prompt is Some
                && prompt->Some_0@ == members[i].1,
{
    let ghost bytes = body@;
    let found: Option<String> = match text::from_utf8(body) {
        None => None,
        Some(text) => match json::parse_document(text.as_str()) {
            Err(_) => None,
            Ok(document) => {
                let found: Option<String> = prompt_of(&document);
                proof {
                    assert forall|members: Seq<(Seq<char>, Seq<char>)>|
                        bytes == encode_utf8(
                            #[trigger] json::string_object(members),
                        ) implies queue::text_view(found) == prompt_among(members) by {
                        encode_utf8_decode_utf8(json::string_object(members));
                        text_fields_are_texts(members);
                    }
                }
                found
            },
        },
    };
    proof {
        assert forall|members: Seq<(Seq<char>, Seq<char>)>|
            bytes == encode_utf8(
                #[trigger] json::string_object(members),
            ) implies queue::text_view(found) == prompt_among(members) by {
            encode_utf8_valid_utf8(json::string_object(members));
            encode_utf8_decode_utf8(json::string_object(members));
        }
        assert forall|members: Seq<(Seq<char>, Seq<char>)>, i: int|
            #![trigger json::string_object(members), members[i]]
            bytes == encode_utf8(json::string_object(members)) && 0 <= i < members.len()
                && members[i].0 == "prompt"@ && (forall|j: int|
                i < j < members.len() ==> (#[trigger] members[j]).0 != "prompt"@) implies found is Some
            && found->Some_0@ == members[i].1 by {
            json::last_member_counts(members, "prompt"@, i);
        }
    }
    found
}

/// The prompt is what JSON says it is, however the body is written: a body has a prompt exactly
/// where it is UTF-8 and is read as an object whose member `prompt` is a string, and the prompt is
/// that string.
pub proof fn prompt_is_that_of_the_object(body: Seq<u8>, prompt: Seq<char>)
    ensures
        prompt_in_body(body) == Some(prompt) <==> {
            &&& valid_utf8(body)
            &&& json::json_document(decode_utf8(body)) matches Some(
                json::DocumentView::Object(members),
            )
            &&& members.dom().contains("prompt"@)
            &&& members["prompt"@] == json::FieldView::Text(prompt)
        },
{
}

/// How a body is written does not matter: two bodies that are read as objects with the same members
/// have the same prompt, or none.
pub proof fn equal_objects_have_equal_prompts(
    a: Seq<char>,
    b: Seq<char>,
    members: Map<Seq<char>, json::FieldView>,
)
    requires
        json::json_document(a) == Some(json::DocumentView::Object(members)),
        json::json_document(b) == Some(json::DocumentView::Object(members)),
    ensures
        prompt_in_body(encode_utf8(a)) == prompt_in_body(encode_utf8(b)),
        prompt_in_body(encode_utf8(a)) is Some <==> members.dom().contains("prompt"@)
            && members["prompt"@] is Text,
{
    encode_utf8_valid_utf8(a);
    encode_utf8_decode_utf8(a);
    encode_utf8_valid_utf8(b);
    encode_utf8_decode_utf8(b);
}

/// Among members that are strings the prompt is the value of the last one with that name.
pub proof fn prompt_is_the_last_of_its_name(members: Seq<(Seq<char>, Seq<char>)>, at: int)
    requires
        -1 <= at < members.len(),
        0 <= at ==> members[at].0 == "prompt"@,
        forall|i: int| at < i < members.len() ==> (#[trigger] members[i]).0 != "prompt"@,
    ensures
        prompt_among(members) == if at < 0 {
            None
        } else {
            Some(members[at].1)
        },
{
    json::last_member_counts(members, "prompt"@, at);
}

/// What was written is read back: a body that holds just a prompt, as `{"prompt":"..."}`, is the
/// text of an object among whose members that prompt is found.
pub proof fn prompt_is_read_back(prompt: Seq<char>)
    ensures
        json::string_object(seq![("prompt"@, prompt)]) == "{\"prompt\":"@ + json::json_literal(
            prompt,
        ) + "}"@,
        prompt_among(seq![("prompt"@, prompt)]) == Some(prompt),
{
    let members = seq![("prompt"@, prompt)];
    reveal_strlit("prompt");
    reveal_strlit("{\"prompt\":");
    reveal_strlit("}");
    reveal_with_fuel(json::escaped, 7);
    assert("prompt"@ =~= seq!['p', 'r', 'o', 'm', 'p', 't']);
    assert(json::json_literal("prompt"@) =~= seq!['"', 'p', 'r', 'o', 'm', 'p', 't', '"']);
    assert(members.drop_last() =~= seq![]);
    assert(json::string_object(members) =~= "{\"prompt\":"@ + json::json_literal(prompt) + "}"@);
}

/// How a subscriber is answered: the prompt that is subscribed with, the header of the response
/// and its status.
#[derive(Debug)]
pub struct Answer {
    pub prompt: String,
    pub header_name: String,
    pub header_value: Vec<u8>,
    pub status: u16,
}

/// Decides how a request with this body is answered: with the patches for its prompt, or for the
/// empty prompt where it holds none, as lines of JSON.
pub fn answer(body: Vec<u8>) -> (answer: Answer)
    ensures
        answer.prompt@ == match prompt_in_body(body@) {
            Some(prompt) => prompt,
            None => seq![],
        },
        forall|members: Seq<(Seq<char>, Seq<char>)>|
            body@ == encode_utf8(#[trigger] json::string_object(members)) ==> answer.prompt@
                == match prompt_among(members) {
                Some(prompt) => prompt,
                None => seq![],
            },
        valid_utf8(body@) ==> (json::json_document(decode_utf8(body@)) matches Some(
            json::DocumentView::Object(members),
        ) ==> (members.dom().contains("prompt"@) && members["prompt"@] is Text
            ==> members["prompt"@] == json::FieldView::Text(answer.prompt@))),
        answer.prompt@.len() > 0 ==> valid_utf8(body@) && (json::json_document(
            decode_utf8(body@),
        ) matches Some(json::DocumentView::Object(members)) && members["prompt"@]
            == json::FieldView::Text(answer.prompt@)),
        answer.header_name@ == "content-type"@,
        answer.header_value@ == encode_utf8("application/x-ndjson"@),
        answer.status == 200,
{
    let prompt: String = match extract_prompt(body) {
        Some(prompt) => prompt,
        None => String::new(),
    };
    Answer {
        prompt,
        header_name: "content-type".to_owned(),
        header_value: "application/x-ndjson".as_bytes_vec(),
        status: 200,
    }
}

/// Decides on the answer of the response to its status: a status that is not accepted is an error.
pub fn check_status_accepted(accepted: bool) -> (outcome: Result<(), InternalError>)
    ensures
        match outcome {
            Ok(_) => accepted,
            Err(error) => !accepted && error@ == Some("set_status failed"@),
        },
        outcome is Ok <==> accepted,
        !accepted ==> outcome->Err_0.message is Some && outcome->Err_0.message->Some_0@
            == "set_status failed"@,
{
    if accepted {
        Ok(())
    } else {
        Err(InternalError { message: Some("set_status failed".to_owned()) })
    }
}

} // verus!
