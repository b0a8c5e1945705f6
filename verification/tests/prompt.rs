use patch_stream::json::{Document, Field};
use patch_stream::prompt::{answer, check_status_accepted, extract_prompt, prompt_of};

fn extract(body: &str) -> Option<String> {
    extract_prompt(body.as_bytes().to_vec())
}

fn text(s: &str) -> Option<String> {
    Some(s.to_string())
}

#[test]
fn prompt_is_found() {
    assert_eq!(extract("{\"prompt\":\"make a page\"}"), text("make a page"));
    assert_eq!(extract(" { \"x\": [1], \"prompt\" : \"\" } \n"), text(""));
    assert_eq!(extract("{\"prompt\":\"\\u00e9\\n\\\"\\ud83d\\ude00\"}"), text("é\n\"😀"));
    assert_eq!(extract("{\"prompt\":\"a\",\"prompt\":\"b\"}"), text("b"));
}

#[test]
fn no_prompt_is_found() {
    assert_eq!(extract(""), None);
    assert_eq!(extract("prompt"), None);
    assert_eq!(extract("{\"prompt\":1}"), None);
    assert_eq!(extract("{\"prompt\":null}"), None);
    assert_eq!(extract("{\"prompt\":[\"a\"]}"), None);
    assert_eq!(extract("{\"prompt\":{\"prompt\":\"a\"}}"), None);
    assert_eq!(extract("{\"Prompt\":\"a\"}"), None);
    assert_eq!(extract("[\"prompt\"]"), None);
    assert_eq!(extract("\"prompt\""), None);
    assert_eq!(extract("{\"prompt\":\"a\"} trailing"), None);
    assert_eq!(extract("{\"prompt\":\"a\""), None);
    assert_eq!(extract_prompt(b"{\"prompt\":\"\xff\"}".to_vec()), None);
}

#[test]
fn written_prompt_is_read_back() {
    for prompt in ["", "plain", "\"quoted\" \\ and\n\t\u{1}\u{1f}", "é€😀\u{2028}\u{7f}"] {
        let literal = serde_json::to_string(prompt).unwrap();
        let body = format!("{{\"prompt\":{}}}", literal);
        assert_eq!(extract(&body), text(prompt));
    }
}

#[test]
fn prompt_of_documents() {
    let member = |name: &str, field: Field| (name.to_string(), field);
    let document = |members: Vec<(String, Field)>| prompt_of(&Document::Object(members));
    assert_eq!(prompt_of(&Document::Null), None);
    assert_eq!(prompt_of(&Document::Bool(true)), None);
    assert_eq!(prompt_of(&Document::Number), None);
    assert_eq!(prompt_of(&Document::Text("prompt".to_string())), None);
    assert_eq!(prompt_of(&Document::Array), None);
    assert_eq!(document(vec![]), None);
    assert_eq!(document(vec![member("prompt", Field::Text("a".to_string()))]), text("a"));
    assert_eq!(
        document(vec![
            member("prompt", Field::Text("a".to_string())),
            member("other", Field::Text("b".to_string())),
        ]),
        text("a")
    );
    assert_eq!(
        document(vec![
            member("prompt", Field::Text("a".to_string())),
            member("prompt", Field::Null),
        ]),
        None
    );
    for field in [Field::Null, Field::Bool(true), Field::Number, Field::Array, Field::Object] {
        assert_eq!(document(vec![member("prompt", field)]), None);
    }
}

#[test]
fn answers() {
    let answered = answer(b"{\"prompt\":\"hi\"}".to_vec());
    assert_eq!(answered.prompt, "hi");
    assert_eq!(answered.header_name, "content-type");
    assert_eq!(answered.header_value, b"application/x-ndjson".to_vec());
    assert_eq!(answered.status, 200);
    assert_eq!(answer(b"\xff".to_vec()).prompt, "");
    assert_eq!(answer(b"{}".to_vec()).prompt, "");
}

#[test]
fn refused_status_is_an_error() {
    assert!(check_status_accepted(true).is_ok());
    let error = check_status_accepted(false).unwrap_err();
    assert_eq!(error.message.as_deref(), Some("set_status failed"));
}
