use patch_stream::request::{
    check_status, parse_target, refusal, Blame, Plan, Progress, Scheme, Step,
};

fn line(step: &Step) -> String {
    match step {
        Step::Header { name, value } => {
            format!("header {}: {}", name, String::from_utf8(value.clone()).unwrap())
        }
        Step::ContentLength { name, value } => {
            format!("length {}: {}", name, String::from_utf8(value.clone()).unwrap())
        }
        Step::Open => "open".to_string(),
        Step::Post => "post".to_string(),
        Step::Scheme(Scheme::Http) => "http".to_string(),
        Step::Scheme(Scheme::Https) => "https".to_string(),
        Step::Authority(authority) => format!("authority {}", authority),
        Step::Path(path) => format!("path {}", path),
    }
}

/// The steps of a plan when all of them are accepted.
fn accepted(mut plan: Plan) -> Vec<String> {
    let mut lines = Vec::new();
    loop {
        match plan.advance(true) {
            Progress::Perform(step) => lines.push(line(&step)),
            Progress::Send(_) => return lines,
            Progress::Refuse(error) => panic!("refused: {:?}", error),
        }
    }
}

/// How many steps are performed when the last one of them is refused, and the message then.
fn refused(mut plan: Plan, at: usize) -> (usize, Option<String>) {
    let mut performed = 0;
    let mut answer = true;
    loop {
        match plan.advance(answer) {
            Progress::Perform(_) => {
                performed += 1;
                answer = performed != at;
            }
            Progress::Send(_) => panic!("sent"),
            Progress::Refuse(error) => {
                match plan.advance(true) {
                    Progress::Refuse(again) => assert_eq!(again.message, error.message),
                    _ => panic!("the plan went on"),
                }
                return (performed, error.message);
            }
        }
    }
}

fn pairs(list: &[(&str, &str)]) -> Vec<(String, String)> {
    list.iter().map(|(name, value)| (name.to_string(), value.to_string())).collect()
}

fn target(url: &str) -> Option<(Scheme, String, String)> {
    parse_target(url).map(|t| (t.scheme, t.authority, t.path))
}

#[test]
fn targets() {
    let split = |s: Scheme, a: &str, p: &str| Some((s, a.to_string(), p.to_string()));
    assert_eq!(
        target("https://api.anthropic.com/v1/messages?beta=true"),
        split(Scheme::Https, "api.anthropic.com", "/v1/messages?beta=true")
    );
    assert_eq!(target("HTTPS://h"), split(Scheme::Https, "h", "/"));
    assert_eq!(target("http://h:80/"), split(Scheme::Http, "h:80", "/"));
    assert_eq!(target("ftp://h/a/b"), split(Scheme::Http, "h", "/a/b"));
    assert_eq!(target("://h"), split(Scheme::Http, "h", "/"));
    assert_eq!(target("https://"), split(Scheme::Https, "", "/"));
    assert_eq!(target("https:///x"), split(Scheme::Https, "", "/x"));
    assert_eq!(target("https://h?q=a://b"), split(Scheme::Https, "h?q=a:", "//b"));
    assert_eq!(target("h/a"), None);
    assert_eq!(target("https:/h"), None);
    assert_eq!(target(""), None);
}

#[test]
fn target_and_scheme_make_up_the_url() {
    for url in ["https://a/b/c", "http://a", "x://y/z?u=v", "https://é/€"] {
        let t = parse_target(url).unwrap();
        let name = url.split("://").next().unwrap();
        let whole = format!("{}://{}{}", name, t.authority, t.path);
        assert!(whole == url || whole == format!("{}/", url));
        assert!(!t.authority.contains('/'));
        assert!(t.path.starts_with('/'));
    }
}

#[test]
fn steps_of_a_request() {
    let plan = Plan::with_headers(
        "https://h/p",
        &pairs(&[("x-api-key", "k"), ("accept", "é")]),
        "héllo",
    );
    assert_eq!(
        accepted(plan),
        vec![
            "header x-api-key: k",
            "header accept: é",
            "length content-length: 6",
            "open",
            "post",
            "https",
            "authority h",
            "path /p",
        ]
    );
}

#[test]
fn given_length_is_kept() {
    let plan = Plan::with_headers("no target", &pairs(&[("Content-LENGTH", "99")]), "abc");
    assert_eq!(accepted(plan), vec!["header Content-LENGTH: 99", "open", "post"]);
}

#[test]
fn empty_body_has_a_length() {
    let plan = Plan::with_headers("", &pairs(&[("content-length ", "1")]), "");
    assert_eq!(
        accepted(plan),
        vec!["header content-length : 1", "length content-length: 0", "open", "post"]
    );
}

#[test]
fn headers_are_read_from_json() {
    let plan = Plan::new("http://h", "{\"b\":\"2\",\"a\":\"\\u00e9\\n\",\"b\":\"3\"}", "x");
    let mut lines = accepted(plan);
    let rest = lines.split_off(2);
    lines.sort();
    assert_eq!(lines, vec!["header a: é\n", "header b: 3"]);
    assert_eq!(
        rest,
        vec!["length content-length: 1", "open", "post", "http", "authority h", "path /"]
    );
}

#[test]
fn headers_that_are_no_object_of_strings_are_none() {
    for json in ["", "[]", "{\"a\":1}", "{\"a\":\"b\"", "null", "{\"a\":\"b\"} x"] {
        let lines = accepted(Plan::new("u", json, "ab"));
        assert_eq!(lines, vec!["length content-length: 2", "open", "post"]);
    }
    assert_eq!(accepted(Plan::new("u", "{}", "")).len(), 3);
}

#[test]
fn first_refusal_ends_the_plan() {
    let plan = || Plan::with_headers("https://h/p", &pairs(&[("a", "1"), ("b", "2")]), "x");
    let header = Some("header error".to_string());
    let length = Some("content-length header error".to_string());
    assert_eq!(refused(plan(), 1), (1, header.clone()));
    assert_eq!(refused(plan(), 2), (2, header));
    assert_eq!(refused(plan(), 3), (3, length));
    for at in 4..9 {
        assert_eq!(refused(plan(), at), (at, None));
    }
}

#[test]
fn refusals() {
    assert_eq!(refusal(Blame::Header).message.as_deref(), Some("header error"));
    assert_eq!(refusal(Blame::ContentLength).message.as_deref(), Some("content-length header error"));
    assert_eq!(refusal(Blame::Request).message, None);
}

#[test]
fn statuses() {
    assert!(check_status(200).is_ok());
    for status in [0u16, 100, 199, 201, 204, 301, 404, 429, 500, 65535] {
        let message = check_status(status).unwrap_err().message;
        assert_eq!(message, Some(format!("status {}", status)));
    }
}

#[test]
fn stated_length_is_that_of_the_body_that_is_sent() {
    for body in ["", "x", "héllo", "{\"a\":\"€😀\"}\n"] {
        let mut plan = Plan::with_headers("https://h/p", &pairs(&[("a", "1")]), body);
        let mut length = None;
        let sent = loop {
            match plan.advance(true) {
                Progress::Perform(Step::ContentLength { value, .. }) => {
                    length = String::from_utf8(value).ok();
                }
                Progress::Perform(_) => {}
                Progress::Send(bytes) => break bytes,
                Progress::Refuse(error) => panic!("refused: {:?}", error),
            }
        };
        assert_eq!(sent, body.as_bytes().to_vec());
        assert_eq!(length, Some(sent.len().to_string()));
    }
}
