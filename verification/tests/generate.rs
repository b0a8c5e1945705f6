use patch_stream::generate::{
    after, api_key, patch_line, setup_script, ActiveStream, After, RunStep, StreamRead,
    MAX_STACK_SIZE,
};
use patch_stream::json::string_literal;
use patch_stream::queue::{Next, PatchQueue};

fn pairs(list: &[(&str, &str)]) -> Vec<(String, String)> {
    list.iter().map(|(name, value)| (name.to_string(), value.to_string())).collect()
}

/// The steps of a run in which the steps of a list fail, and whether it broke off.
fn run(failing: &[RunStep]) -> (Vec<RunStep>, bool) {
    let mut steps = Vec::new();
    let mut step = RunStep::CreateRuntime;
    loop {
        steps.push(step);
        match after(step, !failing.contains(&step)) {
            After::Continue(next) => step = next,
            After::Abort => return (steps, true),
            After::Done => return (steps, false),
        }
    }
}

#[test]
fn key_is_the_first_of_its_name() {
    assert_eq!(api_key(&pairs(&[])), "");
    assert_eq!(api_key(&pairs(&[("PATH", "/bin")])), "");
    assert_eq!(api_key(&pairs(&[("anthropic_api_key", "x")])), "");
    assert_eq!(
        api_key(&pairs(&[
            ("PATH", "/bin"),
            ("ANTHROPIC_API_KEY", "one"),
            ("ANTHROPIC_API_KEY", "two"),
        ])),
        "one"
    );
}

#[test]
fn key_statement() {
    assert_eq!(
        setup_script("abc"),
        "globalThis.process = { env: { ANTHROPIC_API_KEY: \"abc\" } };"
    );
    assert_eq!(setup_script(""), "globalThis.process = { env: { ANTHROPIC_API_KEY: \"\" } };");
    assert_eq!(
        setup_script("a\"; b()//\\\n"),
        "globalThis.process = { env: { ANTHROPIC_API_KEY: \"a\\\"; b()//\\\\\\n\" } };"
    );
}

#[test]
fn different_keys_give_different_statements() {
    let keys = ["", "\\", "\\\\", "n", "\n", "\\n", "\"", "\\\"", "\u{b}", "u000b", "\\u000b"];
    for a in keys {
        for b in keys {
            assert_eq!(setup_script(a) == setup_script(b), a == b);
        }
    }
}

#[test]
fn json_strings() {
    assert_eq!(string_literal("\u{8}\t\n\u{c}\r\"\\/"), "\"\\b\\t\\n\\f\\r\\\"\\\\/\"");
    assert_eq!(string_literal("é€😀\u{7f}\u{2028}"), "\"é€😀\u{7f}\u{2028}\"");
    for code in 0..32u32 {
        let short = match code {
            8 => Some('b'),
            9 => Some('t'),
            10 => Some('n'),
            12 => Some('f'),
            13 => Some('r'),
            _ => None,
        };
        let expected = match short {
            Some(c) => format!("\"\\{}\"", c),
            None => format!("\"\\u{:04x}\"", code),
        };
        let text: String = char::from_u32(code).into_iter().collect();
        assert_eq!(string_literal(&text), expected);
    }
}

#[test]
fn patches_become_lines() {
    assert_eq!(patch_line("{\"op\":\"add\"}"), b"{\"op\":\"add\"}\n".to_vec());
    assert_eq!(patch_line(""), b"\n".to_vec());
    assert_eq!(patch_line("é"), vec![0xc3, 0xa9, b'\n']);
}

#[test]
fn stream_holds_every_patch() {
    let mut queue: PatchQueue<()> = PatchQueue::new();
    let patches = ["{\"a\":1}", "", "é"];
    for patch in patches {
        assert!(queue.push(patch.to_string()).is_none());
    }
    assert!(queue.finish().is_none());
    let mut stream = Vec::new();
    while let Next::Ready(Some(patch)) = queue.poll_next(()) {
        stream.extend(patch_line(&patch));
    }
    let text = String::from_utf8(stream).unwrap();
    let lines: Vec<&str> = text.split_inclusive('\n').collect();
    assert_eq!(lines, vec!["{\"a\":1}\n", "\n", "é\n"]);
}

#[test]
fn run_without_failure() {
    let (steps, broken) = run(&[]);
    assert!(!broken);
    assert_eq!(
        steps,
        vec![
            RunStep::CreateRuntime,
            RunStep::LimitStack,
            RunStep::CreateContext,
            RunStep::LoadPage,
            RunStep::SetKey,
            RunStep::DefineStreamStart,
            RunStep::DefineStreamRead,
            RunStep::MakeOnPatch,
            RunStep::FindGenerate,
            RunStep::CallGenerate,
            RunStep::AwaitPage,
            RunStep::CollectGarbage,
            RunStep::FinishPatches,
        ]
    );
}

#[test]
fn failure_in_the_script_still_finishes() {
    for failing in [
        RunStep::DefineStreamStart,
        RunStep::DefineStreamRead,
        RunStep::MakeOnPatch,
        RunStep::FindGenerate,
        RunStep::CallGenerate,
        RunStep::AwaitPage,
    ] {
        let (steps, broken) = run(&[failing]);
        assert!(!broken);
        let n = steps.len();
        assert_eq!(steps[n - 3..].to_vec(), vec![failing, RunStep::CollectGarbage, RunStep::FinishPatches]);
        let called = failing == RunStep::CallGenerate || failing == RunStep::AwaitPage;
        assert_eq!(steps.contains(&RunStep::CallGenerate), called);
    }
}

#[test]
fn failure_of_a_vital_step_breaks_off() {
    for failing in
        [RunStep::CreateRuntime, RunStep::CreateContext, RunStep::LoadPage, RunStep::SetKey]
    {
        let (steps, broken) = run(&[failing]);
        assert!(broken);
        assert_eq!(steps.last(), Some(&failing));
    }
}

#[test]
fn stream_of_the_last_request_is_read() {
    let mut active: ActiveStream<u32> = ActiveStream::new();
    assert!(matches!(active.read(), StreamRead::End));
    active.start(1);
    assert!(matches!(active.read(), StreamRead::From(1)));
    active.start(2);
    assert!(matches!(active.read(), StreamRead::From(2)));
    assert!(matches!(active.read(), StreamRead::From(2)));
}

#[test]
fn stack_limit() {
    assert_eq!(MAX_STACK_SIZE, 1048576);
}

#[test]
fn stream_holds_patches_with_line_feeds_too() {
    let mut queue: PatchQueue<()> = PatchQueue::new();
    for patch in ["a\nb", "c"] {
        assert!(queue.push(patch.to_string()).is_none());
    }
    assert!(queue.finish().is_none());
    let mut stream = Vec::new();
    while let Next::Ready(Some(patch)) = queue.poll_next(()) {
        stream.extend(patch_line(&patch));
    }
    assert_eq!(stream, b"a\nb\nc\n".to_vec());
}
