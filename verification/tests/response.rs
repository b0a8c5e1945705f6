use patch_stream::queue::{ChunkQueue, Next};
use patch_stream::response::{task_step, ChunkReader, ReadStep, TaskEvent};

/// The items that the task pushes for a body, and how often it reads the end.
fn receive(body: &[u8]) -> (Vec<Option<String>>, usize) {
    let mut reader = ChunkReader::new();
    let mut queue: ChunkQueue<()> = ChunkQueue::new();
    for byte in body {
        let step = task_step(&mut reader, &mut queue, TaskEvent::Next(Some(*byte)));
        assert!(!step.finished);
    }
    let mut ends = 0;
    loop {
        ends += 1;
        if task_step(&mut reader, &mut queue, TaskEvent::Next(None)).finished {
            break;
        }
    }
    let mut items = Vec::new();
    while let Next::Ready(item) = queue.poll_next(()) {
        items.push(item);
    }
    (items, ends)
}

fn text(s: &str) -> Option<String> {
    Some(s.to_string())
}

#[test]
fn reader_stops_at_a_line_feed() {
    let mut reader = ChunkReader::new();
    assert!(matches!(reader.feed(Some(b'a')), ReadStep::More));
    match reader.feed(Some(b'\n')) {
        ReadStep::Chunk(chunk) => assert_eq!(chunk, text("a\n")),
        ReadStep::More => panic!("the line is complete"),
    }
    match reader.feed(Some(b'\n')) {
        ReadStep::Chunk(chunk) => assert_eq!(chunk, text("\n")),
        ReadStep::More => panic!("the line is complete"),
    }
    match reader.feed(None) {
        ReadStep::Chunk(chunk) => assert_eq!(chunk, None),
        ReadStep::More => panic!("the body has ended"),
    }
}

#[test]
fn body_that_ends_in_a_line_feed() {
    assert_eq!(receive(b"a\n\nbc\n"), (vec![text("a\n"), text("\n"), text("bc\n"), None], 1));
}

#[test]
fn body_that_ends_in_a_line() {
    assert_eq!(receive(b"data: x\ndata: y"), (vec![text("data: x\n"), text("data: y"), None], 2));
}

#[test]
fn empty_body() {
    assert_eq!(receive(b""), (vec![None], 1));
}

#[test]
fn carriage_returns_stay() {
    assert_eq!(receive(b"a\r\nb\r"), (vec![text("a\r\n"), text("b\r"), None], 2));
}

#[test]
fn chunks_keep_characters_whole() {
    let body = "é\n€\n😀";
    let (items, _) = receive(body.as_bytes());
    let whole: String = items.into_iter().flatten().collect();
    assert_eq!(whole, body);
}

#[test]
fn malformed_bytes_are_replaced() {
    assert_eq!(receive(b"a\xffb\n"), (vec![text("a\u{fffd}b\n"), None], 1));
    assert_eq!(receive(b"\xe2\x82"), (vec![text("\u{fffd}"), None], 2));
}

#[test]
fn failed_send_is_the_end() {
    let mut reader = ChunkReader::new();
    let mut queue: ChunkQueue<u32> = ChunkQueue::new();
    assert!(matches!(queue.poll_next(5), Next::Pending));
    let step = task_step(&mut reader, &mut queue, TaskEvent::SendFailed);
    assert!(step.finished);
    assert_eq!(step.wake, Some(5));
    assert!(matches!(queue.poll_next(6), Next::Ready(None)));
    assert!(matches!(queue.poll_next(6), Next::Pending));
}

#[test]
fn only_a_push_wakes() {
    let mut reader = ChunkReader::new();
    let mut queue: ChunkQueue<u32> = ChunkQueue::new();
    assert!(matches!(queue.poll_next(5), Next::Pending));
    assert_eq!(task_step(&mut reader, &mut queue, TaskEvent::Next(Some(b'a'))).wake, None);
    assert_eq!(task_step(&mut reader, &mut queue, TaskEvent::Next(Some(b'\n'))).wake, Some(5));
}

#[test]
fn script_reads_while_the_body_arrives() {
    let mut reader = ChunkReader::new();
    let mut queue: ChunkQueue<usize> = ChunkQueue::new();
    let mut read = Vec::new();
    let mut events: Vec<Option<u8>> = b"one\ntwo\nthree".iter().map(|byte| Some(*byte)).collect();
    events.push(None);
    events.push(None);
    for (i, next) in events.into_iter().enumerate() {
        task_step(&mut reader, &mut queue, TaskEvent::Next(next));
        if i % 2 == 0 {
            if let Next::Ready(item) = queue.poll_next(i) {
                read.push(item);
            }
        }
    }
    while let Next::Ready(item) = queue.poll_next(0) {
        read.push(item);
    }
    assert_eq!(read, vec![text("one\n"), text("two\n"), text("three"), None]);
}

#[test]
fn no_chunk_is_empty() {
    for body in [&b"\xff"[..], b"\xff\n\xfe", b"\n\n", b"a\n\xe2\x82\nb"] {
        let (items, _) = receive(body);
        for item in items.into_iter().flatten() {
            assert!(!item.is_empty());
        }
    }
}

#[test]
fn line_feeds_stand_only_at_the_end() {
    let (items, _) = receive("é\n\n€ b\nc".as_bytes());
    let texts: Vec<String> = items.into_iter().flatten().collect();
    for (i, text) in texts.iter().enumerate() {
        assert!(!text[..text.len() - 1].contains('\n'));
        assert!(i + 1 == texts.len() || text.ends_with('\n'));
    }
    assert_eq!(texts.len(), 4);
}

#[test]
fn lines_of_malformed_bytes_are_lines() {
    let (items, _) = receive(b"\xff\n\xe2\x82\n\n\xc3\xa9\xf0\x90\x80\nb\xfe");
    let texts: Vec<String> = items.into_iter().flatten().collect();
    assert_eq!(texts.len(), 5);
    for (i, text) in texts.iter().enumerate() {
        let last = text.chars().next_back();
        assert_eq!(text.matches('\n').count(), usize::from(last == Some('\n')));
        assert!(i + 1 == texts.len() || last == Some('\n'));
        assert!(last.is_some());
    }
}

#[test]
fn well_formed_characters_stay_beside_malformed_bytes() {
    assert_eq!(
        receive(b"\xc3\xa9\xff\xe2\x82\xac\xe2\nb"),
        (vec![text("\u{e9}\u{fffd}\u{20ac}\u{fffd}\n"), text("b"), None], 2)
    );
}

#[test]
fn chunks_of_a_malformed_body_make_up_its_text() {
    for body in [&b"a\xe2\x82\nb\xff\xfe\n\xf0\x90\x80"[..], b"\xc3\n\xa9", b"\x80\n\n\xff\xff\nz"] {
        let (items, _) = receive(body);
        let whole: String = items.into_iter().flatten().collect();
        assert_eq!(whole, String::from_utf8_lossy(body));
    }
    assert_eq!(receive(b"\xc3\n\xa9").0, vec![text("\u{fffd}\n"), text("\u{fffd}"), None]);
}
