use patch_stream::queue::{ChunkQueue, Next, PatchQueue};

fn ready(next: Next) -> Option<String> {
    match next {
        Next::Ready(item) => item,
        Next::Pending => panic!("nothing to read"),
    }
}

fn pending(next: Next) -> bool {
    matches!(next, Next::Pending)
}

fn text(s: &str) -> Option<String> {
    Some(s.to_string())
}

#[test]
fn chunks_come_out_in_order() {
    let mut queue: ChunkQueue<u32> = ChunkQueue::new();
    assert_eq!(queue.push(text("a")), None);
    assert_eq!(queue.push(text("b")), None);
    assert_eq!(ready(queue.poll_next(1)), text("a"));
    assert_eq!(queue.push(None), None);
    assert_eq!(ready(queue.poll_next(1)), text("b"));
    assert_eq!(ready(queue.poll_next(1)), None);
    assert!(pending(queue.poll_next(1)));
}

#[test]
fn push_wakes_the_last_chunk_reader_once() {
    let mut queue: ChunkQueue<u32> = ChunkQueue::new();
    assert!(pending(queue.poll_next(1)));
    assert!(pending(queue.poll_next(2)));
    assert_eq!(queue.push(text("a")), Some(2));
    assert_eq!(queue.push(text("b")), None);
    assert_eq!(ready(queue.poll_next(3)), text("a"));
    assert_eq!(ready(queue.poll_next(3)), text("b"));
    assert!(pending(queue.poll_next(3)));
    assert_eq!(queue.push(None), Some(3));
}

#[test]
fn patches_come_out_in_order_and_then_the_end() {
    let mut queue: PatchQueue<u32> = PatchQueue::new();
    assert_eq!(queue.push("a".to_string()), None);
    assert_eq!(queue.push("b".to_string()), None);
    assert_eq!(queue.finish(), None);
    assert_eq!(ready(queue.poll_next(1)), text("a"));
    assert_eq!(ready(queue.poll_next(1)), text("b"));
    assert_eq!(ready(queue.poll_next(1)), None);
    assert_eq!(ready(queue.poll_next(1)), None);
}

#[test]
fn patch_after_the_end_is_still_read() {
    let mut queue: PatchQueue<u32> = PatchQueue::new();
    assert_eq!(queue.finish(), None);
    assert_eq!(ready(queue.poll_next(1)), None);
    assert_eq!(queue.push("late".to_string()), None);
    assert_eq!(ready(queue.poll_next(1)), text("late"));
    assert_eq!(ready(queue.poll_next(1)), None);
}

#[test]
fn push_and_finish_wake_the_patch_reader() {
    let mut queue: PatchQueue<u32> = PatchQueue::new();
    assert!(pending(queue.poll_next(1)));
    assert_eq!(queue.push("a".to_string()), Some(1));
    assert_eq!(ready(queue.poll_next(2)), text("a"));
    assert!(pending(queue.poll_next(2)));
    assert_eq!(queue.finish(), Some(2));
    assert_eq!(queue.finish(), None);
    assert_eq!(ready(queue.poll_next(3)), None);
}

#[test]
fn reader_waits_exactly_when_all_is_read() {
    let mut queue: PatchQueue<u32> = PatchQueue::new();
    assert!(pending(queue.poll_next(1)));
    assert_eq!(queue.push("a".to_string()), Some(1));
    assert_eq!(ready(queue.poll_next(1)), text("a"));
    assert!(pending(queue.poll_next(1)));
    assert_eq!(queue.finish(), Some(1));
    assert!(!pending(queue.poll_next(1)));
}
