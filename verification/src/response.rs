//! The body of an HTTP response, cut into chunks that end at line feeds, and the task that hands
//! them to the script.

use crate::queue::{self, ChunkOp, ChunkQueue, ChunkQueueView};
use crate::text::{self, NEWLINE};
use vstd::prelude::*;
use vstd::utf8::*;

verus! {

/// What one step of reading a chunk comes to.
#[derive(Debug)]
pub enum ReadStep {
    /// The chunk goes on.
    More,
    /// This is the chunk, or `None` where the body has ended.
    Chunk(Option<String>),
}

/// What one step of reading a chunk comes to, in terms of characters.
pub enum ReadStepView {
    More,
    Chunk(Option<Seq<char>>),
}

impl View for ReadStep {
    type V = ReadStepView;

    open spec fn view(&self) -> ReadStepView {
        match self {
            ReadStep::More => ReadStepView::More,
            ReadStep::Chunk(chunk) => ReadStepView::Chunk(queue::text_view(*chunk)),
        }
    }
}

/// A step is the same in terms of characters: a chunk with its text, the end, or nothing yet.
pub proof fn read_step_view_is_of_the_step(step: ReadStep)
    ensures
        match step {
            ReadStep::More => step@ is More,
            ReadStep::Chunk(Some(chunk)) => step@ == ReadStepView::Chunk(Some(chunk@)),
            ReadStep::Chunk(None) => step@ == ReadStepView::Chunk(None),
        },
{
}

/// What a reader that holds `held` makes of the next byte, or of `None`, the end of the body: the
/// bytes that it holds then, and the step. A chunk is complete at a line feed, which belongs to
/// it, and at the end of the body where there is anything to return.
pub open spec fn read_step(held: Seq<u8>, next: Option<u8>) -> (Seq<u8>, ReadStepView) {
    match next {
        Some(byte) => if byte == NEWLINE {
            (seq![], ReadStepView::Chunk(Some(text::lossy_text(held.push(byte)))))
        } else {
            (held.push(byte), ReadStepView::More)
        },
        None => if held.len() == 0 {
            (seq![], ReadStepView::Chunk(None))
        } else {
            (seq![], ReadStepView::Chunk(Some(text::lossy_text(held))))
        },
    }
}

/// Reads chunks from a body that arrives byte by byte.
pub struct ChunkReader {
    held: Vec<u8>,
}

impl View for ChunkReader {
    type V = Seq<u8>;

    closed spec fn view(&self) -> Seq<u8> {
        self.held@
    }
}

impl ChunkReader {
    /// A reader at the start of a chunk.
    pub fn new() -> (reader: Self)
        ensures
            reader@ == Seq::<u8>::empty(),
    {
        ChunkReader { held: Vec::with_capacity(1024) }
    }

    /// Takes the next byte of the body, or `None` at its end. A chunk is never empty.
    pub fn feed(&mut self, next: Option<u8>) -> (step: ReadStep)
        ensures
            (final(self)@, step@) == read_step(old(self)@, next),
            step@ matches ReadStepView::Chunk(Some(chunk)) ==> chunk.len() > 0,
            next matches Some(byte) ==> (byte != 10 ==> step is More && final(self)@
                == old(self)@.push(byte)),
            next is None || next == Some(10u8) ==> step is Chunk && final(self)@.len() == 0,
            next is None && old(self)@.len() == 0 ==> step->Chunk_0 is None,
            next is None && old(self)@.len() > 0 ==> step->Chunk_0 is Some && text::alike(
                step->Chunk_0->Some_0@,
                text::marked_text(old(self)@),
            ) && step->Chunk_0->Some_0@ == (if valid_utf8(old(self)@) {
                decode_utf8(old(self)@)
            } else {
                text::repaired_text(old(self)@)
            }),
            next == Some(10u8) ==> step->Chunk_0 is Some && text::alike(
                step->Chunk_0->Some_0@,
                text::marked_text(old(self)@.push(10u8)),
            ) && step->Chunk_0->Some_0@ == (if valid_utf8(old(self)@.push(10u8)) {
                decode_utf8(old(self)@.push(10u8))
            } else {
                text::repaired_text(old(self)@.push(10u8))
            }),
    {
        match next {
            Some(byte) => {
                self.held.push(byte);
                if byte == NEWLINE {
                    let chunk: String = text::from_utf8_lossy(&self.held);
                    proof {
                        text::text_is_not_empty(self.held@, chunk@);
                    }
                    self.held.clear();
                    ReadStep::Chunk(Some(chunk))
                } else {
                    ReadStep::More
                }
            },
            None => {
                if self.held.len() == 0 {
                    ReadStep::Chunk(None)
                } else {
                    let chunk: String = text::from_utf8_lossy(&self.held);
                    proof {
                        text::text_is_not_empty(self.held@, chunk@);
                    }
                    self.held.clear();
                    ReadStep::Chunk(Some(chunk))
                }
            },
        }
    }
}

/// What the task that receives a response learns.
#[derive(Debug)]
pub enum TaskEvent {
    /// The request was refused, or not answered as it should be.
    SendFailed,
    /// The next byte of the body, or `None` at its end.
    Next(Option<u8>),
}

/// What is left to do after an event: the reader to be woken, and whether the task is over.
#[derive(Debug)]
pub struct TaskStep<W> {
    pub wake: Option<W>,
    pub finished: bool,
}

/// The chunk (or the end, `None`) that the task pushes on this event, if any.
pub open spec fn task_pushes(held: Seq<u8>, event: TaskEvent) -> Option<Option<Seq<char>>> {
    match event {
        TaskEvent::SendFailed => Some(None),
        TaskEvent::Next(next) => match read_step(held, next).1 {
            ReadStepView::More => None,
            ReadStepView::Chunk(chunk) => Some(chunk),
        },
    }
}

/// The bytes that the task's reader holds after this event.
pub open spec fn task_holds(held: Seq<u8>, event: TaskEvent) -> Seq<u8> {
    match event {
        TaskEvent::SendFailed => held,
        TaskEvent::Next(next) => read_step(held, next).0,
    }
}

/// Deals with one event: pushes what is to be pushed, and says whether that was the end. No text
/// that is pushed is empty.
pub fn task_step<W>(
    reader: &mut ChunkReader,
    queue: &mut ChunkQueue<W>,
    event: TaskEvent,
) -> (step: TaskStep<W>)
    ensures
        final(reader)@ == task_holds(old(reader)@, event),
        match task_pushes(old(reader)@, event) {
            Some(chunk) => {
                &&& final(queue)@ == old(queue)@.pushed(chunk)
                &&& step.wake == old(queue)@.waker
                &&& step.finished == (chunk is None)
                &&& chunk matches Some(text) ==> text.len() > 0
            },
            None => {
                &&& final(queue)@ == old(queue)@
                &&& step.wake is None
                &&& !step.finished
            },
        },
        old(queue)@.wf() ==> final(queue)@.wf(),
        event is SendFailed ==> final(queue)@.chunks == old(queue)@.chunks.push(None)
            && final(reader)@ == old(reader)@,
        event matches TaskEvent::Next(next) ==> match next {
            Some(byte) => if byte == 10 {
                &&& final(reader)@.len() == 0
                &&& final(queue)@.chunks.len() == old(queue)@.chunks.len() + 1
                &&& final(queue)@.chunks.drop_last() == old(queue)@.chunks
                &&& final(queue)@.chunks.last() is Some
                &&& text::alike(
                    final(queue)@.chunks.last()->Some_0,
                    text::marked_text(old(reader)@.push(10u8)),
                )
                &&& final(queue)@.chunks.last()->Some_0 == if valid_utf8(
                    old(reader)@.push(10u8),
                ) {
                    decode_utf8(old(reader)@.push(10u8))
                } else {
                    text::repaired_text(old(reader)@.push(10u8))
                }
            } else {
                &&& final(reader)@ == old(reader)@.push(byte)
                &&& final(queue)@ == old(queue)@
            },
            None => {
                &&& final(reader)@.len() == 0
                &&& final(queue)@.chunks.len() == old(queue)@.chunks.len() + 1
                &&& final(queue)@.chunks.drop_last() == old(queue)@.chunks
                &&& final(queue)@.chunks.last() is None <==> old(reader)@.len() == 0
                &&& old(reader)@.len() > 0 ==> text::alike(
                    final(queue)@.chunks.last()->Some_0,
                    text::marked_text(old(reader)@),
                )
                &&& old(reader)@.len() > 0 ==> final(queue)@.chunks.last()->Some_0 == (
                if valid_utf8(old(reader)@) {
                    decode_utf8(old(reader)@)
                } else {
                    text::repaired_text(old(reader)@)
                })
            },
        },
        step.finished <==> event is SendFailed || event == TaskEvent::Next(None)
            && old(reader)@.len() == 0,
        final(queue)@.chunks.len() > old(queue)@.chunks.len() ==> step.wake == old(queue)@.waker
            && final(queue)@.waker is None,
        final(queue)@.chunks.len() == old(queue)@.chunks.len() ==> step.wake is None,
{
    match event {
        TaskEvent::SendFailed => {
            let wake: Option<W> = queue.push(None);
            TaskStep { wake, finished: true }
        },
        TaskEvent::Next(next) => {
            match reader.feed(next) {
                ReadStep::More => TaskStep { wake: None, finished: false },
                ReadStep::Chunk(chunk) => {
                    let finished: bool = chunk.is_none();
                    let wake: Option<W> = queue.push(chunk);
                    TaskStep { wake, finished }
                },
            }
        },
    }
}

/// What stands after the last line feed.
pub open spec fn unfinished(bytes: Seq<u8>) -> Seq<u8>
    decreases bytes.len(),
{
    if bytes.len() == 0 || bytes.last() == NEWLINE {
        seq![]
    } else {
        unfinished(bytes.drop_last()).push(bytes.last())
    }
}

/// The lines that are complete, each with its line feed.
pub open spec fn lines(bytes: Seq<u8>) -> Seq<Seq<u8>>
    decreases bytes.len(),
{
    if bytes.len() == 0 {
        seq![]
    } else if bytes.last() == NEWLINE {
        lines(bytes.drop_last()).push(unfinished(bytes.drop_last()).push(NEWLINE))
    } else {
        lines(bytes.drop_last())
    }
}

/// The chunks of a body: its lines, and what stands after the last line feed where that is not
/// nothing.
pub open spec fn chunks(bytes: Seq<u8>) -> Seq<Seq<u8>> {
    if unfinished(bytes).len() == 0 {
        lines(bytes)
    } else {
        lines(bytes).push(unfinished(bytes))
    }
}

/// The texts of a number of chunks.
pub open spec fn texts(pieces: Seq<Seq<u8>>) -> Seq<Seq<char>> {
    pieces.map_values(|piece: Seq<u8>| text::lossy_text(piece))
}

/// What the task has done after a number of events: the bytes that its reader holds, the items
/// that it pushed, and whether it is over, after which no event reaches it.
#[verifier::ext_equal]
pub struct TaskRun {
    pub held: Seq<u8>,
    pub pushed: Seq<Option<Seq<char>>>,
    pub finished: bool,
}

/// The task after these events.
pub open spec fn task_run(events: Seq<TaskEvent>) -> TaskRun
    decreases events.len(),
{
    if events.len() == 0 {
        TaskRun { held: seq![], pushed: seq![], finished: false }
    } else {
        let before = task_run(events.drop_last());
        if before.finished {
            before
        } else {
            let held = task_holds(before.held, events.last());
            match task_pushes(before.held, events.last()) {
                Some(chunk) => TaskRun {
                    held,
                    pushed: before.pushed.push(chunk),
                    finished: chunk is None,
                },
                None => TaskRun { held, ..before },
            }
        }
    }
}

/// The events of a body that arrives.
pub open spec fn body_events(bytes: Seq<u8>) -> Seq<TaskEvent> {
    bytes.map_values(|byte: u8| TaskEvent::Next(Some(byte)))
}

/// What lines and the bytes after them look like, and that together they are all the bytes.
proof fn lines_and_rest(bytes: Seq<u8>)
    ensures
        forall|i: int|
            0 <= i < lines(bytes).len() ==> {
                &&& #[trigger] lines(bytes)[i].len() > 0
                &&& lines(bytes)[i].last() == NEWLINE
                &&& forall|j: int|
                    0 <= j < lines(bytes)[i].len() - 1 ==> lines(bytes)[i][j] != NEWLINE
            },
        forall|j: int| 0 <= j < unfinished(bytes).len() ==> unfinished(bytes)[j] != NEWLINE,
        lines(bytes).flatten() + unfinished(bytes) == bytes,
    decreases bytes.len(),
{
    if bytes.len() > 0 {
        let shorter = bytes.drop_last();
        lines_and_rest(shorter);
        assert(shorter.push(bytes.last()) =~= bytes);
        if bytes.last() == NEWLINE {
            let line = unfinished(shorter).push(NEWLINE);
            assert(lines(bytes) == lines(shorter).push(line));
            lines(shorter).lemma_flatten_push(line);
            assert(lines(bytes).flatten() + unfinished(bytes) =~= bytes);
        } else {
            assert(lines(bytes).flatten() + unfinished(bytes) =~= bytes);
        }
    } else {
        assert(lines(bytes).flatten() =~= seq![]);
        assert(lines(bytes).flatten() + unfinished(bytes) =~= bytes);
    }
}

/// Nothing of a body is lost, added or moved: its chunks, one after the other, are the body. None
/// is empty, a line feed stands only at the end of a chunk, and every chunk but the last ends in
/// one.
pub proof fn chunks_make_up_the_body(bytes: Seq<u8>)
    ensures
        chunks(bytes).flatten() == bytes,
        forall|i: int| 0 <= i < chunks(bytes).len() ==> #[trigger] chunks(bytes)[i].len() > 0,
        forall|i: int, j: int|
            0 <= i < chunks(bytes).len() && 0 <= j < chunks(bytes)[i].len() - 1
                ==> #[trigger] chunks(bytes)[i][j] != NEWLINE,
        forall|i: int|
            0 <= i < chunks(bytes).len() - 1 ==> (#[trigger] chunks(bytes)[i]).last() == NEWLINE,
{
    lines_and_rest(bytes);
    if unfinished(bytes).len() == 0 {
        assert(lines(bytes).flatten() + unfinished(bytes) =~= lines(bytes).flatten());
    } else {
        lines(bytes).lemma_flatten_push(unfinished(bytes));
    }
}

/// The task while a body arrives: it has pushed the lines, and holds what comes after them.
proof fn task_on_body(bytes: Seq<u8>)
    ensures
        task_run(body_events(bytes)) == (TaskRun {
            held: unfinished(bytes),
            pushed: texts(lines(bytes)).map_values(|text: Seq<char>| Some(text)),
            finished: false,
        }),
    decreases bytes.len(),
{
    let run = task_run(body_events(bytes));
    let wrap = |text: Seq<char>| Some(text);
    if bytes.len() == 0 {
        assert(run.pushed =~= texts(lines(bytes)).map_values(wrap));
    } else {
        let shorter = bytes.drop_last();
        task_on_body(shorter);
        assert(body_events(bytes).drop_last() =~= body_events(shorter));
        assert(body_events(bytes).last() == TaskEvent::Next(Some(bytes.last())));
        assert(run.pushed =~= texts(lines(bytes)).map_values(wrap));
    }
}

/// How many times the end of a body has to be read before the task is over: once to find that
/// there is no more, and once before that where a chunk is to be completed.
pub open spec fn end_reads(bytes: Seq<u8>) -> nat {
    if unfinished(bytes).len() == 0 {
        1
    } else {
        2
    }
}

/// The events of a body that arrives and then has ended, read `ends` times.
pub open spec fn whole_body_events(bytes: Seq<u8>, ends: nat) -> Seq<TaskEvent> {
    body_events(bytes) + Seq::new(ends, |i: int| TaskEvent::Next(None))
}

/// The script gets the whole body and then the end: the task pushes the text of each chunk, in
/// order, and then the end, and is over then and not before.
pub proof fn task_delivers_the_body(bytes: Seq<u8>)
    ensures
        ({
            let run = task_run(whole_body_events(bytes, end_reads(bytes)));
            &&& run.finished
            &&& run.pushed == texts(chunks(bytes)).map_values(
                |text: Seq<char>| Some(text),
            ).push(None)
        }),
        forall|ends: nat|
            ends < end_reads(bytes) ==> !(#[trigger] task_run(
                whole_body_events(bytes, ends),
            )).finished,
{
    let wrap = |text: Seq<char>| Some(text);
    let none = whole_body_events(bytes, 0);
    let once = whole_body_events(bytes, 1);
    let twice = whole_body_events(bytes, 2);
    task_on_body(bytes);
    assert(none =~= body_events(bytes));
    assert(once.drop_last() =~= none);
    assert(once.last() == TaskEvent::Next(None));
    assert(twice.drop_last() =~= once);
    assert(twice.last() == TaskEvent::Next(None));
    let pushed = task_run(whole_body_events(bytes, end_reads(bytes))).pushed;
    if unfinished(bytes).len() == 0 {
        assert(pushed =~= texts(chunks(bytes)).map_values(wrap).push(None));
    } else {
        assert(task_run(once).pushed =~= texts(chunks(bytes)).map_values(wrap));
        assert(pushed =~= texts(chunks(bytes)).map_values(wrap).push(None));
    }
    assert forall|ends: nat| ends < end_reads(bytes) implies !(#[trigger] task_run(
        whole_body_events(bytes, ends),
    )).finished by {
        assert(ends == 0 || ends == 1);
    }
}

/// The script gets a body whatever its bytes: where the bytes of a body arrive, one by one, and then
/// its end is read, the task pushes the texts of the chunks, which make up the body, each up to and
/// with its line feed, and then the end. It takes one read of the end where the body is empty or ends
/// in a line feed, and two otherwise.
pub proof fn body_arrives_as_its_lines(bytes: Seq<u8>, events: Seq<TaskEvent>)
    requires
        events.len() == bytes.len() + (if bytes.len() == 0 || bytes.last() == 10 {
            1int
        } else {
            2int
        }),
        forall|i: int|
            0 <= i < events.len() ==> #[trigger] events[i] == TaskEvent::Next(
                if i < bytes.len() {
                    Some(bytes[i])
                } else {
                    None
                },
            ),
    ensures
        ({
            let pushed = task_run(events).pushed;
            let pieces = chunks(bytes);
            &&& task_run(events).finished
            &&& pushed.len() == pieces.len() + 1
            &&& pushed.last() is None
            &&& pieces.flatten() == bytes
            &&& forall|i: int|
                0 <= i < pieces.len() ==> {
                    &&& (#[trigger] pieces[i]).len() > 0
                    &&& i + 1 < pieces.len() ==> pieces[i].last() == 10
                    &&& forall|j: int| 0 <= j < pieces[i].len() - 1 ==> pieces[i][j] != 10
                    &&& pushed[i] is Some
                    &&& text::alike(pushed[i]->Some_0, text::marked_text(pieces[i]))
                    &&& valid_utf8(pieces[i]) ==> pushed[i] == Some(decode_utf8(pieces[i]))
                }
        }),
{
    let pieces = chunks(bytes);
    assert(unfinished(bytes).len() == 0 <==> bytes.len() == 0 || bytes.last() == NEWLINE);
    assert(events =~= whole_body_events(bytes, end_reads(bytes)));
    task_delivers_the_body(bytes);
    chunks_make_up_the_body(bytes);
    let pushed = task_run(events).pushed;
    assert forall|i: int| 0 <= i < pieces.len() implies {
        &&& (#[trigger] pieces[i]).len() > 0
        &&& i + 1 < pieces.len() ==> pieces[i].last() == 10
        &&& forall|j: int| 0 <= j < pieces[i].len() - 1 ==> pieces[i][j] != 10
        &&& pushed[i] is Some
        &&& text::alike(pushed[i]->Some_0, text::marked_text(pieces[i]))
        &&& valid_utf8(pieces[i]) ==> pushed[i] == Some(decode_utf8(pieces[i]))
    } by {
        text::lossy_text_is_like_marked(pieces[i]);
        assert(pushed[i] == Some(text::lossy_text(pieces[i])));
        assert forall|j: int| 0 <= j < pieces[i].len() - 1 implies pieces[i][j] != 10 by {
            assert(chunks(bytes)[i][j] != NEWLINE);
        }
    }
}

/// A request that fails gives the script the end at once.
pub proof fn failed_send_ends_the_stream()
    ensures
        task_run(seq![TaskEvent::SendFailed]) == (TaskRun {
            held: seq![],
            pushed: seq![None],
            finished: true,
        }),
{
    let events = seq![TaskEvent::SendFailed];
    assert(events.drop_last() =~= seq![]);
    assert(task_run(events.drop_last()).pushed =~= seq![]);
    assert(task_run(events).pushed =~= seq![None]);
}

/// The end is pushed once and last: whatever happens, all that the task pushes is text, but for
/// one end, which it pushes exactly when it is over.
pub proof fn task_pushes_one_end(events: Seq<TaskEvent>)
    ensures
        ({
            let run = task_run(events);
            let texts_pushed = if run.finished {
                run.pushed.len() - 1
            } else {
                run.pushed.len() as int
            };
            &&& run.finished ==> run.pushed.len() > 0 && run.pushed.last() is None
            &&& forall|i: int| 0 <= i < texts_pushed ==> #[trigger] run.pushed[i] is Some
        }),
    decreases events.len(),
{
    if events.len() > 0 {
        task_pushes_one_end(events.drop_last());
    }
}

/// The script reads what the task pushes: however the two take turns at the queue, what the script
/// got is a beginning of what the task pushed, and once the script got the end, it is all of it.
pub proof fn script_reads_what_the_task_pushes<W>(events: Seq<TaskEvent>, ops: Seq<ChunkOp<W>>)
    requires
        queue::chunks_added(ops) == task_run(events).pushed,
    ensures
        ({
            let read = ChunkQueueView::<W>::fresh().delivered(ops);
            let pushed = task_run(events).pushed;
            &&& read.len() <= pushed.len()
            &&& read == pushed.take(read.len() as int)
            &&& read.contains(None) ==> read == pushed && task_run(events).finished
        }),
{
    let fresh = ChunkQueueView::<W>::fresh();
    let read = fresh.delivered(ops);
    let left = fresh.after(ops).chunks;
    let pushed = task_run(events).pushed;
    queue::chunk_queue_keeps_order(fresh, ops);
    task_pushes_one_end(events);
    assert(fresh.chunks + queue::chunks_added(ops) =~= pushed);
    assert(read + left == pushed);
    assert(read =~= pushed.take(read.len() as int));
    if read.contains(None) {
        let i = choose|i: int| 0 <= i < read.len() && read[i] is None;
        assert(pushed[i] == read[i]);
        assert(i == pushed.len() - 1);
        assert(read =~= pushed);
    }
}

/// Bytes that are UTF-8 fall into two parts that are UTF-8 after a line feed, and the text falls
/// into the texts of the parts.
proof fn utf8_splits_after_newline(bytes: Seq<u8>, at: int)
    requires
        valid_utf8(bytes),
        0 <= at < bytes.len(),
        bytes[at] == NEWLINE,
    ensures
        valid_utf8(bytes.take(at + 1)),
        valid_utf8(bytes.skip(at + 1)),
        decode_utf8(bytes) == decode_utf8(bytes.take(at + 1)) + decode_utf8(bytes.skip(at + 1)),
{
    let n = bytes.len() as int;
    let line_feed = bytes[at];
    assert(!is_continuation_byte(line_feed) && is_leading_byte_width_1(line_feed))
        by (bit_vector)
        requires
            line_feed == 10u8,
    ;
    is_char_boundary_iff_not_is_continuation_byte(bytes, at);
    valid_utf8_split(bytes, at);
    let suffix = bytes.subrange(at, n);
    assert(suffix[0] == line_feed);
    let rest = pop_first_scalar(suffix);
    assert(rest =~= bytes.skip(at + 1));
    assert(valid_utf8(suffix));
    assert(valid_utf8(rest));
    if at + 1 < n {
        let b = rest[0];
        assert(valid_first_scalar(rest));
        assert(is_leading_byte_width_1(b) || is_leading_byte_width_2(b) || is_leading_byte_width_3(
            b,
        ) || is_leading_byte_width_4(b));
        assert(!is_continuation_byte(b)) by (bit_vector)
            requires
                is_leading_byte_width_1(b) || is_leading_byte_width_2(b)
                    || is_leading_byte_width_3(b) || is_leading_byte_width_4(b),
        ;
        assert(b == bytes[at + 1]);
        is_char_boundary_iff_not_is_continuation_byte(bytes, at + 1);
    } else {
        is_char_boundary_start_end_of_seq(bytes);
    }
    valid_utf8_split(bytes, at + 1);
    decode_utf8_split(bytes, at + 1);
    assert(bytes.take(at + 1) =~= bytes.subrange(0, at + 1));
    assert(bytes.skip(at + 1) =~= bytes.subrange(at + 1, n));
}

/// The same for a number of pieces of which all but the last end in a line feed.
proof fn utf8_pieces(pieces: Seq<Seq<u8>>)
    requires
        valid_utf8(pieces.flatten()),
        forall|i: int| 0 <= i < pieces.len() ==> #[trigger] pieces[i].len() > 0,
        forall|i: int| 0 <= i < pieces.len() - 1 ==> (#[trigger] pieces[i]).last() == NEWLINE,
    ensures
        forall|i: int| 0 <= i < pieces.len() ==> valid_utf8(#[trigger] pieces[i]),
        texts(pieces).flatten() == decode_utf8(pieces.flatten()),
    decreases pieces.len(),
{
    if pieces.len() == 0 {
        assert(texts(pieces).flatten() =~= decode_utf8(pieces.flatten()));
    } else {
        let earlier = pieces.drop_last();
        let last = pieces.last();
        let whole = pieces.flatten();
        assert(pieces =~= earlier.push(last));
        earlier.lemma_flatten_push(last);
        let head = earlier.flatten();
        assert(whole == head + last);
        if earlier.len() == 0 {
            assert(whole =~= last);
            assert(head =~= seq![]);
        } else {
            let before = earlier.drop_last();
            assert(earlier =~= before.push(earlier.last()));
            before.lemma_flatten_push(earlier.last());
            assert(earlier.last() == pieces[pieces.len() - 2]);
            assert(head.len() > 0 && head.last() == NEWLINE);
            assert(whole[head.len() - 1] == NEWLINE);
            utf8_splits_after_newline(whole, head.len() - 1);
            assert(whole.take(head.len() as int) =~= head);
            assert(whole.skip(head.len() as int) =~= last);
        }
        assert forall|i: int| 0 <= i < earlier.len() implies #[trigger] earlier[i].len() > 0 by {
            assert(earlier[i] == pieces[i]);
        }
        assert forall|i: int| 0 <= i < earlier.len() - 1 implies (
        #[trigger] earlier[i]).last() == NEWLINE by {
            assert(earlier[i] == pieces[i]);
        }
        utf8_pieces(earlier);
        assert forall|i: int| 0 <= i < pieces.len() implies valid_utf8(#[trigger] pieces[i]) by {
            if i < earlier.len() {
                assert(pieces[i] == earlier[i]);
            }
        }
        assert(texts(pieces) =~= texts(earlier).push(text::lossy_text(last)));
        texts(earlier).lemma_flatten_push(text::lossy_text(last));
        assert(texts(pieces).flatten() =~= decode_utf8(whole));
    }
}

/// Cutting a body into chunks never breaks a character: where the body is UTF-8, so is every
/// chunk, and the texts of the chunks, one after the other, are the text of the body.
pub proof fn chunks_keep_the_text(bytes: Seq<u8>)
    requires
        valid_utf8(bytes),
    ensures
        forall|i: int| 0 <= i < chunks(bytes).len() ==> valid_utf8(#[trigger] chunks(bytes)[i]),
        texts(chunks(bytes)).flatten() == decode_utf8(bytes),
{
    chunks_make_up_the_body(bytes);
    utf8_pieces(chunks(bytes));
}

/// What the script reads is lines: whatever the body, the text of a chunk is not empty, holds a line
/// feed only at its end, and every one but the last ends in one.
pub proof fn chunk_texts_are_lines(bytes: Seq<u8>)
    ensures
        texts(chunks(bytes)).len() == chunks(bytes).len(),
        forall|i: int|
            0 <= i < chunks(bytes).len() ==> (#[trigger] texts(chunks(bytes))[i]).len() > 0,
        forall|i: int, j: int|
            0 <= i < chunks(bytes).len() && 0 <= j < texts(chunks(bytes))[i].len() - 1
                ==> #[trigger] texts(chunks(bytes))[i][j] != '\n',
        forall|i: int|
            0 <= i < chunks(bytes).len() - 1 ==> (#[trigger] texts(chunks(bytes))[i]).last()
                == '\n',
{
    let pieces = chunks(bytes);
    let read = texts(pieces);
    chunks_make_up_the_body(bytes);
    assert forall|i: int| 0 <= i < pieces.len() implies {
        &&& (#[trigger] read[i]).len() > 0
        &&& forall|j: int| 0 <= j < read[i].len() - 1 ==> #[trigger] read[i][j] != '\n'
        &&& read[i].last() == '\n' <==> pieces[i].last() == NEWLINE
    } by {
        let chunk = pieces[i];
        assert forall|j: int| 0 <= j < chunk.len() - 1 implies #[trigger] chunk[j] != NEWLINE by {
            assert(chunks(bytes)[i][j] != NEWLINE);
        }
        text::lossy_text_is_like_marked(chunk);
        text::text_of_a_line(chunk, text::lossy_text(chunk));
        assert(read[i] == text::lossy_text(chunk));
    }
}

/// The texts of lines, and of what may follow them, are like the marked text of the whole.
proof fn texts_are_like_marked(pieces: Seq<Seq<u8>>)
    requires
        forall|i: int| 0 <= i < pieces.len() ==> #[trigger] pieces[i].len() > 0,
        forall|i: int| 0 <= i < pieces.len() - 1 ==> (#[trigger] pieces[i]).last() == NEWLINE,
    ensures
        text::alike(texts(pieces).flatten(), text::marked_text(pieces.flatten())),
    decreases pieces.len(),
{
    if pieces.len() == 0 {
        assert(texts(pieces).flatten() =~= text::marked_text(pieces.flatten()));
    } else {
        let earlier = pieces.drop_last();
        let last = pieces.last();
        let head = earlier.flatten();
        let read = texts(earlier).flatten();
        assert(pieces =~= earlier.push(last));
        earlier.lemma_flatten_push(last);
        assert forall|i: int| 0 <= i < earlier.len() implies #[trigger] earlier[i].len() > 0 by {
            assert(earlier[i] == pieces[i]);
        }
        assert forall|i: int| 0 <= i < earlier.len() - 1 implies (
        #[trigger] earlier[i]).last() == NEWLINE by {
            assert(earlier[i] == pieces[i]);
        }
        texts_are_like_marked(earlier);
        text::lossy_text_is_like_marked(last);
        text::alike_joins(
            read,
            text::lossy_text(last),
            text::marked_text(head),
            text::marked_text(last),
        );
        assert(texts(pieces) =~= texts(earlier).push(text::lossy_text(last)));
        texts(earlier).lemma_flatten_push(text::lossy_text(last));
        if earlier.len() == 0 {
            assert(head =~= seq![]);
            assert(head + last =~= last);
            assert(text::marked_text(head) + text::marked_text(last) =~= text::marked_text(last));
        } else {
            let before = earlier.drop_last();
            assert(earlier =~= before.push(earlier.last()));
            before.lemma_flatten_push(earlier.last());
            assert(earlier.last() == pieces[pieces.len() - 2]);
            assert(head.len() > 0 && head.last() == NEWLINE);
            text::marked_text_splits_after_newline(head, last);
        }
    }
}

/// Cutting a body into chunks changes nothing of its text, whatever the body: the texts of the
/// chunks, one after the other, are the text of the body, but for how many U+FFFD stand in a row
/// where the body is malformed.
pub proof fn chunk_texts_make_up_the_text(bytes: Seq<u8>)
    ensures
        text::alike(texts(chunks(bytes)).flatten(), text::lossy_text(bytes)),
{
    chunks_make_up_the_body(bytes);
    texts_are_like_marked(chunks(bytes));
    text::lossy_text_is_like_marked(bytes);
}

} // verus!
