//! The two queues between tasks: response chunks on their way to the script, and patches on their
//! way to the subscriber.
//!
//! A queue holds at most one waker, that of the last reader it had nothing for. It hands the waker
//! back as soon as there is something to read, and the caller wakes it. To the queue a waker is a
//! value of any type `W`, which it stores and returns.

use std::collections::VecDeque;
use vstd::prelude::*;

verus! {

/// What a reader gets from a queue.
#[derive(Debug)]
pub enum Next {
    /// There is an answer: an item, or the end.
    Ready(Option<String>),
    /// There is nothing yet; the reader's waker is kept.
    Pending,
}

/// What a reader gets, in terms of characters.
pub enum NextView {
    Ready(Option<Seq<char>>),
    Pending,
}

impl View for Next {
    type V = NextView;

    open spec fn view(&self) -> NextView {
        match self {
            Next::Ready(item) => NextView::Ready(text_view(*item)),
            Next::Pending => NextView::Pending,
        }
    }
}

/// The characters of a string that may be missing.
pub open spec fn text_view(text: Option<String>) -> Option<Seq<char>> {
    match text {
        Some(text) => Some(text@),
        None => None,
    }
}

/// What a reader gets is the same in terms of characters: an item with its text, empty or not, the
/// end, or to wait.
pub proof fn next_view_is_of_the_next(next: Next, text: String)
    ensures
        text_view(Some(text)) == Some(text@),
        text_view(None) is None,
        match next {
            Next::Ready(Some(item)) => next@ == NextView::Ready(Some(item@)),
            Next::Ready(None) => next@ == NextView::Ready(None),
            Next::Pending => next@ is Pending,
        },
{
}

/// The state of a chunk queue: the chunks to be read, first one first (`None` is the end of the
/// stream), and the waker of a reader that waits.
#[verifier::ext_equal]
pub struct ChunkQueueView<W> {
    pub chunks: Seq<Option<Seq<char>>>,
    pub waker: Option<W>,
}

impl<W> ChunkQueueView<W> {
    /// Nobody waits while there is something to read.
    pub open spec fn wf(self) -> bool {
        self.waker is Some ==> self.chunks.len() == 0
    }

    /// A queue that was never used.
    pub open spec fn fresh() -> Self {
        ChunkQueueView { chunks: seq![], waker: None }
    }

    /// With a chunk added at the end; nobody waits any longer.
    pub open spec fn pushed(self, chunk: Option<Seq<char>>) -> Self {
        ChunkQueueView { chunks: self.chunks.push(chunk), waker: None }
    }

    /// After a reader with this waker has asked.
    pub open spec fn polled(self, waker: W) -> Self {
        if self.chunks.len() > 0 {
            ChunkQueueView { chunks: self.chunks.drop_first(), waker: self.waker }
        } else {
            ChunkQueueView { chunks: self.chunks, waker: Some(waker) }
        }
    }

    /// What a reader is told.
    pub open spec fn answer(self) -> NextView {
        if self.chunks.len() > 0 {
            NextView::Ready(self.chunks.first())
        } else {
            NextView::Pending
        }
    }
}

/// The chunks of one HTTP response, filled by the task that receives it and read by the script.
pub struct ChunkQueue<W> {
    chunks: VecDeque<Option<String>>,
    waker: Option<W>,
}

impl<W> View for ChunkQueue<W> {
    type V = ChunkQueueView<W>;

    closed spec fn view(&self) -> ChunkQueueView<W> {
        ChunkQueueView {
            chunks: self.chunks@.map_values(|chunk: Option<String>| text_view(chunk)),
            waker: self.waker,
        }
    }
}

impl<W> ChunkQueue<W> {
    /// An empty queue that nobody waits for.
    pub fn new() -> (queue: Self)
        ensures
            queue@ == ChunkQueueView::<W>::fresh(),
            queue@.wf(),
            queue@.chunks.len() == 0,
            queue@.waker is None,
    {
        let queue = ChunkQueue { chunks: VecDeque::new(), waker: None };
        assert(queue@.chunks =~= seq![]);
        queue
    }

    /// Adds a chunk, or `None` for the end of the stream. The waker that comes back, if any, is
    /// that of the reader that waited, and is to be woken.
    #[must_use]
    pub fn push(&mut self, chunk: Option<String>) -> (wake: Option<W>)
        ensures
            final(self)@ == old(self)@.pushed(text_view(chunk)),
            wake == old(self)@.waker,
            final(self)@.wf(),
            final(self)@.waker is None,
            final(self)@.chunks == old(self)@.chunks.push(
                match chunk {
                    Some(text) => Some(text@),
                    None => None,
                },
            ),
    {
        self.chunks.push_back(chunk);
        assert(self@.chunks =~= old(self)@.chunks.push(text_view(chunk)));
        self.waker.take()
    }

    /// Takes the first chunk, or keeps the waker of the reader where there is none.
    pub fn poll_next(&mut self, waker: W) -> (next: Next)
        ensures
            final(self)@ == old(self)@.polled(waker),
            next@ == old(self)@.answer(),
            old(self)@.wf() ==> final(self)@.wf(),
            next is Pending <==> old(self)@.chunks.len() == 0,
            next is Pending ==> final(self)@.waker == Some(waker) && final(self)@.chunks
                == old(self)@.chunks,
            next matches Next::Ready(item) ==> {
                &&& final(self)@.chunks == old(self)@.chunks.drop_first()
                &&& final(self)@.waker == old(self)@.waker
                &&& item is Some <==> old(self)@.chunks[0] is Some
                &&& item is Some ==> old(self)@.chunks[0] == Some(item->Some_0@)
            },
    {
        match self.chunks.pop_front() {
            Some(chunk) => {
                assert(self@.chunks =~= old(self)@.chunks.drop_first());
                Next::Ready(chunk)
            },
            None => {
                self.waker = Some(waker);
                assert(self@.chunks =~= old(self)@.chunks);
                Next::Pending
            },
        }
    }
}

/// One use of a chunk queue.
pub enum ChunkOp<W> {
    Push(Option<Seq<char>>),
    Poll(W),
}

impl<W> ChunkQueueView<W> {
    /// The state after these uses, in this order.
    pub open spec fn after(self, ops: Seq<ChunkOp<W>>) -> Self
        decreases ops.len(),
    {
        if ops.len() == 0 {
            self
        } else {
            let before = self.after(ops.drop_last());
            match ops.last() {
                ChunkOp::Push(chunk) => before.pushed(chunk),
                ChunkOp::Poll(waker) => before.polled(waker),
            }
        }
    }

    /// The chunks that the readers among these uses got, in order.
    pub open spec fn delivered(self, ops: Seq<ChunkOp<W>>) -> Seq<Option<Seq<char>>>
        decreases ops.len(),
    {
        if ops.len() == 0 {
            seq![]
        } else {
            let earlier = self.delivered(ops.drop_last());
            match ops.last() {
                ChunkOp::Push(_) => earlier,
                ChunkOp::Poll(_) => match self.after(ops.drop_last()).answer() {
                    NextView::Ready(chunk) => earlier.push(chunk),
                    NextView::Pending => earlier,
                },
            }
        }
    }
}

/// The chunks that these uses add, in order.
pub open spec fn chunks_added<W>(ops: Seq<ChunkOp<W>>) -> Seq<Option<Seq<char>>>
    decreases ops.len(),
{
    if ops.len() == 0 {
        seq![]
    } else {
        match ops.last() {
            ChunkOp::Push(chunk) => chunks_added(ops.drop_last()).push(chunk),
            ChunkOp::Poll(_) => chunks_added(ops.drop_last()),
        }
    }
}

/// Chunks come out in the order in which they went in, each once and none lost: however pushes and
/// polls alternate, what was read and what is still there is what was there and what was added.
pub proof fn chunk_queue_keeps_order<W>(queue: ChunkQueueView<W>, ops: Seq<ChunkOp<W>>)
    ensures
        queue.delivered(ops) + queue.after(ops).chunks == queue.chunks + chunks_added(ops),
    decreases ops.len(),
{
    if ops.len() > 0 {
        chunk_queue_keeps_order(queue, ops.drop_last());
        let before = queue.after(ops.drop_last());
        let earlier = queue.delivered(ops.drop_last());
        match ops.last() {
            ChunkOp::Push(chunk) => {
                assert(earlier + before.chunks.push(chunk) =~= (earlier + before.chunks).push(
                    chunk,
                ));
            },
            ChunkOp::Poll(_) => {
                if before.chunks.len() > 0 {
                    assert(earlier.push(before.chunks.first()) + before.chunks.drop_first()
                        =~= earlier + before.chunks);
                }
            },
        }
        assert(queue.delivered(ops) + queue.after(ops).chunks =~= queue.chunks + chunks_added(ops));
    } else {
        assert(queue.delivered(ops) + queue.after(ops).chunks =~= queue.chunks + chunks_added(ops));
    }
}

/// However a fresh chunk queue is used, nobody is left waiting while there is something to read.
pub proof fn chunk_queue_stays_wf<W>(ops: Seq<ChunkOp<W>>)
    ensures
        ChunkQueueView::<W>::fresh().after(ops).wf(),
    decreases ops.len(),
{
    if ops.len() > 0 {
        chunk_queue_stays_wf(ops.drop_last());
    }
}

/// No wake-up is lost: the waker of a reader that was told to wait is the one that the next push
/// hands back, the reader then gets what was pushed, and no later push wakes it again.
pub proof fn waiting_chunk_reader_is_woken<W>(
    queue: ChunkQueueView<W>,
    waker: W,
    chunk: Option<Seq<char>>,
)
    requires
        queue.answer() is Pending,
    ensures
        queue.polled(waker).waker == Some(waker),
        queue.polled(waker).pushed(chunk).answer() == NextView::Ready(chunk),
        queue.polled(waker).pushed(chunk).waker is None,
{
}

/// A reader of chunks is told to wait exactly where every chunk that was added has been read.
pub proof fn chunk_reader_waits_when_all_is_read<W>(ops: Seq<ChunkOp<W>>)
    ensures
        ChunkQueueView::<W>::fresh().after(ops).answer() is Pending
            <==> ChunkQueueView::<W>::fresh().delivered(ops) == chunks_added(ops),
{
    let fresh = ChunkQueueView::<W>::fresh();
    chunk_queue_keeps_order(fresh, ops);
    assert(fresh.chunks + chunks_added(ops) =~= chunks_added(ops));
    let rest = fresh.after(ops).chunks;
    if rest.len() == 0 {
        assert(fresh.delivered(ops) + rest =~= fresh.delivered(ops));
    } else {
        assert((fresh.delivered(ops) + rest).len() == fresh.delivered(ops).len() + rest.len());
    }
}

/// The state of a patch queue: the patches to be read, first one first, the waker of a reader that
/// waits, and whether the producer is done.
#[verifier::ext_equal]
pub struct PatchQueueView<W> {
    pub patches: Seq<Seq<char>>,
    pub waker: Option<W>,
    pub done: bool,
}

impl<W> PatchQueueView<W> {
    /// Nobody waits while there is something to read or nothing more to come.
    pub open spec fn wf(self) -> bool {
        self.waker is Some ==> self.patches.len() == 0 && !self.done
    }

    /// A queue that was never used.
    pub open spec fn fresh() -> Self {
        PatchQueueView { patches: seq![], waker: None, done: false }
    }

    /// With a patch added at the end; nobody waits any longer.
    pub open spec fn pushed(self, patch: Seq<char>) -> Self {
        PatchQueueView { patches: self.patches.push(patch), waker: None, done: self.done }
    }

    /// With the producer done; nobody waits any longer.
    pub open spec fn finished(self) -> Self {
        PatchQueueView { patches: self.patches, waker: None, done: true }
    }

    /// After a reader with this waker has asked.
    pub open spec fn polled(self, waker: W) -> Self {
        if self.patches.len() > 0 {
            PatchQueueView { patches: self.patches.drop_first(), ..self }
        } else if self.done {
            self
        } else {
            PatchQueueView { waker: Some(waker), ..self }
        }
    }

    /// What a reader is told: the first patch, or the end where the producer is done and no patch
    /// is left, or to wait.
    pub open spec fn answer(self) -> NextView {
        if self.patches.len() > 0 {
            NextView::Ready(Some(self.patches.first()))
        } else if self.done {
            NextView::Ready(None)
        } else {
            NextView::Pending
        }
    }
}

/// The patches of one page, filled by the script and read by the task that writes the stream.
pub struct PatchQueue<W> {
    queue: VecDeque<String>,
    waker: Option<W>,
    done: bool,
}

impl<W> View for PatchQueue<W> {
    type V = PatchQueueView<W>;

    closed spec fn view(&self) -> PatchQueueView<W> {
        PatchQueueView {
            patches: self.queue@.map_values(|patch: String| patch@),
            waker: self.waker,
            done: self.done,
        }
    }
}

impl<W> PatchQueue<W> {
    /// An empty queue that nobody waits for and that more may come to.
    pub fn new() -> (queue: Self)
        ensures
            queue@ == PatchQueueView::<W>::fresh(),
            queue@.wf(),
            queue@.patches.len() == 0,
            queue@.waker is None,
            !queue@.done,
    {
        let queue = PatchQueue { queue: VecDeque::new(), waker: None, done: false };
        assert(queue@.patches =~= seq![]);
        queue
    }

    /// Adds a patch. The waker that comes back, if any, is that of the reader that waited, and is
    /// to be woken.
    #[must_use]
    pub fn push(&mut self, s: String) -> (wake: Option<W>)
        ensures
            final(self)@ == old(self)@.pushed(s@),
            wake == old(self)@.waker,
            final(self)@.wf(),
            final(self)@.waker is None,
            final(self)@.patches == old(self)@.patches.push(s@),
            final(self)@.done == old(self)@.done,
    {
        self.queue.push_back(s);
        assert(self@.patches =~= old(self)@.patches.push(s@));
        self.waker.take()
    }

    /// Says that no more patches come. The waker that comes back, if any, is that of the reader
    /// that waited, and is to be woken.
    #[must_use]
    pub fn finish(&mut self) -> (wake: Option<W>)
        ensures
            final(self)@ == old(self)@.finished(),
            wake == old(self)@.waker,
            final(self)@.wf(),
            final(self)@.waker is None,
            final(self)@.patches == old(self)@.patches,
            final(self)@.done,
    {
        self.done = true;
        self.waker.take()
    }

    /// Takes the first patch, or says that this is the end, or keeps the waker of the reader.
    pub fn poll_next(&mut self, waker: W) -> (next: Next)
        ensures
            final(self)@ == old(self)@.polled(waker),
            next@ == old(self)@.answer(),
            old(self)@.wf() ==> final(self)@.wf(),
            final(self)@.done == old(self)@.done,
            next is Pending <==> old(self)@.patches.len() == 0 && !old(self)@.done,
            next is Pending ==> final(self)@.waker == Some(waker) && final(self)@.patches
                == old(self)@.patches,
            next matches Next::Ready(item) ==> {
                &&& final(self)@.waker == old(self)@.waker
                &&& item is Some <==> old(self)@.patches.len() > 0
                &&& item is Some ==> item->Some_0@ == old(self)@.patches[0]
                    && final(self)@.patches == old(self)@.patches.drop_first()
                &&& item is None ==> final(self)@.patches == old(self)@.patches
            },
    {
        match self.queue.pop_front() {
            Some(s) => {
                assert(self@.patches =~= old(self)@.patches.drop_first());
                Next::Ready(Some(s))
            },
            None => {
                assert(self@.patches =~= old(self)@.patches);
                if self.done {
                    Next::Ready(None)
                } else {
                    self.waker = Some(waker);
                    Next::Pending
                }
            },
        }
    }
}

/// One use of a patch queue.
pub enum PatchOp<W> {
    Push(Seq<char>),
    Finish,
    Poll(W),
}

impl<W> PatchQueueView<W> {
    /// The state after these uses, in this order.
    pub open spec fn after(self, ops: Seq<PatchOp<W>>) -> Self
        decreases ops.len(),
    {
        if ops.len() == 0 {
            self
        } else {
            let before = self.after(ops.drop_last());
            match ops.last() {
                PatchOp::Push(patch) => before.pushed(patch),
                PatchOp::Finish => before.finished(),
                PatchOp::Poll(waker) => before.polled(waker),
            }
        }
    }

    /// The patches that the readers among these uses got, in order.
    pub open spec fn delivered(self, ops: Seq<PatchOp<W>>) -> Seq<Seq<char>>
        decreases ops.len(),
    {
        if ops.len() == 0 {
            seq![]
        } else {
            let earlier = self.delivered(ops.drop_last());
            match ops.last() {
                PatchOp::Poll(_) => match self.after(ops.drop_last()).answer() {
                    NextView::Ready(Some(patch)) => earlier.push(patch),
                    _ => earlier,
                },
                _ => earlier,
            }
        }
    }
}

/// The patches that these uses add, in order.
pub open spec fn patches_added<W>(ops: Seq<PatchOp<W>>) -> Seq<Seq<char>>
    decreases ops.len(),
{
    if ops.len() == 0 {
        seq![]
    } else {
        match ops.last() {
            PatchOp::Push(patch) => patches_added(ops.drop_last()).push(patch),
            _ => patches_added(ops.drop_last()),
        }
    }
}

/// Patches come out in the order in which they went in, each once and none lost, however pushes,
/// polls and the end alternate.
pub proof fn patch_queue_keeps_order<W>(queue: PatchQueueView<W>, ops: Seq<PatchOp<W>>)
    ensures
        queue.delivered(ops) + queue.after(ops).patches == queue.patches + patches_added(ops),
    decreases ops.len(),
{
    if ops.len() > 0 {
        patch_queue_keeps_order(queue, ops.drop_last());
        let before = queue.after(ops.drop_last());
        let earlier = queue.delivered(ops.drop_last());
        match ops.last() {
            PatchOp::Push(patch) => {
                assert(earlier + before.patches.push(patch) =~= (earlier + before.patches).push(
                    patch,
                ));
            },
            PatchOp::Finish => {},
            PatchOp::Poll(_) => {
                if before.patches.len() > 0 {
                    assert(earlier.push(before.patches.first()) + before.patches.drop_first()
                        =~= earlier + before.patches);
                }
            },
        }
    }
    assert(queue.delivered(ops) + queue.after(ops).patches =~= queue.patches + patches_added(ops));
}

/// However a fresh patch queue is used, nobody is left waiting while there is something to read or
/// nothing more to come.
pub proof fn patch_queue_stays_wf<W>(ops: Seq<PatchOp<W>>)
    ensures
        PatchQueueView::<W>::fresh().after(ops).wf(),
    decreases ops.len(),
{
    if ops.len() > 0 {
        patch_queue_stays_wf(ops.drop_last());
    }
}

/// No wake-up is lost: the waker of a reader that was told to wait is the one that the next push
/// or the end hands back, the reader then gets the patch or the end, and is not woken again.
pub proof fn waiting_patch_reader_is_woken<W>(
    queue: PatchQueueView<W>,
    waker: W,
    patch: Seq<char>,
)
    requires
        queue.answer() is Pending,
    ensures
        queue.polled(waker).waker == Some(waker),
        queue.polled(waker).pushed(patch).answer() == NextView::Ready(Some(patch)),
        queue.polled(waker).pushed(patch).waker is None,
        queue.polled(waker).finished().answer() == NextView::Ready(None),
        queue.polled(waker).finished().waker is None,
{
}

/// The end comes last: a reader is told the end exactly where the producer is done and every patch
/// that was added has been read, and to wait exactly where the producer is not done and every patch
/// that was added has been read.
pub proof fn patch_queue_ends_after_last_patch<W>(ops: Seq<PatchOp<W>>)
    ensures
        PatchQueueView::<W>::fresh().after(ops).answer() == NextView::Ready(None) <==> {
            &&& ops.contains(PatchOp::Finish)
            &&& PatchQueueView::<W>::fresh().delivered(ops) == patches_added(ops)
        },
        PatchQueueView::<W>::fresh().after(ops).answer() is Pending <==> {
            &&& !ops.contains(PatchOp::Finish)
            &&& PatchQueueView::<W>::fresh().delivered(ops) == patches_added(ops)
        },
{
    let fresh = PatchQueueView::<W>::fresh();
    patch_queue_keeps_order(fresh, ops);
    patch_queue_done_iff_finished::<W>(ops);
    assert(fresh.patches + patches_added(ops) =~= patches_added(ops));
    let rest = fresh.after(ops).patches;
    if rest.len() == 0 {
        assert(fresh.delivered(ops) + rest =~= fresh.delivered(ops));
    } else {
        assert((fresh.delivered(ops) + rest).len() == fresh.delivered(ops).len() + rest.len());
    }
}

/// A queue that was fresh is done exactly where it was told so.
proof fn patch_queue_done_iff_finished<W>(ops: Seq<PatchOp<W>>)
    ensures
        PatchQueueView::<W>::fresh().after(ops).done <==> ops.contains(PatchOp::Finish),
    decreases ops.len(),
{
    if ops.len() > 0 {
        let earlier = ops.drop_last();
        patch_queue_done_iff_finished(earlier);
        if earlier.contains(PatchOp::Finish) {
            let i = choose|i: int| 0 <= i < earlier.len() && earlier[i] == PatchOp::<W>::Finish;
            assert(ops[i] == PatchOp::<W>::Finish);
        }
        if ops.contains(PatchOp::Finish) && !(ops.last() is Finish) {
            let i = choose|i: int| 0 <= i < ops.len() && ops[i] == PatchOp::<W>::Finish;
            assert(earlier[i] == PatchOp::<W>::Finish);
        }
        if ops.last() is Finish {
            assert(ops[ops.len() - 1] == PatchOp::<W>::Finish);
        }
    }
}

/// The end stays the end: once a reader was told it, every later reader is told it too, until a
/// patch is added.
pub proof fn patch_queue_end_is_final<W>(queue: PatchQueueView<W>, ops: Seq<PatchOp<W>>)
    requires
        queue.answer() == NextView::Ready(None),
        forall|i: int| 0 <= i < ops.len() ==> !(#[trigger] ops[i] is Push),
    ensures
        queue.after(ops).answer() == NextView::Ready(None),
    decreases ops.len(),
{
    if ops.len() > 0 {
        assert forall|i: int| 0 <= i < ops.drop_last().len() implies !(
        #[trigger] ops.drop_last()[i] is Push) by {
            assert(ops.drop_last()[i] == ops[i]);
        }
        patch_queue_end_is_final(queue, ops.drop_last());
        assert(!(ops[ops.len() - 1] is Push));
    }
}

} // verus!
