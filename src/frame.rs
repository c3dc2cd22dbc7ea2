use vstd::prelude::*;

verus! {

/// The two buffers of the frame assembler: the unterminated part of the
/// current line, and the lines of the event being assembled, joined with
/// newlines.
pub struct FrameState {
    pub line: Seq<u8>,
    pub event: Seq<u8>,
}

pub open spec fn empty_state() -> FrameState {
    FrameState { line: Seq::empty(), event: Seq::empty() }
}

pub open spec fn without_final_cr(l: Seq<u8>) -> Seq<u8> {
    if l.len() > 0 && l.last() == 13 {
        l.drop_last()
    } else {
        l
    }
}

/// `l` without all of its trailing carriage returns.
pub open spec fn without_trailing_cr(l: Seq<u8>) -> Seq<u8>
    decreases l.len(),
{
    if l.len() > 0 && l.last() == 13 {
        without_trailing_cr(l.drop_last())
    } else {
        l
    }
}

/// The event buffer with one more line.
pub open spec fn with_line(event: Seq<u8>, line: Seq<u8>) -> Seq<u8> {
    if event.len() == 0 {
        line
    } else {
        event + seq![10u8] + line
    }
}

/// One byte of input: a newline ends the current line; a blank line ends
/// the current event, which is handed out where it is not empty.
pub open spec fn step(s: FrameState, b: u8) -> (FrameState, Option<Seq<u8>>) {
    if b == 10 {
        let l = without_final_cr(s.line);
        if l.len() == 0 {
            if s.event.len() == 0 {
                (empty_state(), None)
            } else {
                (empty_state(), Some(s.event))
            }
        } else {
            (FrameState { line: Seq::empty(), event: with_line(s.event, l) }, None)
        }
    } else {
        (FrameState { line: s.line.push(b), event: s.event }, None)
    }
}

/// The state after `bytes`, and the events completed on the way, in order.
pub open spec fn feed(s: FrameState, bytes: Seq<u8>) -> (FrameState, Seq<Seq<u8>>)
    decreases bytes.len(),
{
    if bytes.len() == 0 {
        (s, Seq::empty())
    } else {
        let (s1, out) = feed(s, bytes.drop_last());
        let (s2, e) = step(s1, bytes.last());
        (
            s2,
            match e {
                Some(x) => out.push(x),
                None => out,
            },
        )
    }
}

/// What is left at the end of the input: the unterminated line joins the
/// event, which is handed out where it is not empty.
pub open spec fn flush(s: FrameState) -> Seq<Seq<u8>> {
    let t = without_trailing_cr(s.line);
    let ev = if t.len() == 0 {
        s.event
    } else {
        with_line(s.event, t)
    };
    if ev.len() == 0 {
        Seq::empty()
    } else {
        seq![ev]
    }
}

/// The events of a whole body read at once.
pub open spec fn body_events(body: Seq<u8>) -> Seq<Seq<u8>> {
    let (s, out) = feed(empty_state(), body);
    out + flush(s)
}

/// The state and events after feeding `chunks` one after the other.
pub open spec fn feed_chunks(s: FrameState, chunks: Seq<Seq<u8>>) -> (FrameState, Seq<Seq<u8>>)
    decreases chunks.len(),
{
    if chunks.len() == 0 {
        (s, Seq::empty())
    } else {
        let (s1, out1) = feed_chunks(s, chunks.drop_last());
        let (s2, out2) = feed(s1, chunks.last());
        (s2, out1 + out2)
    }
}

/// The events of a body that arrives in `chunks`.
pub open spec fn chunked_events(chunks: Seq<Seq<u8>>) -> Seq<Seq<u8>> {
    let (s, out) = feed_chunks(empty_state(), chunks);
    out + flush(s)
}

/// All chunks one after the other.
pub open spec fn concat(chunks: Seq<Seq<u8>>) -> Seq<u8>
    decreases chunks.len(),
{
    if chunks.len() == 0 {
        Seq::empty()
    } else {
        concat(chunks.drop_last()) + chunks.last()
    }
}

/// Feeding `a` and then `b` is feeding `a + b`.
pub proof fn lemma_feed_append(s: FrameState, a: Seq<u8>, b: Seq<u8>)
    ensures
        feed(s, a + b) == ({
            let (s1, o1) = feed(s, a);
            let (s2, o2) = feed(s1, b);
            (s2, o1 + o2)
        }),
    decreases b.len(),
{
    if b.len() == 0 {
        assert(a + b =~= a);
        let (s1, o1) = feed(s, a);
        assert(o1 + Seq::<Seq<u8>>::empty() =~= o1);
    } else {
        let ab = a + b;
        assert(ab.drop_last() =~= a + b.drop_last());
        assert(ab.last() == b.last());
        lemma_feed_append(s, a, b.drop_last());
        let (s1, o1) = feed(s, a);
        let (t1, p1) = feed(s1, b.drop_last());
        let (t2, e) = step(t1, b.last());
        match e {
            Some(x) => {
                assert((o1 + p1).push(x) =~= o1 + p1.push(x));
            },
            None => {},
        }
    }
}

/// However a body is split into chunks, the assembler hands out the same
/// events, in the same order, as for the whole body read at once.
pub proof fn lemma_chunking_independent(chunks: Seq<Seq<u8>>)
    ensures
        chunked_events(chunks) == body_events(concat(chunks)),
{
    lemma_feed_chunks_concat(chunks);
}

proof fn lemma_feed_chunks_concat(chunks: Seq<Seq<u8>>)
    ensures
        feed_chunks(empty_state(), chunks) == feed(empty_state(), concat(chunks)),
    decreases chunks.len(),
{
    if chunks.len() > 0 {
        lemma_feed_chunks_concat(chunks.drop_last());
        lemma_feed_append(empty_state(), concat(chunks.drop_last()), chunks.last());
    }
}

/// Reassembles server-sent events from the bytes of a response body,
/// however the body is split into chunks.
pub struct SseFramer {
    line: Vec<u8>,
    event: Vec<u8>,
}

impl View for SseFramer {
    type V = FrameState;

    closed spec fn view(&self) -> FrameState {
        FrameState { line: self.line@, event: self.event@ }
    }
}

pub open spec fn bytes_view(v: Seq<Vec<u8>>) -> Seq<Seq<u8>> {
    v.map_values(|x: Vec<u8>| x@)
}

impl SseFramer {
    pub fn new() -> (r: SseFramer)
        ensures
            r@ == empty_state(),
    {
        SseFramer { line: Vec::new(), event: Vec::new() }
    }

    fn take_byte(&mut self, b: u8) -> (r: Option<Vec<u8>>)
        ensures
            ({
                let (s, e) = step(old(self)@, b);
                &&& final(self)@ == s
                &&& match r {
                    Some(x) => e == Some(x@),
                    None => e is None,
                }
            }),
    {
        if b != 10 {
            self.line.push(b);
            return None;
        }
        let n = self.line.len();
        if n > 0 && self.line[n - 1] == 13 {
            self.line.pop();
        }
        proof {
            assert(self.line@ =~= without_final_cr(old(self)@.line));
        }
        if self.line.len() == 0 {
            proof {
                assert(self.line@ =~= Seq::<u8>::empty());
            }
            if self.event.len() == 0 {
                proof {
                    assert(self.event@ =~= Seq::<u8>::empty());
                }
                return None;
            }
            let mut ev: Vec<u8> = Vec::new();
            std::mem::swap(&mut self.event, &mut ev);
            proof {
                assert(self.event@ =~= Seq::<u8>::empty());
            }
            return Some(ev);
        }
        if self.event.len() > 0 {
            self.event.push(10);
        }
        self.event.append(&mut self.line);
        proof {
            assert(self.line@ =~= Seq::<u8>::empty());
            assert(self.event@ =~= with_line(old(self)@.event, without_final_cr(old(self)@.line)));
        }
        None
    }

    /// Feeds one chunk of the body and hands out the events that it
    /// completes, in order.
    pub fn push_chunk(&mut self, chunk: &[u8]) -> (events: Vec<Vec<u8>>)
        ensures
            feed(old(self)@, chunk@) == (final(self)@, bytes_view(events@)),
    {
        let mut events: Vec<Vec<u8>> = Vec::new();
        let mut i: usize = 0;
        proof {
            assert(chunk@.subrange(0, 0).len() == 0);
            assert(bytes_view(events@) =~= Seq::<Seq<u8>>::empty());
        }
        while i < chunk.len()
            invariant
                i <= chunk@.len(),
                feed(old(self)@, chunk@.subrange(0, i as int)) == (self@, bytes_view(events@)),
            decreases chunk@.len() - i,
        {
            proof {
                assert(chunk@.subrange(0, i + 1).drop_last() =~= chunk@.subrange(0, i as int));
            }
            match self.take_byte(chunk[i]) {
                Some(ev) => {
                    let ghost before = events@;
                    events.push(ev);
                    proof {
                        assert(bytes_view(events@) =~= bytes_view(before).push(ev@));
                    }
                },
                None => {},
            }
            i = i + 1;
        }
        proof {
            assert(chunk@.subrange(0, chunk@.len() as int) =~= chunk@);
        }
        events
    }

    /// Ends the body: the unterminated line and event are handed out where
    /// anything is left of them, and both buffers are emptied.
    pub fn finish(&mut self) -> (r: Option<Vec<u8>>)
        ensures
            final(self)@ == empty_state(),
            match r {
                Some(x) => flush(old(self)@) == seq![x@],
                None => flush(old(self)@).len() == 0,
            },
    {
        while self.line.len() > 0 && self.line[self.line.len() - 1] == 13
            invariant
                without_trailing_cr(self.line@) == without_trailing_cr(old(self)@.line),
                self.event@ == old(self)@.event,
            decreases self.line@.len(),
        {
            self.line.pop();
        }
        proof {
            if self.line@.len() > 0 {
                assert(without_trailing_cr(self.line@) == self.line@);
            }
        }
        let ghost t = self.line@;
        if self.line.len() > 0 {
            if self.event.len() > 0 {
                self.event.push(10);
            }
            self.event.append(&mut self.line);
        }
        proof {
            assert(self.event@ =~= if t.len() == 0 {
                old(self)@.event
            } else {
                with_line(old(self)@.event, t)
            });
        }
        self.line.clear();
        let mut ev: Vec<u8> = Vec::new();
        std::mem::swap(&mut self.event, &mut ev);
        proof {
            assert(self.line@ =~= Seq::<u8>::empty());
        }
        if ev.len() == 0 {
            None
        } else {
            proof {
                assert(flush(old(self)@) =~= seq![ev@]);
            }
            Some(ev)
        }
    }
}

} // verus!
