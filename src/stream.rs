use vstd::prelude::*;

use crate::errors::SdkError;
use crate::frame::{
    body_events, concat, empty_state, feed, feed_chunks, flush, lemma_chunking_independent, FrameState,
    SseFramer,
};
use crate::http::{backoff_ms, is_retryable_status, retry_delay, retryable_status};
use crate::models::{
    api_error_message, error_body_message, has_prefix, parse_sse_event, sse_event_events, status_text_of,
    EventView, MetadataView, StreamEvent, StreamMetadata,
};
use crate::text::{decimal, decimal_text, lossy_text, lossy_text_of};

verus! {

/// What came of one attempt to open the streaming request.
#[derive(Debug)]
pub enum ConnectOutcome {
    /// A response with a 2xx status.
    Accepted,
    /// A response with another status, and its body.
    Rejected { status: u16, body: String },
    /// A transport failure; `retryable` where it was a timeout, a connect
    /// failure or a malformed request.
    Transport { retryable: bool, message: String },
}

/// What the worker does after an attempt to connect.
#[derive(Debug)]
pub enum ConnectAction {
    /// Read the response body.
    Stream,
    /// Wait `delay_ms` milliseconds, then try again.
    Retry { delay_ms: u64 },
    /// Report the error and end the stream.
    Fail(SdkError),
}

/// Decides what follows attempt `attempt` (counted from 0) of at most
/// `max_retries + 1`: a retryable failure is retried after the backoff delay
/// while attempts remain; any other failure, or one on the last attempt,
/// ends the stream with an error.
pub fn connect_action(attempt: u32, max_retries: u32, base_ms: u64, outcome: ConnectOutcome) -> (r:
    ConnectAction)
    requires
        outcome matches ConnectOutcome::Rejected { status, .. } ==> 100 <= status <= 999,
    ensures
        match outcome {
            ConnectOutcome::Accepted => r is Stream,
            ConnectOutcome::Rejected { status, body } => if retryable_status(status) && attempt
                < max_retries {
                r == ConnectAction::Retry { delay_ms: backoff_ms(base_ms, attempt) }
            } else {
                r matches ConnectAction::Fail(e) && e is Runtime && e.message() == "API error ("@
                    + status_text_of(status) + "): "@ + match error_body_message(body@) {
                    Some(m) => m,
                    None => body@,
                }
            },
            ConnectOutcome::Transport { retryable, message } => if retryable && attempt
                < max_retries {
                r == ConnectAction::Retry { delay_ms: backoff_ms(base_ms, attempt) }
            } else {
                r matches ConnectAction::Fail(e) && e is Connection && e.message() == message@
            },
        },
{
    match outcome {
        ConnectOutcome::Accepted => ConnectAction::Stream,
        ConnectOutcome::Rejected { status, body } => {
            if is_retryable_status(status) && attempt < max_retries {
                ConnectAction::Retry { delay_ms: retry_delay(base_ms, attempt) }
            } else {
                ConnectAction::Fail(SdkError::Runtime(api_error_message(status, body.as_str())))
            }
        },
        ConnectOutcome::Transport { retryable, message } => {
            if retryable && attempt < max_retries {
                ConnectAction::Retry { delay_ms: retry_delay(base_ms, attempt) }
            } else {
                ConnectAction::Fail(SdkError::Connection(message))
            }
        },
    }
}

/// One step of a cancellable wait.
#[derive(Debug)]
pub enum WaitStep {
    /// The flag was set: end the stream without a word.
    Cancelled,
    /// The delay has passed: go on.
    Resume,
    /// Sleep one poll interval, then ask again.
    Sleep,
}

/// Decides the next step of the backoff sleep, after `waited_ms` of a
/// `delay_ms` wait: once the delay has passed the worker goes on; before
/// that a set cancellation flag ends it at once.
pub fn backoff_step(cancelled: bool, waited_ms: u64, delay_ms: u64) -> (r: WaitStep)
    ensures
        waited_ms >= delay_ms ==> r is Resume,
        waited_ms < delay_ms && cancelled ==> r is Cancelled,
        waited_ms < delay_ms && !cancelled ==> r is Sleep,
{
    if waited_ms >= delay_ms {
        WaitStep::Resume
    } else if cancelled {
        WaitStep::Cancelled
    } else {
        WaitStep::Sleep
    }
}

/// What the worker hands on to the consumer or to the metadata snapshot.
#[derive(Debug)]
pub enum Delivery {
    Fragment(String),
    Metadata(StreamMetadata),
    Failure(SdkError),
}

pub enum DeliveryView {
    Fragment(Seq<char>),
    Metadata(MetadataView),
    Failure(SdkError),
}

impl View for Delivery {
    type V = DeliveryView;

    open spec fn view(&self) -> DeliveryView {
        match self {
            Delivery::Fragment(s) => DeliveryView::Fragment(s@),
            Delivery::Metadata(m) => DeliveryView::Metadata(m@),
            Delivery::Failure(e) => DeliveryView::Failure(*e),
        }
    }
}

pub open spec fn deliveries_view(v: Seq<Delivery>) -> Seq<DeliveryView> {
    v.map_values(|d: Delivery| d@)
}

/// The deliveries of a batch of decoded events: content goes to the
/// consumer and metadata to the snapshot, in order.
pub open spec fn batch_deliveries(evs: Seq<EventView>) -> Seq<DeliveryView>
    decreases evs.len(),
{
    if evs.len() == 0 {
        Seq::empty()
    } else {
        let rest = batch_deliveries(evs.drop_first());
        match evs[0] {
            EventView::Content(c) => seq![DeliveryView::Fragment(c)] + rest,
            EventView::Metadata(m) => seq![DeliveryView::Metadata(m)] + rest,
            _ => rest,
        }
    }
}

pub open spec fn has_done(evs: Seq<EventView>) -> bool {
    exists|i: int| 0 <= i < evs.len() && evs[i] is Done
}

/// Whether a delivery is the runtime error of an event that did not decode.
pub open spec fn is_decode_failure(d: DeliveryView) -> bool {
    d matches DeliveryView::Failure(e) && e is Runtime && has_prefix(
        e.message(),
        "Failed to parse streaming response chunk"@,
    )
}

/// Whether `ds` are the deliveries of `events` handled in order until the
/// first that ends the stream, and `stop` tells whether one did. An event
/// ends the stream where it holds `Done`, or where it does not decode: then
/// a runtime error is its only delivery.
pub open spec fn events_outcome(events: Seq<Seq<u8>>, ds: Seq<DeliveryView>, stop: bool) -> bool
    decreases events.len(),
{
    if events.len() == 0 {
        ds.len() == 0 && !stop
    } else {
        match sse_event_events(lossy_text_of(events[0])) {
            None => ds.len() == 1 && is_decode_failure(ds[0]) && stop,
            Some(evs) => {
                let d = batch_deliveries(evs);
                &&& d.len() <= ds.len()
                &&& ds.subrange(0, d.len() as int) == d
                &&& if has_done(evs) {
                    ds.len() == d.len() && stop
                } else {
                    events_outcome(events.drop_first(), ds.subrange(d.len() as int, ds.len() as int), stop)
                }
            },
        }
    }
}

proof fn lemma_batch_has_no_failure(evs: Seq<EventView>)
    ensures
        forall|i: int|
            0 <= i < batch_deliveries(evs).len() ==> !(#[trigger] batch_deliveries(evs)[i] is Failure),
    decreases evs.len(),
{
    if evs.len() > 0 {
        lemma_batch_has_no_failure(evs.drop_first());
    }
}

proof fn lemma_batch_step(evs: Seq<EventView>, i: int)
    requires
        0 <= i < evs.len(),
    ensures
        batch_deliveries(evs.subrange(i, evs.len() as int)) == match evs[i] {
            EventView::Content(c) => seq![DeliveryView::Fragment(c)] + batch_deliveries(
                evs.subrange(i + 1, evs.len() as int),
            ),
            EventView::Metadata(m) => seq![DeliveryView::Metadata(m)] + batch_deliveries(
                evs.subrange(i + 1, evs.len() as int),
            ),
            _ => batch_deliveries(evs.subrange(i + 1, evs.len() as int)),
        },
{
    assert(evs.subrange(i, evs.len() as int).drop_first() =~= evs.subrange(i + 1, evs.len() as int));
}

/// In the deliveries of a run of events, a failure comes last, and only
/// where the stream ends.
pub proof fn lemma_failure_is_last(events: Seq<Seq<u8>>, ds: Seq<DeliveryView>, stop: bool)
    requires
        events_outcome(events, ds, stop),
    ensures
        forall|i: int| 0 <= i < ds.len() && (#[trigger] ds[i] is Failure) ==> i == ds.len() - 1 && stop,
    decreases events.len(),
{
    if events.len() > 0 {
        match sse_event_events(lossy_text_of(events[0])) {
            None => {},
            Some(evs) => {
                let d = batch_deliveries(evs);
                lemma_batch_has_no_failure(evs);
                if !has_done(evs) {
                    let rest = ds.subrange(d.len() as int, ds.len() as int);
                    lemma_failure_is_last(events.drop_first(), rest, stop);
                    assert forall|i: int| 0 <= i < ds.len() && (#[trigger] ds[i] is Failure) implies i
                        == ds.len() - 1 && stop by {
                        if i < d.len() {
                            assert(ds[i] == d[i]);
                        } else {
                            assert(ds[i] == rest[i - d.len()]);
                        }
                    }
                } else {
                    assert forall|i: int| 0 <= i < ds.len() && (#[trigger] ds[i] is Failure) implies i
                        == ds.len() - 1 && stop by {
                        assert(ds[i] == d[i]);
                    }
                }
            },
        }
    }
}

proof fn lemma_outcome_append(a: Seq<Seq<u8>>, b: Seq<Seq<u8>>, da: Seq<DeliveryView>, db: Seq<DeliveryView>, stop: bool)
    requires
        events_outcome(a, da, false),
        events_outcome(b, db, stop),
    ensures
        events_outcome(a + b, da + db, stop),
    decreases a.len(),
{
    if a.len() == 0 {
        assert(a + b =~= b);
        assert(da + db =~= db);
    } else {
        assert((a + b)[0] == a[0]);
        assert((a + b).drop_first() =~= a.drop_first() + b);
        match sse_event_events(lossy_text_of(a[0])) {
            None => {},
            Some(evs) => {
                let d = batch_deliveries(evs);
                let rest = da.subrange(d.len() as int, da.len() as int);
                lemma_outcome_append(a.drop_first(), b, rest, db, stop);
                assert((da + db).subrange(0, d.len() as int) =~= da.subrange(0, d.len() as int));
                assert((da + db).subrange(d.len() as int, (da + db).len() as int) =~= rest + db);
            },
        }
    }
}

pub open spec fn event_handled(event: Seq<u8>, added: Seq<DeliveryView>, stop: bool) -> bool {
    match sse_event_events(lossy_text_of(event)) {
        None => added.len() == 1 && is_decode_failure(added[0]) && stop,
        Some(evs) => added == batch_deliveries(evs) && stop == has_done(evs),
    }
}

proof fn lemma_outcome_first(b: Seq<Seq<u8>>, added: Seq<DeliveryView>, stop: bool)
    requires
        b.len() >= 1,
        event_handled(b[0], added, stop),
        stop || b.len() == 1,
    ensures
        events_outcome(b, added, stop),
{
    reveal_with_fuel(events_outcome, 2);
    match sse_event_events(lossy_text_of(b[0])) {
        None => {},
        Some(evs) => {
            assert(added.subrange(0, added.len() as int) =~= added);
            if !stop {
                assert(b.drop_first().len() == 0);
                assert(added.subrange(added.len() as int, added.len() as int).len() == 0);
            }
        },
    }
}

/// Decodes one assembled event and hands on what it gives; tells whether
/// the stream ends with it.
fn handle_event(event: &Vec<u8>, out: &mut Vec<Delivery>) -> (stop: bool)
    ensures
        old(out)@.len() <= final(out)@.len(),
        final(out)@.subrange(0, old(out)@.len() as int) == old(out)@,
        event_handled(
            event@,
            deliveries_view(final(out)@).subrange(old(out)@.len() as int, final(out)@.len() as int),
            stop,
        ),
{
    let text = lossy_text(event.as_slice());
    let ghost start = out@.len();
    match parse_sse_event(text.as_str()) {
        Err(e) => {
            out.push(Delivery::Failure(e));
            proof {
                assert(out@.subrange(0, start as int) =~= old(out)@);
                assert(deliveries_view(out@).subrange(start as int, out@.len() as int) =~= seq![
                    DeliveryView::Failure(e),
                ]);
            }
            true
        },
        Ok(events) => {
            let ghost all = crate::models::events_view(events@);
            let mut events = events;
            let mut done = false;
            let mut i: usize = 0;
            let n = events.len();
            proof {
                assert(all.subrange(0, all.len() as int) =~= all);
                assert(deliveries_view(out@).subrange(start as int, out@.len() as int) =~= Seq::<
                    DeliveryView,
                >::empty());
            }
            while events.len() > 0
                invariant
                    i + events@.len() == n == all.len(),
                    crate::models::events_view(events@) == all.subrange(i as int, n as int),
                    start <= out@.len(),
                    out@.subrange(0, start as int) == old(out)@,
                    deliveries_view(out@).subrange(start as int, out@.len() as int) + batch_deliveries(
                        all.subrange(i as int, n as int),
                    ) == batch_deliveries(all),
                    done == has_done(all.subrange(0, i as int)),
                decreases events@.len(),
            {
                proof {
                    lemma_batch_step(all, i as int);
                    assert(all[i as int] == events@[0]@);
                }
                let ghost evs_before = events@;
                let ev = events.remove(0);
                let ghost before = deliveries_view(out@).subrange(start as int, out@.len() as int);
                match ev {
                    StreamEvent::Content(c) => {
                        out.push(Delivery::Fragment(c));
                        proof {
                            assert(deliveries_view(out@).subrange(start as int, out@.len() as int)
                                =~= before.push(DeliveryView::Fragment(c@)));
                        }
                    },
                    StreamEvent::Metadata(m) => {
                        out.push(Delivery::Metadata(m));
                        proof {
                            assert(deliveries_view(out@).subrange(start as int, out@.len() as int)
                                =~= before.push(DeliveryView::Metadata(m@)));
                        }
                    },
                    StreamEvent::Done => {
                        done = true;
                    },
                    StreamEvent::Ignore => {},
                }
                proof {
                    assert(out@.subrange(0, start as int) =~= old(out)@);
                    assert forall|k: int| 0 <= k < events@.len() implies #[trigger] events@[k]@ == all[i
                        + 1 + k] by {
                        assert(events@[k] == evs_before[k + 1]);
                        assert(crate::models::events_view(evs_before)[k + 1] == all.subrange(
                            i as int,
                            n as int,
                        )[k + 1]);
                    }
                    assert(crate::models::events_view(events@) =~= all.subrange(i + 1, n as int));
                    let pre = all.subrange(0, i + 1);
                    assert(pre[i as int] == all[i as int]);
                    if has_done(all.subrange(0, i as int)) {
                        let k = choose|k: int| 0 <= k < i && all.subrange(0, i as int)[k] is Done;
                        assert(pre[k] is Done);
                    }
                    if has_done(pre) {
                        let k = choose|k: int| 0 <= k < i + 1 && pre[k] is Done;
                        if k < i {
                            assert(all.subrange(0, i as int)[k] is Done);
                        }
                    }
                }
                i = i + 1;
            }
            proof {
                assert(all.subrange(i as int, n as int).len() == 0);
                assert(all.subrange(0, i as int) =~= all);
                assert(deliveries_view(out@).subrange(start as int, out@.len() as int) + Seq::<
                    DeliveryView,
                >::empty() =~= deliveries_view(out@).subrange(start as int, out@.len() as int));
            }
            done
        },
    }
}

pub struct SessionView {
    pub frame: FrameState,
    pub stopped: bool,
}

/// The streaming state of the worker: the frame assembler, and whether the
/// stream has ended (by `Done`, a failure, the end of the body, or
/// cancellation). Once it has ended nothing more is delivered.
pub struct StreamSession {
    framer: SseFramer,
    stopped: bool,
}

impl View for StreamSession {
    type V = SessionView;

    closed spec fn view(&self) -> SessionView {
        SessionView { frame: self.framer@, stopped: self.stopped }
    }
}

pub open spec fn inactivity_message(timeout_ms: u64) -> Seq<char> {
    "Streaming response timed out after "@ + decimal((timeout_ms / 1000) as nat)
        + "s of inactivity."@
}

impl StreamSession {
    pub fn new() -> (r: StreamSession)
        ensures
            r@.frame == crate::frame::empty_state(),
            !r@.stopped,
    {
        StreamSession { framer: SseFramer::new(), stopped: false }
    }

    pub fn is_stopped(&self) -> (r: bool)
        ensures
            r == self@.stopped,
    {
        self.stopped
    }

    /// Feeds one chunk of the body: each event that it completes is decoded
    /// and handed on in order, until one holds `Done` or fails to decode.
    pub fn on_chunk(&mut self, chunk: &[u8]) -> (r: Vec<Delivery>)
        ensures
            old(self)@.stopped ==> r@.len() == 0 && final(self)@ == old(self)@,
            !old(self)@.stopped ==> ({
                let (s, events) = feed(old(self)@.frame, chunk@);
                &&& final(self)@.frame == s
                &&& events_outcome(events, deliveries_view(r@), final(self)@.stopped)
            }),
            forall|i: int|
                0 <= i < r@.len() && (#[trigger] r@[i] is Failure) ==> i == r@.len() - 1
                    && final(self)@.stopped,
    {
        let mut out: Vec<Delivery> = Vec::new();
        if self.stopped {
            return out;
        }
        let events = self.framer.push_chunk(chunk);
        let ghost all = crate::frame::bytes_view(events@);
        let mut i: usize = 0;
        let mut stop = false;
        proof {
            assert(all.subrange(0, 0) =~= Seq::<Seq<u8>>::empty());
            assert(deliveries_view(out@) =~= Seq::<DeliveryView>::empty());
        }
        while i < events.len() && !stop
            invariant
                i <= events@.len() == all.len(),
                all == crate::frame::bytes_view(events@),
                !stop ==> events_outcome(all.subrange(0, i as int), deliveries_view(out@), false),
                stop ==> events_outcome(all, deliveries_view(out@), true),
            decreases events@.len() - i + if stop {
                0int
            } else {
                1int
            },
        {
            let ghost before = deliveries_view(out@);
            let ghost e = all[i as int];
            let ended = handle_event(&events[i], &mut out);
            proof {
                let added = deliveries_view(out@).subrange(before.len() as int, out@.len() as int);
                assert(deliveries_view(out@) =~= before + added);
                let rest = all.subrange(i as int, all.len() as int);
                assert(rest[0] == e);
                assert(all =~= all.subrange(0, i as int) + rest);
                if ended {
                    lemma_outcome_first(rest, added, true);
                    lemma_outcome_append(all.subrange(0, i as int), rest, before, added, true);
                } else {
                    let one = seq![e];
                    lemma_outcome_first(one, added, false);
                    lemma_outcome_append(all.subrange(0, i as int), one, before, added, false);
                    assert(all.subrange(0, i as int) + one =~= all.subrange(0, i + 1));
                }
            }
            stop = ended;
            i = i + 1;
        }
        proof {
            if !stop {
                assert(all.subrange(0, i as int) =~= all);
            }
            lemma_failure_is_last(all, deliveries_view(out@), stop);
            assert forall|k: int| 0 <= k < out@.len() && (#[trigger] out@[k] is Failure) implies k
                == out@.len() - 1 && stop by {
                assert(deliveries_view(out@)[k] is Failure);
            }
        }
        self.stopped = stop;
        out
    }

    /// Ends the body: an event left without its closing blank line is
    /// decoded and handed on, and the stream ends.
    pub fn on_body_end(&mut self) -> (r: Vec<Delivery>)
        ensures
            final(self)@.stopped,
            old(self)@.stopped ==> r@.len() == 0,
            !old(self)@.stopped ==> exists|stop: bool|
                events_outcome(flush(old(self)@.frame), deliveries_view(r@), stop),
    {
        let mut out: Vec<Delivery> = Vec::new();
        if self.stopped {
            return out;
        }
        self.stopped = true;
        let ghost tail = flush(self.framer@);
        assert(tail == flush(old(self)@.frame));
        match self.framer.finish() {
            Some(ev) => {
                let stop = handle_event(&ev, &mut out);
                proof {
                    assert(deliveries_view(out@).subrange(0, out@.len() as int) =~= deliveries_view(
                        out@,
                    ));
                    lemma_outcome_first(tail, deliveries_view(out@), stop);
                    assert(exists|st: bool| events_outcome(tail, deliveries_view(out@), st));
                }
            },
            None => {
                proof {
                    assert(deliveries_view(out@) =~= Seq::<DeliveryView>::empty());
                    assert(events_outcome(tail, deliveries_view(out@), false));
                    assert(exists|st: bool| events_outcome(tail, deliveries_view(out@), st));
                }
            },
        }
        out
    }

    /// A transport failure while reading the body ends the stream with that
    /// error: once the body is being read nothing is retried.
    pub fn on_transport_error(&mut self, message: &str) -> (r: Vec<Delivery>)
        ensures
            final(self)@.stopped,
            old(self)@.stopped ==> r@.len() == 0,
            !old(self)@.stopped ==> r@.len() == 1 && (r@[0] matches Delivery::Failure(e) && e
                is Runtime && e.message() == message@),
    {
        let mut out: Vec<Delivery> = Vec::new();
        if !self.stopped {
            out.push(Delivery::Failure(SdkError::runtime(message)));
        }
        self.stopped = true;
        out
    }

    /// A poll interval passed without data, `idle_ms` after the last chunk:
    /// once that reaches the request timeout the stream fails.
    pub fn on_idle(&mut self, idle_ms: u64, timeout_ms: u64) -> (r: Vec<Delivery>)
        ensures
            old(self)@.stopped || idle_ms < timeout_ms ==> r@.len() == 0 && final(self)@ == old(
                self,
            )@,
            !old(self)@.stopped && idle_ms >= timeout_ms ==> final(self)@.stopped && r@.len() == 1
                && (r@[0] matches Delivery::Failure(e) && e is Runtime && e.message()
                == inactivity_message(timeout_ms)),
    {
        let mut out: Vec<Delivery> = Vec::new();
        if self.stopped || idle_ms < timeout_ms {
            return out;
        }
        let mut m = "Streaming response timed out after ".to_string();
        let secs = decimal_text(timeout_ms / 1000);
        m.append(secs.as_str());
        m.append("s of inactivity.");
        out.push(Delivery::Failure(SdkError::Runtime(m)));
        self.stopped = true;
        out
    }

    /// The cancellation flag was seen set: the stream ends, silently.
    pub fn cancel(&mut self)
        ensures
            final(self)@.stopped,
            final(self)@.frame == old(self)@.frame,
    {
        self.stopped = true;
    }
}

/// The text fragments among `ds`, in order.
pub open spec fn fragments_of(ds: Seq<DeliveryView>) -> Seq<Seq<char>>
    decreases ds.len(),
{
    if ds.len() == 0 {
        Seq::empty()
    } else {
        let rest = fragments_of(ds.drop_first());
        match ds[0] {
            DeliveryView::Fragment(c) => seq![c] + rest,
            _ => rest,
        }
    }
}

/// The fragments that `events` give, handled in order until the first that
/// ends the stream.
pub open spec fn event_fragments(events: Seq<Seq<u8>>) -> Seq<Seq<char>>
    decreases events.len(),
{
    if events.len() == 0 {
        Seq::empty()
    } else {
        match sse_event_events(lossy_text_of(events[0])) {
            None => Seq::empty(),
            Some(evs) => fragments_of(batch_deliveries(evs)) + if has_done(evs) {
                Seq::empty()
            } else {
                event_fragments(events.drop_first())
            },
        }
    }
}

proof fn lemma_fragments_append(a: Seq<DeliveryView>, b: Seq<DeliveryView>)
    ensures
        fragments_of(a + b) == fragments_of(a) + fragments_of(b),
    decreases a.len(),
{
    if a.len() == 0 {
        assert(a + b =~= b);
        assert(fragments_of(a) + fragments_of(b) =~= fragments_of(b));
    } else {
        assert((a + b).drop_first() =~= a.drop_first() + b);
        assert((a + b)[0] == a[0]);
        lemma_fragments_append(a.drop_first(), b);
        match a[0] {
            DeliveryView::Fragment(c) => {
                assert(seq![c] + fragments_of(a.drop_first()) + fragments_of(b) =~= seq![c] + (
                fragments_of(a.drop_first()) + fragments_of(b)));
            },
            _ => {},
        }
    }
}

proof fn lemma_outcome_fragments(events: Seq<Seq<u8>>, ds: Seq<DeliveryView>, stop: bool)
    requires
        events_outcome(events, ds, stop),
    ensures
        fragments_of(ds) == event_fragments(events),
    decreases events.len(),
{
    if events.len() > 0 {
        match sse_event_events(lossy_text_of(events[0])) {
            None => {
                assert(ds.drop_first().len() == 0);
                assert(fragments_of(ds.drop_first()) =~= Seq::<Seq<char>>::empty());
            },
            Some(evs) => {
                let d = batch_deliveries(evs);
                let rest = ds.subrange(d.len() as int, ds.len() as int);
                assert(ds =~= d + rest);
                lemma_fragments_append(d, rest);
                if has_done(evs) {
                    assert(rest.len() == 0);
                    assert(fragments_of(rest) =~= Seq::<Seq<char>>::empty());
                } else {
                    lemma_outcome_fragments(events.drop_first(), rest, stop);
                }
            },
        }
    }
}

proof fn lemma_outcome_stopped_extend(a: Seq<Seq<u8>>, b: Seq<Seq<u8>>, da: Seq<DeliveryView>)
    requires
        events_outcome(a, da, true),
    ensures
        events_outcome(a + b, da, true),
    decreases a.len(),
{
    assert(a.len() > 0);
    assert((a + b)[0] == a[0]);
    assert((a + b).drop_first() =~= a.drop_first() + b);
    match sse_event_events(lossy_text_of(a[0])) {
        None => {},
        Some(evs) => {
            if !has_done(evs) {
                let d = batch_deliveries(evs);
                lemma_outcome_stopped_extend(
                    a.drop_first(),
                    b,
                    da.subrange(d.len() as int, da.len() as int),
                );
            }
        },
    }
}

/// All deliveries of the calls, one call after the other.
pub open spec fn flatten_deliveries(outs: Seq<Seq<DeliveryView>>) -> Seq<DeliveryView>
    decreases outs.len(),
{
    if outs.len() == 0 {
        Seq::empty()
    } else {
        flatten_deliveries(outs.drop_last()) + outs.last()
    }
}

/// Whether call `i` of `on_chunk` on a new session fed `chunks` handed back
/// `outs[i]` and left the session stopped as `stops[i]` says, as its
/// contract allows.
pub open spec fn chunk_call(
    chunks: Seq<Seq<u8>>,
    outs: Seq<Seq<DeliveryView>>,
    stops: Seq<bool>,
    i: int,
) -> bool {
    if i > 0 && stops[i - 1] {
        outs[i].len() == 0 && stops[i]
    } else {
        let s = feed_chunks(empty_state(), chunks.subrange(0, i)).0;
        events_outcome(feed(s, chunks[i]).1, outs[i], stops[i])
    }
}

/// Whether `outs` and `stops` are what `on_chunk` on a new session hands
/// back, call after call, for `chunks`.
pub open spec fn chunk_calls(
    chunks: Seq<Seq<u8>>,
    outs: Seq<Seq<DeliveryView>>,
    stops: Seq<bool>,
) -> bool {
    &&& outs.len() == chunks.len()
    &&& stops.len() == chunks.len()
    &&& forall|i: int| 0 <= i < chunks.len() ==> #[trigger] chunk_call(chunks, outs, stops, i)
}

proof fn lemma_chunk_calls_prefix(
    chunks: Seq<Seq<u8>>,
    outs: Seq<Seq<DeliveryView>>,
    stops: Seq<bool>,
    n: int,
)
    requires
        chunk_calls(chunks, outs, stops),
        0 <= n <= chunks.len(),
    ensures
        events_outcome(
            feed_chunks(empty_state(), chunks.subrange(0, n)).1,
            flatten_deliveries(outs.subrange(0, n)),
            n > 0 && stops[n - 1],
        ),
    decreases n,
{
    if n == 0 {
        assert(chunks.subrange(0, 0).len() == 0);
        assert(outs.subrange(0, 0).len() == 0);
    } else {
        lemma_chunk_calls_prefix(chunks, outs, stops, n - 1);
        assert(chunk_call(chunks, outs, stops, n - 1));
        let pre = chunks.subrange(0, n - 1);
        assert(chunks.subrange(0, n).drop_last() =~= pre);
        assert(chunks.subrange(0, n).last() == chunks[n - 1]);
        assert(outs.subrange(0, n).drop_last() =~= outs.subrange(0, n - 1));
        assert(outs.subrange(0, n).last() == outs[n - 1]);
        let (s, e) = feed_chunks(empty_state(), pre);
        let d = flatten_deliveries(outs.subrange(0, n - 1));
        let x = feed(s, chunks[n - 1]).1;
        if n > 1 && stops[n - 2] {
            lemma_outcome_stopped_extend(e, x, d);
            assert(d + outs[n - 1] =~= d);
        } else {
            lemma_outcome_append(e, x, d, outs[n - 1], stops[n - 1]);
        }
    }
}

/// However a body is split into chunks, a new session fed the chunks in
/// order and then the end of the body delivers the same text fragments, in
/// the same order, as the events of the whole body give.
pub proof fn lemma_fragments_chunking_independent(
    chunks: Seq<Seq<u8>>,
    outs: Seq<Seq<DeliveryView>>,
    stops: Seq<bool>,
    end: Seq<DeliveryView>,
    end_stop: bool,
)
    requires
        chunk_calls(chunks, outs, stops),
        chunks.len() > 0 && stops.last() ==> end.len() == 0,
        !(chunks.len() > 0 && stops.last()) ==> events_outcome(
            flush(feed_chunks(empty_state(), chunks).0),
            end,
            end_stop,
        ),
    ensures
        fragments_of(flatten_deliveries(outs) + end) == event_fragments(body_events(concat(chunks))),
{
    let n = chunks.len() as int;
    lemma_chunk_calls_prefix(chunks, outs, stops, n);
    assert(chunks.subrange(0, n) =~= chunks);
    assert(outs.subrange(0, n) =~= outs);
    lemma_chunking_independent(chunks);
    let (s, e) = feed_chunks(empty_state(), chunks);
    let d = flatten_deliveries(outs);
    let stopped = chunks.len() > 0 && stops.last();
    if stopped {
        lemma_outcome_stopped_extend(e, flush(s), d);
        assert(d + end =~= d);
        lemma_outcome_fragments(e + flush(s), d + end, true);
    } else {
        lemma_outcome_append(e, flush(s), d, end, end_stop);
        lemma_outcome_fragments(e + flush(s), d + end, end_stop);
    }
}

} // verus!
