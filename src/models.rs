use vstd::prelude::*;

use crate::errors::SdkError;
use crate::json::{get_member, json_of, member, parse_json, Json};
use crate::text::{blank, chars_of, is_blank, is_space, is_space_char, string_of};

verus! {

/// Token counts that the API reports for a completion.
#[derive(Debug, Clone, Copy, PartialEq, Eq)]
pub struct Usage {
    pub prompt_tokens: u64,
    pub completion_tokens: u64,
    pub total_tokens: u64,
}

/// The latest known usage, finish reason and model of a stream.
#[derive(Debug, Clone, PartialEq)]
pub struct StreamMetadata {
    pub usage: Option<Usage>,
    pub finish_reason: Option<String>,
    pub model: Option<String>,
}

/// One semantic event decoded from a server-sent event.
#[derive(Debug, Clone, PartialEq)]
pub enum StreamEvent {
    Done,
    Content(String),
    Ignore,
    Metadata(StreamMetadata),
}

pub struct MetadataView {
    pub usage: Option<Usage>,
    pub finish_reason: Option<Seq<char>>,
    pub model: Option<Seq<char>>,
}

pub enum EventView {
    Done,
    Content(Seq<char>),
    Ignore,
    Metadata(MetadataView),
}

pub open spec fn text_view(o: Option<String>) -> Option<Seq<char>> {
    match o {
        Some(s) => Some(s@),
        None => None,
    }
}

impl View for StreamMetadata {
    type V = MetadataView;

    open spec fn view(&self) -> MetadataView {
        MetadataView {
            usage: self.usage,
            finish_reason: text_view(self.finish_reason),
            model: text_view(self.model),
        }
    }
}

impl View for StreamEvent {
    type V = EventView;

    open spec fn view(&self) -> EventView {
        match self {
            StreamEvent::Done => EventView::Done,
            StreamEvent::Content(s) => EventView::Content(s@),
            StreamEvent::Ignore => EventView::Ignore,
            StreamEvent::Metadata(m) => EventView::Metadata(m@),
        }
    }
}

pub open spec fn events_view(v: Seq<StreamEvent>) -> Seq<EventView> {
    v.map_values(|e: StreamEvent| e@)
}

pub open spec fn deref_json(j: Option<&Json>) -> Option<Json> {
    match j {
        Some(x) => Some(*x),
        None => None,
    }
}

/// How an optional text field reads `j`: `None` where it does not fit,
/// `Some(None)` where it is absent or null.
pub open spec fn text_field(j: Option<Json>) -> Option<Option<Seq<char>>> {
    match j {
        None => Some(None),
        Some(Json::Null) => Some(None),
        Some(Json::Text(s)) => Some(Some(s@)),
        _ => None,
    }
}

/// How a required count field reads the member `key` of `fields`.
pub open spec fn count_field(fields: Seq<(String, Json)>, key: Seq<char>) -> Option<u64> {
    match member(fields, key) {
        Some(Json::Number(Some(n))) => Some(n),
        _ => None,
    }
}

/// How the optional `usage` field reads `j`.
pub open spec fn usage_field(j: Option<Json>) -> Option<Option<Usage>> {
    match j {
        None => Some(None),
        Some(Json::Null) => Some(None),
        Some(Json::Object(fs)) => {
            let p = count_field(fs@, "prompt_tokens"@);
            let c = count_field(fs@, "completion_tokens"@);
            let t = count_field(fs@, "total_tokens"@);
            if p is Some && c is Some && t is Some {
                Some(
                    Some(
                        Usage { prompt_tokens: p->0, completion_tokens: c->0, total_tokens: t->0 },
                    ),
                )
            } else {
                None
            }
        },
        _ => None,
    }
}

/// The delta content and finish reason of one element of `choices`, where it
/// has the expected shape.
pub open spec fn choice_fields(j: Json) -> Option<(Option<Seq<char>>, Option<Seq<char>>)> {
    match j {
        Json::Object(fs) => match member(fs@, "delta"@) {
            Some(Json::Object(ds)) => {
                let content = text_field(member(ds@, "content"@));
                let finish = text_field(member(fs@, "finish_reason"@));
                if content is Some && finish is Some {
                    Some((content->0, finish->0))
                } else {
                    None
                }
            },
            _ => None,
        },
        _ => None,
    }
}

/// The events of one chunk: its content where it is not empty, then its
/// metadata where usage or a finish reason is present; `Ignore` where
/// neither is there.
pub open spec fn chunk_events_of(
    content: Option<Seq<char>>,
    finish_reason: Option<Seq<char>>,
    usage: Option<Usage>,
    model: Option<Seq<char>>,
) -> Seq<EventView> {
    let c = if content is Some && content->0.len() > 0 {
        seq![EventView::Content(content->0)]
    } else {
        Seq::empty()
    };
    let m = if usage is Some || finish_reason is Some {
        seq![
            EventView::Metadata(
                MetadataView { usage: usage, finish_reason: finish_reason, model: model },
            ),
        ]
    } else {
        Seq::empty()
    };
    if c.len() + m.len() == 0 {
        seq![EventView::Ignore]
    } else {
        c + m
    }
}

/// The events that a streaming chunk document stands for, or `None` where
/// the document does not have the chunk's shape
/// `{choices: [{delta: {content?}, finish_reason?}], usage?, model?}`.
pub open spec fn chunk_events(j: Json) -> Option<Seq<EventView>> {
    match j {
        Json::Object(fs) => match member(fs@, "choices"@) {
            Some(Json::Array(cs)) => {
                let usage = usage_field(member(fs@, "usage"@));
                let model = text_field(member(fs@, "model"@));
                if (forall|i: int| 0 <= i < cs@.len() ==> #[trigger] choice_fields(cs@[i]) is Some)
                    && usage is Some && model is Some {
                    let first = if cs@.len() > 0 {
                        choice_fields(cs@[0])->0
                    } else {
                        (None, None)
                    };
                    Some(chunk_events_of(first.0, first.1, usage->0, model->0))
                } else {
                    None
                }
            },
            _ => None,
        },
        _ => None,
    }
}

fn read_text(j: Option<&Json>) -> (r: Option<Option<String>>)
    ensures
        r is Some <==> text_field(deref_json(j)) is Some,
        r is Some ==> text_view(r->0) == text_field(deref_json(j))->0,
{
    match j {
        None => Some(None),
        Some(Json::Null) => Some(None),
        Some(Json::Text(s)) => Some(Some(s.clone())),
        _ => None,
    }
}

fn read_count(fields: &Vec<(String, Json)>, key: &String) -> (r: Option<u64>)
    ensures
        r == count_field(fields@, key@),
{
    match get_member(fields, key) {
        Some(Json::Number(Some(n))) => Some(*n),
        _ => None,
    }
}

fn read_usage(j: Option<&Json>) -> (r: Option<Option<Usage>>)
    ensures
        r == usage_field(deref_json(j)),
{
    match j {
        None => Some(None),
        Some(Json::Null) => Some(None),
        Some(Json::Object(fs)) => {
            let p = read_count(fs, &"prompt_tokens".to_string());
            let c = read_count(fs, &"completion_tokens".to_string());
            let t = read_count(fs, &"total_tokens".to_string());
            match (p, c, t) {
                (Some(p), Some(c), Some(t)) => Some(
                    Some(Usage { prompt_tokens: p, completion_tokens: c, total_tokens: t }),
                ),
                _ => None,
            }
        },
        _ => None,
    }
}

fn read_choice(j: &Json) -> (r: Option<(Option<String>, Option<String>)>)
    ensures
        r is Some <==> choice_fields(*j) is Some,
        r is Some ==> (text_view((r->0).0), text_view((r->0).1)) == choice_fields(*j)->0,
{
    match j {
        Json::Object(fs) => match get_member(fs, &"delta".to_string()) {
            Some(Json::Object(ds)) => {
                let content = read_text(get_member(ds, &"content".to_string()));
                let finish = read_text(get_member(fs, &"finish_reason".to_string()));
                match (content, finish) {
                    (Some(c), Some(f)) => Some((c, f)),
                    _ => None,
                }
            },
            _ => None,
        },
        _ => None,
    }
}

fn events_from_parts(
    content: Option<String>,
    finish_reason: Option<String>,
    usage: Option<Usage>,
    model: Option<String>,
) -> (r: Vec<StreamEvent>)
    ensures
        events_view(r@) == chunk_events_of(
            text_view(content),
            text_view(finish_reason),
            usage,
            text_view(model),
        ),
{
    let mut events: Vec<StreamEvent> = Vec::new();
    match content {
        Some(c) => {
            if !c.as_str().is_empty() {
                events.push(StreamEvent::Content(c));
            }
        },
        None => {},
    }
    if usage.is_some() || finish_reason.is_some() {
        events.push(
            StreamEvent::Metadata(
                StreamMetadata { usage: usage, finish_reason: finish_reason, model: model },
            ),
        );
    }
    if events.len() == 0 {
        events.push(StreamEvent::Ignore);
    }
    proof {
        assert(events_view(events@) =~= chunk_events_of(
            text_view(content),
            text_view(finish_reason),
            usage,
            text_view(model),
        ));
    }
    events
}

/// Reads a decoded streaming chunk into its events; `None` where the
/// document does not have the chunk's shape.
pub fn chunk_to_events(j: &Json) -> (r: Option<Vec<StreamEvent>>)
    ensures
        r is Some <==> chunk_events(*j) is Some,
        r is Some ==> events_view(r->0@) == chunk_events(*j)->0,
{
    match j {
        Json::Object(fs) => match get_member(fs, &"choices".to_string()) {
            Some(Json::Array(cs)) => {
                let usage = read_usage(get_member(fs, &"usage".to_string()));
                let model = read_text(get_member(fs, &"model".to_string()));
                let mut first: (Option<String>, Option<String>) = (None, None);
                let mut i: usize = 0;
                while i < cs.len()
                    invariant
                        i <= cs@.len(),
                        *j == Json::Object(*fs),
                        member(fs@, "choices"@) == Some(Json::Array(*cs)),
                        forall|k: int| 0 <= k < i ==> #[trigger] choice_fields(cs@[k]) is Some,
                        i > 0 ==> (text_view(first.0), text_view(first.1)) == choice_fields(
                            cs@[0],
                        )->0,
                        i == 0 ==> first.0 is None && first.1 is None,
                    decreases cs@.len() - i,
                {
                    match read_choice(&cs[i]) {
                        Some(c) => {
                            if i == 0 {
                                first = c;
                            }
                        },
                        None => {
                            assert(choice_fields(cs@[i as int]) is None);
                            return None;
                        },
                    }
                    i = i + 1;
                }
                match (usage, model) {
                    (Some(u), Some(m)) => Some(events_from_parts(first.0, first.1, u, m)),
                    _ => None,
                }
            },
            _ => None,
        },
        _ => None,
    }
}

/// The pieces of `s` between newline characters: `n` newlines give `n + 1`
/// pieces, the last one possibly empty.
pub open spec fn split_lines(s: Seq<char>) -> Seq<Seq<char>>
    decreases s.len(),
{
    if s.len() == 0 {
        seq![Seq::empty()]
    } else {
        let init = split_lines(s.drop_last());
        if s.last() == '\n' {
            init.push(Seq::empty())
        } else {
            init.update(init.len() - 1, init.last().push(s.last()))
        }
    }
}

/// `l` without its trailing carriage returns.
pub open spec fn strip_cr(l: Seq<char>) -> Seq<char>
    decreases l.len(),
{
    if l.len() > 0 && l.last() == '\r' {
        strip_cr(l.drop_last())
    } else {
        l
    }
}

/// `l` without its leading white space.
pub open spec fn trim_start(l: Seq<char>) -> Seq<char>
    decreases l.len(),
{
    if l.len() > 0 && is_space(l[0]) {
        trim_start(l.drop_first())
    } else {
        l
    }
}

pub open spec fn is_data_line(l: Seq<char>) -> bool {
    l.len() >= 5 && l.subrange(0, 5) == "data:"@
}

/// The payloads of the `data:` lines among `lines`, in order, each without
/// the field name and the white space after it.
pub open spec fn data_payloads(lines: Seq<Seq<char>>) -> Seq<Seq<char>>
    decreases lines.len(),
{
    if lines.len() == 0 {
        Seq::empty()
    } else {
        let init = data_payloads(lines.drop_last());
        let l = strip_cr(lines.last());
        if is_data_line(l) {
            init.push(trim_start(l.subrange(5, l.len() as int)))
        } else {
            init
        }
    }
}

/// The pieces joined with newlines between them.
pub open spec fn join_lines(ps: Seq<Seq<char>>) -> Seq<char>
    decreases ps.len(),
{
    if ps.len() == 0 {
        Seq::empty()
    } else if ps.len() == 1 {
        ps[0]
    } else {
        join_lines(ps.drop_last()) + seq!['\n'] + ps.last()
    }
}

/// What one joined `data` payload decodes to; `None` for a payload that
/// is not a streaming chunk.
pub open spec fn payload_events(p: Seq<char>) -> Option<Seq<EventView>> {
    if is_blank(p) {
        Some(seq![EventView::Ignore])
    } else if p == "[DONE]"@ {
        Some(seq![EventView::Done])
    } else {
        match json_of(p) {
            Some(j) => chunk_events(j),
            None => None,
        }
    }
}

/// What one server-sent event decodes to; `None` where it must fail.
pub open spec fn sse_event_events(event: Seq<char>) -> Option<Seq<EventView>> {
    let ds = data_payloads(split_lines(event));
    if ds.len() == 0 {
        Some(seq![EventView::Ignore])
    } else {
        payload_events(join_lines(ds))
    }
}

/// No event decodes to an empty content fragment: an empty `content` is
/// ignored.
pub proof fn lemma_no_empty_content(event: Seq<char>)
    ensures
        sse_event_events(event) matches Some(evs) ==> forall|i: int|
            0 <= i < evs.len() ==> (#[trigger] evs[i] matches EventView::Content(c) ==> c.len() > 0),
{
}

/// What one line read as an event decodes to; a blank line is ignored.
pub open spec fn sse_line_events(line: Seq<char>) -> Option<Seq<EventView>> {
    let t = strip_cr(line);
    if is_blank(t) {
        Some(seq![EventView::Ignore])
    } else {
        sse_event_events(t)
    }
}

pub open spec fn has_prefix(s: Seq<char>, p: Seq<char>) -> bool {
    p.len() <= s.len() && s.subrange(0, p.len() as int) == p
}

/// The contract shared by the decoding functions: the events that the
/// model gives, or a runtime error that says the chunk did not decode.
pub open spec fn decoded_as(r: Result<Vec<StreamEvent>, SdkError>, expected: Option<Seq<EventView>>) -> bool {
    match r {
        Ok(v) => expected == Some(events_view(v@)),
        Err(e) => expected is None && e is Runtime && has_prefix(
            e.message(),
            "Failed to parse streaming response chunk"@,
        ),
    }
}

fn chunk_error(detail: &str) -> (e: SdkError)
    ensures
        e is Runtime,
        has_prefix(e.message(), "Failed to parse streaming response chunk"@),
{
    let mut m = "Failed to parse streaming response chunk: ".to_string();
    m.append(detail);
    proof {
        reveal_strlit("Failed to parse streaming response chunk: ");
        reveal_strlit("Failed to parse streaming response chunk");
        assert(m@.subrange(0, 40) =~= "Failed to parse streaming response chunk"@);
    }
    SdkError::Runtime(m)
}

fn is_done_marker(p: &Vec<char>) -> (r: bool)
    ensures
        r == (p@ == "[DONE]"@),
{
    proof {
        reveal_strlit("[DONE]");
    }
    let r = p.len() == 6 && p[0] == '[' && p[1] == 'D' && p[2] == 'O' && p[3] == 'N' && p[4]
        == 'E' && p[5] == ']';
    proof {
        if r {
            assert(p@ =~= "[DONE]"@);
        }
    }
    r
}

/// Decodes one joined `data` payload.
fn parse_sse_data(data: &Vec<char>) -> (r: Result<Vec<StreamEvent>, SdkError>)
    ensures
        decoded_as(r, payload_events(data@)),
{
    if blank(data) {
        let mut v: Vec<StreamEvent> = Vec::new();
        v.push(StreamEvent::Ignore);
        proof {
            assert(events_view(v@) =~= seq![EventView::Ignore]);
        }
        return Ok(v);
    }
    if is_done_marker(data) {
        let mut v: Vec<StreamEvent> = Vec::new();
        v.push(StreamEvent::Done);
        proof {
            assert(events_view(v@) =~= seq![EventView::Done]);
        }
        return Ok(v);
    }
    let text = string_of(data);
    match parse_json(text.as_str()) {
        Err(msg) => Err(chunk_error(msg.as_str())),
        Ok(j) => match chunk_to_events(&j) {
            Some(v) => Ok(v),
            None => Err(chunk_error("the document is not a streaming chunk")),
        },
    }
}

proof fn lemma_split_lines_len(s: Seq<char>)
    ensures
        split_lines(s).len() >= 1,
    decreases s.len(),
{
    if s.len() > 0 {
        lemma_split_lines_len(s.drop_last());
    }
}

/// The payload of the line `cs[start..end]` where it is a `data:` line.
fn line_payload(cs: &Vec<char>, start: usize, end: usize) -> (r: Option<Vec<char>>)
    requires
        start <= end <= cs@.len(),
    ensures
        ({
            let l = strip_cr(cs@.subrange(start as int, end as int));
            &&& r is Some <==> is_data_line(l)
            &&& r is Some ==> r->0@ == trim_start(l.subrange(5, l.len() as int))
        }),
{
    let mut e = end;
    while e > start && cs[e - 1] == '\r'
        invariant
            start <= e <= end <= cs@.len(),
            strip_cr(cs@.subrange(start as int, e as int)) == strip_cr(
                cs@.subrange(start as int, end as int),
            ),
        decreases e,
    {
        proof {
            assert(cs@.subrange(start as int, e as int).drop_last() =~= cs@.subrange(
                start as int,
                e - 1,
            ));
        }
        e = e - 1;
    }
    let ghost l = cs@.subrange(start as int, e as int);
    assert(strip_cr(l) == l) by {
        if l.len() > 0 {
            assert(l.last() == cs@[e - 1]);
        }
    }
    proof {
        reveal_strlit("data:");
    }
    if e - start < 5 || cs[start] != 'd' || cs[start + 1] != 'a' || cs[start + 2] != 't' || cs[start
        + 3] != 'a' || cs[start + 4] != ':' {
        proof {
            if l.len() >= 5 {
                assert(l.subrange(0, 5)[0] == cs@[start as int]);
                assert(l.subrange(0, 5)[1] == cs@[start + 1]);
                assert(l.subrange(0, 5)[2] == cs@[start + 2]);
                assert(l.subrange(0, 5)[3] == cs@[start + 3]);
                assert(l.subrange(0, 5)[4] == cs@[start + 4]);
            }
        }
        return None;
    }
    assert(l.subrange(0, 5) =~= "data:"@);
    let mut k = start + 5;
    while k < e && is_space_char(cs[k])
        invariant
            start + 5 <= k <= e <= cs@.len(),
            trim_start(cs@.subrange(k as int, e as int)) == trim_start(
                cs@.subrange(start + 5, e as int),
            ),
        decreases e - k,
    {
        proof {
            assert(cs@.subrange(k as int, e as int).drop_first() =~= cs@.subrange(
                k + 1,
                e as int,
            ));
        }
        k = k + 1;
    }
    let mut out: Vec<char> = Vec::new();
    let mut m = k;
    while m < e
        invariant
            k <= m <= e <= cs@.len(),
            out@ == cs@.subrange(k as int, m as int),
        decreases e - m,
    {
        out.push(cs[m]);
        m = m + 1;
        proof {
            assert(out@ =~= cs@.subrange(k as int, m as int));
        }
    }
    proof {
        let t = cs@.subrange(k as int, e as int);
        if t.len() > 0 {
            assert(t[0] == cs@[k as int]);
        }
        assert(trim_start(t) == t);
        assert(l.subrange(5, l.len() as int) =~= cs@.subrange(start + 5, e as int));
    }
    Some(out)
}

/// Adds one more payload to the joined payloads.
fn append_payload(payload: &mut Vec<char>, first: bool, p: &Vec<char>)
    ensures
        final(payload)@ == if first {
            p@
        } else {
            old(payload)@ + seq!['\n'] + p@
        },
{
    if first {
        payload.clear();
    } else {
        payload.push('\n');
    }
    let ghost before = payload@;
    let mut m: usize = 0;
    while m < p.len()
        invariant
            m <= p@.len(),
            payload@ == before + p@.subrange(0, m as int),
        decreases p@.len() - m,
    {
        payload.push(p[m]);
        m = m + 1;
        proof {
            assert(payload@ =~= before + p@.subrange(0, m as int));
        }
    }
    proof {
        assert(p@.subrange(0, p@.len() as int) =~= p@);
        if first {
            assert(payload@ =~= p@);
        }
    }
}

proof fn lemma_payloads_push(ls: Seq<Seq<char>>, p: Seq<char>)
    requires
        ls.len() >= 1,
        ({
            let l = strip_cr(ls.last());
            is_data_line(l) && p == trim_start(l.subrange(5, l.len() as int))
        }),
    ensures
        data_payloads(ls) == data_payloads(ls.drop_last()).push(p),
        join_lines(data_payloads(ls)) == if data_payloads(ls.drop_last()).len() == 0 {
            p
        } else {
            join_lines(data_payloads(ls.drop_last())) + seq!['\n'] + p
        },
{
    let d1 = data_payloads(ls);
    assert(d1.drop_last() =~= data_payloads(ls.drop_last()));
}

/// Decodes one server-sent event: the payloads of its `data:` lines are
/// joined with newlines and decoded together; an event without a `data:`
/// line is ignored.
pub fn parse_sse_event(event: &str) -> (r: Result<Vec<StreamEvent>, SdkError>)
    ensures
        decoded_as(r, sse_event_events(event@)),
{
    let cs = chars_of(event);
    let mut payload: Vec<char> = Vec::new();
    let mut found = false;
    let mut start: usize = 0;
    let mut i: usize = 0;
    while i < cs.len()
        invariant
            start <= i <= cs@.len(),
            ({
                let ls = split_lines(cs@.subrange(0, i as int));
                &&& ls.len() >= 1
                &&& ls.last() == cs@.subrange(start as int, i as int)
                &&& (data_payloads(ls.drop_last()).len() > 0) == found
                &&& join_lines(data_payloads(ls.drop_last())) == payload@
            }),
        decreases cs@.len() - i,
    {
        let ghost pre = cs@.subrange(0, i as int);
        let ghost ls = split_lines(pre);
        proof {
            assert(cs@.subrange(0, i + 1).drop_last() =~= pre);
            lemma_split_lines_len(pre);
        }
        if cs[i] == '\n' {
            proof {
                let ls2 = split_lines(cs@.subrange(0, i + 1));
                assert(ls2 == ls.push(Seq::empty()));
                assert(ls2.drop_last() =~= ls);
            }
            match line_payload(&cs, start, i) {
                Some(p) => {
                    proof {
                        lemma_payloads_push(ls, p@);
                    }
                    append_payload(&mut payload, !found, &p);
                    found = true;
                },
                None => {
                    proof {
                        assert(data_payloads(ls) == data_payloads(ls.drop_last()));
                    }
                },
            }
            start = i + 1;
        } else {
            proof {
                let ls2 = split_lines(cs@.subrange(0, i + 1));
                assert(ls2.drop_last() =~= ls.drop_last());
                assert(ls2.last() =~= cs@.subrange(start as int, i + 1));
            }
        }
        i = i + 1;
    }
    let ghost ls = split_lines(cs@);
    proof {
        assert(cs@.subrange(0, cs@.len() as int) =~= cs@);
    }
    match line_payload(&cs, start, i) {
        Some(p) => {
            proof {
                lemma_payloads_push(ls, p@);
            }
            append_payload(&mut payload, !found, &p);
            found = true;
        },
        None => {
            proof {
                assert(data_payloads(ls) == data_payloads(ls.drop_last()));
            }
        },
    }
    if !found {
        let mut v: Vec<StreamEvent> = Vec::new();
        v.push(StreamEvent::Ignore);
        proof {
            assert(events_view(v@) =~= seq![EventView::Ignore]);
        }
        return Ok(v);
    }
    parse_sse_data(&payload)
}

/// Decodes one line read as a whole event: trailing carriage returns are
/// dropped, and a blank line is ignored.
pub fn parse_sse_line(line: &str) -> (r: Result<Vec<StreamEvent>, SdkError>)
    ensures
        decoded_as(r, sse_line_events(line@)),
{
    let mut cs = chars_of(line);
    while cs.len() > 0 && cs[cs.len() - 1] == '\r'
        invariant
            strip_cr(cs@) == strip_cr(line@),
        decreases cs@.len(),
    {
        cs.pop();
    }
    proof {
        if cs@.len() > 0 {
            assert(strip_cr(cs@) == cs@);
        }
    }
    if blank(&cs) {
        let mut v: Vec<StreamEvent> = Vec::new();
        v.push(StreamEvent::Ignore);
        proof {
            assert(events_view(v@) =~= seq![EventView::Ignore]);
        }
        return Ok(v);
    }
    let trimmed = string_of(&cs);
    parse_sse_event(trimmed.as_str())
}

/// The text that `reqwest::StatusCode` displays for `code`: the number and
/// its canonical reason.
pub uninterp spec fn status_text_of(code: u16) -> Seq<char>;

/// Relies on `reqwest::StatusCode::from_u16`, which accepts 100 to 999, and
/// on the status code's `Display`.
#[verifier::external_body]
fn status_text(code: u16) -> (r: String)
    requires
        100 <= code <= 999,
    ensures
        r@ == status_text_of(code),
{
    match reqwest::StatusCode::from_u16(code) {
        Ok(status) => status.to_string(),
        Err(e) => e.to_string(),
    }
}

/// The `error.message` of an API error body `{"error": {"message": ...}}`.
pub open spec fn error_body_message(text: Seq<char>) -> Option<Seq<char>> {
    match json_of(text) {
        Some(Json::Object(fs)) => match member(fs@, "error"@) {
            Some(Json::Object(es)) => match member(es@, "message"@) {
                Some(Json::Text(m)) => Some(m@),
                _ => None,
            },
            _ => None,
        },
        _ => None,
    }
}

fn read_error_message(text: &str) -> (r: Option<String>)
    ensures
        text_view(r) == error_body_message(text@),
{
    match parse_json(text) {
        Ok(Json::Object(fs)) => match get_member(&fs, &"error".to_string()) {
            Some(Json::Object(es)) => match get_member(es, &"message".to_string()) {
                Some(Json::Text(m)) => Some(m.clone()),
                _ => None,
            },
            _ => None,
        },
        _ => None,
    }
}

/// The message for an unsuccessful response with the status text
/// `status_label`: `API error (<status>): ` and the error body's
/// `error.message`, or the raw body where it has none.
pub fn format_api_error(status_label: &str, response_text: &str) -> (r: String)
    ensures
        r@ == "API error ("@ + status_label@ + "): "@ + match error_body_message(
            response_text@,
        ) {
            Some(m) => m,
            None => response_text@,
        },
{
    let mut out = "API error (".to_string();
    out.append(status_label);
    out.append("): ");
    match read_error_message(response_text) {
        Some(m) => out.append(m.as_str()),
        None => out.append(response_text),
    }
    out
}

/// The message for an unsuccessful response with the status `status`.
pub fn api_error_message(status: u16, response_text: &str) -> (r: String)
    requires
        100 <= status <= 999,
    ensures
        r@ == "API error ("@ + status_text_of(status) + "): "@ + match error_body_message(
            response_text@,
        ) {
            Some(m) => m,
            None => response_text@,
        },
{
    let label = status_text(status);
    format_api_error(label.as_str(), response_text)
}

/// One message of a conversation.
#[derive(Debug, Clone)]
pub struct ChatMessage {
    pub role: String,
    pub content: String,
}

pub open spec fn message_view(m: ChatMessage) -> (Seq<char>, Seq<char>) {
    (m.role@, m.content@)
}

pub open spec fn messages_view(v: Seq<ChatMessage>) -> Seq<(Seq<char>, Seq<char>)> {
    v.map_values(|m: ChatMessage| message_view(m))
}

/// The messages of a request: the system prompt first where there is one,
/// then the given messages where there are any, else the prompt as a user
/// message; `None` where there are neither messages nor a prompt.
pub open spec fn built_messages(
    prompt: Option<Seq<char>>,
    system_prompt: Option<Seq<char>>,
    raw: Option<Seq<(Seq<char>, Seq<char>)>>,
) -> Option<Seq<(Seq<char>, Seq<char>)>> {
    let sys = match system_prompt {
        Some(sp) => seq![("system"@, sp)],
        None => Seq::empty(),
    };
    if raw is Some && raw->0.len() > 0 {
        Some(sys + raw->0)
    } else if prompt is Some {
        Some(sys + seq![("user"@, prompt->0)])
    } else {
        None
    }
}

pub open spec fn str_view(o: Option<&str>) -> Option<Seq<char>> {
    match o {
        Some(s) => Some(s@),
        None => None,
    }
}

/// Builds the message list of a request from a prompt, a system prompt and
/// a conversation.
pub fn build_messages(
    prompt: Option<&str>,
    system_prompt: Option<&str>,
    raw_messages: Option<Vec<ChatMessage>>,
) -> (r: Result<Vec<ChatMessage>, SdkError>)
    ensures
        ({
            let raw = match raw_messages {
                Some(ms) => Some(messages_view(ms@)),
                None => None,
            };
            match r {
                Ok(v) => built_messages(str_view(prompt), str_view(system_prompt), raw) == Some(
                    messages_view(v@),
                ),
                Err(e) => built_messages(str_view(prompt), str_view(system_prompt), raw) is None
                    && e is Value && e.message()
                    == "Either 'prompt' or 'messages' must be provided."@,
            }
        }),
{
    let mut messages: Vec<ChatMessage> = Vec::new();
    match system_prompt {
        Some(sys) => {
            messages.push(ChatMessage { role: "system".to_string(), content: sys.to_string() });
        },
        None => {},
    }
    let ghost sys = messages_view(messages@);
    match raw_messages {
        Some(msgs) if msgs.len() > 0 => {
            let mut msgs = msgs;
            let ghost orig = messages_view(msgs@);
            let mut i: usize = 0;
            let n = msgs.len();
            proof {
                assert(messages_view(messages@) =~= sys + orig.subrange(0, 0));
            }
            while msgs.len() > 0
                invariant
                    i + msgs@.len() == n == orig.len(),
                    messages_view(msgs@) == orig.subrange(i as int, n as int),
                    messages_view(messages@) == sys + orig.subrange(0, i as int),
                decreases msgs@.len(),
            {
                let ghost before = msgs@;
                let m = msgs.remove(0);
                proof {
                    assert(m == before[0]);
                    assert(messages_view(before)[0] == orig.subrange(i as int, n as int)[0]);
                    assert(message_view(m) == orig[i as int]);
                    assert forall|k: int| 0 <= k < msgs@.len() implies #[trigger] message_view(
                        msgs@[k],
                    ) == orig[i + 1 + k] by {
                        assert(msgs@[k] == before[k + 1]);
                        assert(messages_view(before)[k + 1] == orig.subrange(i as int, n as int)[k
                            + 1]);
                    }
                    assert(messages_view(msgs@) =~= orig.subrange(i + 1, n as int));
                }
                let ghost mv = messages_view(messages@);
                messages.push(m);
                proof {
                    assert(messages_view(messages@) =~= mv.push(message_view(m)));
                    assert(messages_view(messages@) =~= sys + orig.subrange(0, i + 1));
                }
                i = i + 1;
            }
            proof {
                assert(orig.subrange(0, n as int) =~= orig);
            }
        },
        _ => match prompt {
            Some(p) => {
                messages.push(ChatMessage { role: "user".to_string(), content: p.to_string() });
                proof {
                    assert(messages_view(messages@) =~= sys + seq![("user"@, p@)]);
                }
            },
            None => {
                return Err(SdkError::value("Either 'prompt' or 'messages' must be provided."));
            },
        },
    }
    Ok(messages)
}

/// A complete (not streamed) chat response: the first choice's text and
/// the response's metadata.
#[derive(Debug)]
pub struct ParsedChatResult {
    pub text: String,
    pub usage: Option<Usage>,
    pub finish_reason: Option<String>,
    pub model: Option<String>,
}

pub struct ParsedView {
    pub text: Seq<char>,
    pub usage: Option<Usage>,
    pub finish_reason: Option<Seq<char>>,
    pub model: Option<Seq<char>>,
}

impl View for ParsedChatResult {
    type V = ParsedView;

    open spec fn view(&self) -> ParsedView {
        ParsedView {
            text: self.text@,
            usage: self.usage,
            finish_reason: text_view(self.finish_reason),
            model: text_view(self.model),
        }
    }
}

/// What a complete chat response body holds.
pub enum ChatOutcome {
    /// Not JSON, or not of the response's shape.
    Malformed,
    /// A well-formed response with an empty `choices`.
    NoChoices,
    Parsed(ParsedView),
}

/// The message text and finish reason of one element of a response's
/// `choices`, where it has the shape `{message: {content}, finish_reason?}`.
pub open spec fn response_choice(j: Json) -> Option<(Seq<char>, Option<Seq<char>>)> {
    match j {
        Json::Object(fs) => match member(fs@, "message"@) {
            Some(Json::Object(ms)) => match member(ms@, "content"@) {
                Some(Json::Text(c)) => {
                    let finish = text_field(member(fs@, "finish_reason"@));
                    if finish is Some {
                        Some((c@, finish->0))
                    } else {
                        None
                    }
                },
                _ => None,
            },
            _ => None,
        },
        _ => None,
    }
}

/// What a chat response document `{choices: [...], usage?, model?}` holds.
pub open spec fn chat_document_outcome(j: Json) -> ChatOutcome {
    match j {
        Json::Object(fs) => match member(fs@, "choices"@) {
            Some(Json::Array(cs)) => {
                let usage = usage_field(member(fs@, "usage"@));
                let model = text_field(member(fs@, "model"@));
                if (forall|i: int| 0 <= i < cs@.len() ==> #[trigger] response_choice(cs@[i]) is Some)
                    && usage is Some && model is Some {
                    if cs@.len() == 0 {
                        ChatOutcome::NoChoices
                    } else {
                        let first = response_choice(cs@[0])->0;
                        ChatOutcome::Parsed(
                            ParsedView {
                                text: first.0,
                                usage: usage->0,
                                finish_reason: first.1,
                                model: model->0,
                            },
                        )
                    }
                } else {
                    ChatOutcome::Malformed
                }
            },
            _ => ChatOutcome::Malformed,
        },
        _ => ChatOutcome::Malformed,
    }
}

/// What a chat response body holds.
pub open spec fn chat_outcome(text: Seq<char>) -> ChatOutcome {
    match json_of(text) {
        Some(j) => chat_document_outcome(j),
        None => ChatOutcome::Malformed,
    }
}

fn read_response_choice(j: &Json) -> (r: Option<(String, Option<String>)>)
    ensures
        r is Some <==> response_choice(*j) is Some,
        r is Some ==> ((r->0).0@, text_view((r->0).1)) == response_choice(*j)->0,
{
    match j {
        Json::Object(fs) => match get_member(fs, &"message".to_string()) {
            Some(Json::Object(ms)) => match get_member(ms, &"content".to_string()) {
                Some(Json::Text(c)) => match read_text(
                    get_member(fs, &"finish_reason".to_string()),
                ) {
                    Some(f) => Some((c.clone(), f)),
                    None => None,
                },
                _ => None,
            },
            _ => None,
        },
        _ => None,
    }
}

fn response_error(detail: &str) -> (e: SdkError)
    ensures
        e is Value,
        has_prefix(e.message(), "Failed to parse response"@),
{
    let mut m = "Failed to parse response: ".to_string();
    m.append(detail);
    proof {
        reveal_strlit("Failed to parse response: ");
        reveal_strlit("Failed to parse response");
        assert(m@.subrange(0, 24) =~= "Failed to parse response"@);
    }
    SdkError::Value(m)
}

/// Reads a decoded chat response document: the first choice's text with
/// the usage, finish reason and model.
pub fn read_chat_response(j: &Json) -> (r: Result<ParsedChatResult, SdkError>)
    ensures
        match r {
            Ok(p) => chat_document_outcome(*j) == ChatOutcome::Parsed(p@),
            Err(e) => e is Value && match chat_document_outcome(*j) {
                ChatOutcome::Malformed => has_prefix(e.message(), "Failed to parse response"@),
                ChatOutcome::NoChoices => e.message() == "No choices returned in API response"@,
                ChatOutcome::Parsed(_) => false,
            },
        },
{
    match j {
        Json::Object(fs) => match get_member(fs, &"choices".to_string()) {
            Some(Json::Array(cs)) => {
                let usage = read_usage(get_member(fs, &"usage".to_string()));
                let model = read_text(get_member(fs, &"model".to_string()));
                let mut first: Option<(String, Option<String>)> = None;
                let mut i: usize = 0;
                while i < cs.len()
                    invariant
                        i <= cs@.len(),
                        *j == Json::Object(*fs),
                        member(fs@, "choices"@) == Some(Json::Array(*cs)),
                        forall|k: int| 0 <= k < i ==> #[trigger] response_choice(cs@[k]) is Some,
                        i > 0 <==> first is Some,
                        i > 0 ==> ((first->0).0@, text_view((first->0).1)) == response_choice(
                            cs@[0],
                        )->0,
                    decreases cs@.len() - i,
                {
                    match read_response_choice(&cs[i]) {
                        Some(c) => {
                            if i == 0 {
                                first = Some(c);
                            }
                        },
                        None => {
                            assert(response_choice(cs@[i as int]) is None);
                            return Err(response_error("a choice is not of the expected shape"));
                        },
                    }
                    i = i + 1;
                }
                match (usage, model) {
                    (Some(u), Some(m)) => match first {
                        Some((text, finish)) => Ok(
                            ParsedChatResult {
                                text: text,
                                usage: u,
                                finish_reason: finish,
                                model: m,
                            },
                        ),
                        None => Err(SdkError::value("No choices returned in API response")),
                    },
                    _ => Err(response_error("usage or model is not of the expected shape")),
                }
            },
            _ => Err(response_error("missing or malformed choices")),
        },
        _ => Err(response_error("the document is not an object")),
    }
}

/// Parses a complete chat response body: the first choice's text with the
/// usage, finish reason and model.
pub fn parse_chat_response_full(response_text: &str) -> (r: Result<ParsedChatResult, SdkError>)
    ensures
        match r {
            Ok(p) => chat_outcome(response_text@) == ChatOutcome::Parsed(p@),
            Err(e) => e is Value && match chat_outcome(response_text@) {
                ChatOutcome::Malformed => has_prefix(e.message(), "Failed to parse response"@),
                ChatOutcome::NoChoices => e.message() == "No choices returned in API response"@,
                ChatOutcome::Parsed(_) => false,
            },
        },
{
    match parse_json(response_text) {
        Ok(j) => read_chat_response(&j),
        Err(msg) => Err(response_error(msg.as_str())),
    }
}

/// Parses a complete chat response body into the first choice's text.
pub fn parse_chat_response(response_text: &str) -> (r: Result<String, SdkError>)
    ensures
        match r {
            Ok(t) => chat_outcome(response_text@) matches ChatOutcome::Parsed(p) && t@ == p.text,
            Err(e) => e is Value && match chat_outcome(response_text@) {
                ChatOutcome::Malformed => has_prefix(e.message(), "Failed to parse response"@),
                ChatOutcome::NoChoices => e.message() == "No choices returned in API response"@,
                ChatOutcome::Parsed(_) => false,
            },
        },
{
    match parse_chat_response_full(response_text) {
        Ok(p) => Ok(p.text),
        Err(e) => Err(e),
    }
}

/// The input of an embeddings request: one text or several.
#[derive(Debug, Clone)]
pub enum EmbeddingInput {
    Single(String),
    Multiple(Vec<String>),
}

/// An embeddings request.
#[derive(Debug, Clone)]
pub struct EmbeddingRequest {
    pub model: String,
    pub input: EmbeddingInput,
}

/// Token counts that the API reports for an embeddings request.
#[derive(Debug, Clone, Copy, PartialEq, Eq)]
pub struct EmbeddingUsage {
    pub prompt_tokens: u64,
    pub total_tokens: u64,
}

} // verus!
