//! The streams of replies that run, and the events that they send to the window.
use std::collections::HashMap;

use vstd::prelude::*;

use crate::json;
use crate::json::{Json, JsonView};
use crate::keyed;

verus! {

// ---------------------------------------------------------------------------
// Events
// ---------------------------------------------------------------------------

/// An event of a stream.
#[derive(Clone, Debug)]
pub enum StreamEvent {
    /// A piece of the reply.
    Delta { text: String },
    /// A piece of the model's reasoning.
    ThinkingDelta { text: String },
    /// The model wants to call a tool; a gated one waits for the user's word.
    ToolCall { call_id: String, name: String, arguments: String, gated: bool },
    /// A tool has finished.
    ToolResult { call_id: String, name: String, ok: bool, output: String },
    /// The turn has ended.
    Done { stop_reason: String },
    /// The turn has failed; what has come so far is kept.
    Error { message: String },
}

/// What an event holds.
#[verifier::ext_equal]
pub enum EventView {
    Delta { text: Seq<char> },
    ThinkingDelta { text: Seq<char> },
    ToolCall { call_id: Seq<char>, name: Seq<char>, arguments: Seq<char>, gated: bool },
    ToolResult { call_id: Seq<char>, name: Seq<char>, ok: bool, output: Seq<char> },
    Done { stop_reason: Seq<char> },
    Error { message: Seq<char> },
}

impl View for StreamEvent {
    type V = EventView;

    open spec fn view(&self) -> EventView {
        match self {
            StreamEvent::Delta { text } => EventView::Delta { text: text@ },
            StreamEvent::ThinkingDelta { text } => EventView::ThinkingDelta { text: text@ },
            StreamEvent::ToolCall { call_id, name, arguments, gated } => EventView::ToolCall {
                call_id: call_id@,
                name: name@,
                arguments: arguments@,
                gated: *gated,
            },
            StreamEvent::ToolResult { call_id, name, ok, output } => EventView::ToolResult {
                call_id: call_id@,
                name: name@,
                ok: *ok,
                output: output@,
            },
            StreamEvent::Done { stop_reason } => EventView::Done { stop_reason: stop_reason@ },
            StreamEvent::Error { message } => EventView::Error { message: message@ },
        }
    }
}

/// What the events hold.
pub open spec fn event_views(v: Seq<StreamEvent>) -> Seq<EventView> {
    Seq::new(v.len(), |i: int| v[i]@)
}

/// Appends an event.
pub fn push_event(events: &mut Vec<StreamEvent>, event: StreamEvent)
    ensures
        event_views(final(events)@) == event_views(old(events)@).push(event@),
{
    events.push(event);
    assert(event_views(events@) =~= event_views(old(events)@).push(event@));
}

/// The document of an event with its kind.
pub open spec fn kind_json(kind: Seq<char>) -> JsonView {
    json::with_member(json::empty_object(), "type"@, JsonView::Text(kind))
}

/// An event as the window reads it: a document that says what kind of event it is.
pub open spec fn event_json(e: EventView) -> JsonView {
    match e {
        EventView::Delta { text } => json::with_member(
            kind_json("delta"@),
            "text"@,
            JsonView::Text(text),
        ),
        EventView::ThinkingDelta { text } => json::with_member(
            kind_json("thinkingDelta"@),
            "text"@,
            JsonView::Text(text),
        ),
        EventView::ToolCall { call_id, name, arguments, gated } => json::with_member(
            json::with_member(
                json::with_member(
                    json::with_member(
                        kind_json("toolCall"@),
                        "callId"@,
                        JsonView::Text(call_id),
                    ),
                    "name"@,
                    JsonView::Text(name),
                ),
                "arguments"@,
                JsonView::Text(arguments),
            ),
            "gated"@,
            JsonView::Bool(gated),
        ),
        EventView::ToolResult { call_id, name, ok, output } => json::with_member(
            json::with_member(
                json::with_member(
                    json::with_member(
                        kind_json("toolResult"@),
                        "callId"@,
                        JsonView::Text(call_id),
                    ),
                    "name"@,
                    JsonView::Text(name),
                ),
                "ok"@,
                JsonView::Bool(ok),
            ),
            "output"@,
            JsonView::Text(output),
        ),
        EventView::Done { stop_reason } => json::with_member(
            kind_json("done"@),
            "stopReason"@,
            JsonView::Text(stop_reason),
        ),
        EventView::Error { message } => json::with_member(
            kind_json("error"@),
            "message"@,
            JsonView::Text(message),
        ),
    }
}

/// An event as the window reads it.
pub fn event_document(event: &StreamEvent) -> (r: Json)
    ensures
        r@ == event_json(event@),
{
    match event {
        StreamEvent::Delta { text } => Json::empty().with("type", Json::text("delta")).with(
            "text",
            Json::text(text.as_str()),
        ),
        StreamEvent::ThinkingDelta { text } => Json::empty().with(
            "type",
            Json::text("thinkingDelta"),
        ).with("text", Json::text(text.as_str())),
        StreamEvent::ToolCall { call_id, name, arguments, gated } => Json::empty().with(
            "type",
            Json::text("toolCall"),
        ).with("callId", Json::text(call_id.as_str())).with("name", Json::text(name.as_str())).with(
            "arguments",
            Json::text(arguments.as_str()),
        ).with("gated", Json::truth(*gated)),
        StreamEvent::ToolResult { call_id, name, ok, output } => Json::empty().with(
            "type",
            Json::text("toolResult"),
        ).with("callId", Json::text(call_id.as_str())).with("name", Json::text(name.as_str())).with(
            "ok",
            Json::truth(*ok),
        ).with("output", Json::text(output.as_str())),
        StreamEvent::Done { stop_reason } => Json::empty().with("type", Json::text("done")).with(
            "stopReason",
            Json::text(stop_reason.as_str()),
        ),
        StreamEvent::Error { message } => Json::empty().with("type", Json::text("error")).with(
            "message",
            Json::text(message.as_str()),
        ),
    }
}

/// Where the events of a stream go.
pub trait EventSink: Send + Sync {
    fn emit(&self, ev: StreamEvent);
}

// ---------------------------------------------------------------------------
// Cancelling
// ---------------------------------------------------------------------------

/// The streams that run, one for each conversation.
///
/// A stream gets a ticket, which is a number. Under its ticket it sees whether it was
/// cancelled, until it gives the ticket back.
pub struct StreamRegistry {
    live: Vec<(String, u64)>,
    flags: HashMap<u64, bool>,
    next: u64,
}

/// What a registry holds: the ticket of the stream of each conversation, by ticket whether
/// the stream was cancelled, and the ticket that comes next.
#[verifier::ext_equal]
pub struct StreamsView {
    pub live: Seq<(Seq<char>, u64)>,
    pub flags: Map<u64, bool>,
    pub next: u64,
}

impl View for StreamRegistry {
    type V = StreamsView;

    closed spec fn view(&self) -> StreamsView {
        StreamsView { live: keyed::pairs(self.live@), flags: self.flags@, next: self.next }
    }
}

/// Whether each conversation has a ticket of its own, and no ticket was given twice.
pub open spec fn consistent(v: StreamsView) -> bool {
    &&& keyed::increasing(v.live)
    &&& forall|i: int| 0 <= i < v.live.len() ==> (#[trigger] v.live[i]).1 < v.next
    &&& forall|i: int, j: int|
        0 <= i < j < v.live.len() ==> (#[trigger] v.live[i]).1 != (#[trigger] v.live[j]).1
    &&& forall|t: u64| #[trigger] v.flags.contains_key(t) ==> t < v.next
}

/// Whether the stream with a ticket was cancelled.
pub open spec fn is_stopped(v: StreamsView, ticket: u64) -> bool {
    v.flags.contains_key(ticket) && v.flags[ticket]
}

/// The registry after a stream began. It takes the place of one that ran for the same
/// conversation, which can no longer be cancelled.
pub open spec fn registered(v: StreamsView, id: Seq<char>) -> StreamsView {
    StreamsView {
        live: keyed::put(v.live, id, v.next),
        flags: v.flags.insert(v.next, false),
        next: (v.next + 1) as u64,
    }
}

/// The registry after a conversation's stream was cancelled.
pub open spec fn cancelled(v: StreamsView, id: Seq<char>) -> StreamsView {
    match keyed::lookup(v.live, id) {
        Some(t) => if v.flags.contains_key(t) {
            StreamsView { flags: v.flags.insert(t, true), ..v }
        } else {
            v
        },
        None => v,
    }
}

/// The registry after a conversation's stream ended.
pub open spec fn removed(v: StreamsView, id: Seq<char>) -> StreamsView {
    StreamsView { live: keyed::without(v.live, id), ..v }
}

/// The registry after a ticket was given back.
pub open spec fn released(v: StreamsView, ticket: u64) -> StreamsView {
    StreamsView { flags: v.flags.remove(ticket), ..v }
}

/// Whether every stream that was cancelled in `a` is so in `b`.
pub open spec fn keeps_cancelled(a: StreamsView, b: StreamsView) -> bool {
    forall|t: u64| is_stopped(a, t) ==> #[trigger] is_stopped(b, t)
}

impl Default for StreamRegistry {
    /// A registry without streams.
    fn default() -> (r: Self)
        ensures
            r@ == (StreamsView { live: Seq::empty(), flags: Map::empty(), next: 0 }),
            consistent(r@),
    {
        let r = StreamRegistry { live: Vec::new(), flags: HashMap::new(), next: 0 };
        assert(r@ =~= (StreamsView { live: Seq::empty(), flags: Map::empty(), next: 0 }));
        r
    }
}

impl StreamRegistry {
    /// Whether there is a ticket for another stream.
    pub fn can_register(&self) -> (r: bool)
        ensures
            r == (self@.next < u64::MAX),
    {
        self.next < u64::MAX
    }

    /// Registers the stream of a conversation and gives its ticket.
    pub fn register(&mut self, id: String) -> (r: u64)
        requires
            consistent(old(self)@),
            old(self)@.next < u64::MAX,
        ensures
            r == old(self)@.next,
            final(self)@ == registered(old(self)@, id@),
            consistent(final(self)@),
            keeps_cancelled(old(self)@, final(self)@),
    {
        broadcast use vstd::std_specs::hash::group_hash_axioms;

        let ghost v = self@;
        proof {
            lemma_registered(v, id@);
        }
        let ticket: u64 = self.next;
        let _ = self.flags.insert(ticket, false);
        keyed::put_under(&mut self.live, id.as_str(), ticket);
        self.next = ticket + 1;
        assert(self@ =~= registered(v, id@));
        ticket
    }

    /// Cancels the stream of a conversation, if one runs.
    pub fn cancel(&mut self, id: &str)
        requires
            consistent(old(self)@),
        ensures
            final(self)@ == cancelled(old(self)@, id@),
            consistent(final(self)@),
            keeps_cancelled(old(self)@, final(self)@),
    {
        broadcast use vstd::std_specs::hash::group_hash_axioms;

        let ghost v = self@;
        proof {
            keyed::lemma_key_index(v.live, id@);
        }
        if let Some(i) = keyed::position(&self.live, id) {
            let t: u64 = self.live[i].1;
            assert(t == v.live[i as int].1);
            if self.flags.contains_key(&t) {
                let _ = self.flags.insert(t, true);
            }
        }
        assert(self@ =~= cancelled(v, id@));
    }

    /// Forgets the stream of a conversation, which has ended.
    pub fn remove(&mut self, id: &str)
        requires
            consistent(old(self)@),
        ensures
            final(self)@ == removed(old(self)@, id@),
            consistent(final(self)@),
            keeps_cancelled(old(self)@, final(self)@),
    {
        let ghost v = self@;
        proof {
            lemma_removed(v, id@);
        }
        let _ = keyed::remove_under(&mut self.live, id);
        assert(self@ =~= removed(v, id@));
    }

    /// Takes back the ticket of a stream that no longer looks at it.
    pub fn release(&mut self, ticket: u64)
        requires
            consistent(old(self)@),
        ensures
            final(self)@ == released(old(self)@, ticket),
            consistent(final(self)@),
    {
        broadcast use vstd::std_specs::hash::group_hash_axioms;

        let ghost v = self@;
        let _ = self.flags.remove(&ticket);
        assert(self@ =~= released(v, ticket));
    }

    /// Whether the stream with a ticket was cancelled.
    pub fn is_cancelled(&self, ticket: u64) -> (r: bool)
        ensures
            r == is_stopped(self@, ticket),
    {
        broadcast use vstd::std_specs::hash::group_hash_axioms;

        match self.flags.get(&ticket) {
            Some(flag) => *flag,
            None => false,
        }
    }
}

/// Registering keeps the registry consistent.
#[verifier::rlimit(30)]
proof fn lemma_registered(v: StreamsView, id: Seq<char>)
    requires
        consistent(v),
        v.next < u64::MAX,
    ensures
        consistent(registered(v, id)),
{
    let w = registered(v, id);
    let n = v.next;
    let p = keyed::place(v.live, id) as int;
    keyed::lemma_put(v.live, id, n);
    keyed::lemma_place(v.live, id);
    let replaced = p < v.live.len() && v.live[p].0 == id;
    assert(w.live[p] == (id, n));
    assert forall|i: int| 0 <= i < w.live.len() implies (#[trigger] w.live[i]).1
        < w.next by {
        if i != p {
            let k = if replaced || i < p {
                i
            } else {
                i - 1
            };
            assert(w.live[i] == v.live[k]);
        }
    }
    assert forall|i: int, j: int| 0 <= i < j < w.live.len() implies (#[trigger] w.live[i]).1 != (
    #[trigger] w.live[j]).1 by {
        let ki = if replaced || i < p {
            i
        } else {
            i - 1
        };
        let kj = if replaced || j < p {
            j
        } else {
            j - 1
        };
        if i == p {
            assert(w.live[j] == v.live[kj]);
        } else if j == p {
            assert(w.live[i] == v.live[ki]);
        } else {
            assert(v.live[ki].1 != v.live[kj].1);
        }
    }
}

/// Removing keeps the registry consistent.
#[verifier::rlimit(30)]
proof fn lemma_removed(v: StreamsView, id: Seq<char>)
    requires
        consistent(v),
    ensures
        consistent(removed(v, id)),
{
    let w = removed(v, id);
    keyed::lemma_without(v.live, id);
    keyed::lemma_key_index(v.live, id);
    if let Some(p) = keyed::key_index(v.live, id) {
        assert forall|i: int| 0 <= i < w.live.len() implies (#[trigger] w.live[i]).1
            < w.next by {
            let k = if i < p {
                i
            } else {
                i + 1
            };
            assert(w.live[i] == v.live[k]);
        }
        assert forall|i: int, j: int| 0 <= i < j < w.live.len() implies (#[trigger] w.live[i]).1
            != (#[trigger] w.live[j]).1 by {
            let ki = if i < p {
                i
            } else {
                i + 1
            };
            let kj = if j < p {
                j
            } else {
                j + 1
            };
            assert(v.live[ki].1 != v.live[kj].1);
        }
    }
}

/// A stream that runs is cancelled by its conversation's id, once or twice alike, and
/// no other stream is.
pub proof fn law_cancel_reaches_its_stream(v: StreamsView, id: Seq<char>, other: u64)
    requires
        consistent(v),
        v.next < u64::MAX,
    ensures
        ({
            let running = registered(v, id);
            let stopped = cancelled(running, id);
            &&& !is_stopped(running, v.next)
            &&& is_stopped(stopped, v.next)
            &&& other != v.next ==> is_stopped(stopped, other) == is_stopped(v, other)
            &&& cancelled(stopped, id) == stopped
        }),
{
    let running = registered(v, id);
    keyed::lemma_put(v.live, id, v.next);
    assert(cancelled(cancelled(running, id), id) =~= cancelled(running, id));
}

/// A stream that has ended is not cancelled any more.
pub proof fn law_ended_stream_is_left_alone(v: StreamsView, id: Seq<char>)
    requires
        consistent(v),
    ensures
        cancelled(removed(v, id), id) == removed(v, id),
{
    keyed::lemma_without(v.live, id);
}

/// A stream that has ended and has given its ticket back leaves nothing behind, whether or
/// not it was cancelled.
pub proof fn law_ended_stream_leaves_nothing(v: StreamsView, id: Seq<char>, stopped: bool)
    requires
        consistent(v),
        v.next < u64::MAX,
    ensures
        ({
            let running = registered(v, id);
            let last = if stopped {
                cancelled(running, id)
            } else {
                running
            };
            let ended = released(removed(last, id), v.next);
            ended.flags == v.flags && keyed::lookup(ended.live, id) is None
        }),
{
    let running = registered(v, id);
    keyed::lemma_put(v.live, id, v.next);
    keyed::lemma_without(running.live, id);
    assert(!v.flags.contains_key(v.next));
    assert(running.flags.remove(v.next) =~= v.flags);
    assert(running.flags.insert(v.next, true).remove(v.next) =~= v.flags);
}

/// The document of an event says of which kind it is and holds all that the event does,
/// each under its own name.
pub proof fn law_events_are_told(a: Seq<char>, b: Seq<char>, c: Seq<char>, flag: bool)
    ensures
        ({
            let j = event_json(EventView::Delta { text: a });
            json::member_text(j, "type"@) == Some("delta"@) && json::member_text(j, "text"@) == Some(
                a,
            )
        }),
        ({
            let j = event_json(EventView::ThinkingDelta { text: a });
            json::member_text(j, "type"@) == Some("thinkingDelta"@) && json::member_text(j, "text"@)
                == Some(a)
        }),
        ({
            let j = event_json(EventView::Done { stop_reason: a });
            json::member_text(j, "type"@) == Some("done"@) && json::member_text(j, "stopReason"@)
                == Some(a)
        }),
        ({
            let j = event_json(EventView::Error { message: a });
            json::member_text(j, "type"@) == Some("error"@) && json::member_text(j, "message"@)
                == Some(a)
        }),
        ({
            let j = event_json(
                EventView::ToolCall { call_id: a, name: b, arguments: c, gated: flag },
            );
            json::member_text(j, "type"@) == Some("toolCall"@) && json::member_text(j, "callId"@)
                == Some(a) && json::member_text(j, "name"@) == Some(b) && json::member_text(
                j,
                "arguments"@,
            ) == Some(c) && json::member_bool(j, "gated"@) == Some(flag)
        }),
        ({
            let j = event_json(EventView::ToolResult { call_id: a, name: b, ok: flag, output: c });
            json::member_text(j, "type"@) == Some("toolResult"@) && json::member_text(j, "callId"@)
                == Some(a) && json::member_text(j, "name"@) == Some(b) && json::member_bool(j, "ok"@)
                == Some(flag) && json::member_text(j, "output"@) == Some(c)
        }),
{
    lemma_one_member("delta"@, "text"@, a);
    lemma_one_member("thinkingDelta"@, "text"@, a);
    lemma_one_member("done"@, "stopReason"@, a);
    lemma_one_member("error"@, "message"@, a);
    lemma_call_members(a, b, c, flag);
    lemma_result_members(a, b, c, flag);
}

/// The names of the members differ from that of the kind.
proof fn lemma_member_names()
    ensures
        "type"@.len() == 4,
        "type"@[0] == 't' && "type"@[1] == 'y',
        "text"@.len() == 4,
        "text"@[1] == 'e',
        "name"@.len() == 4,
        "name"@[0] == 'n',
        "stopReason"@.len() == 10,
        "message"@.len() == 7,
        "callId"@.len() == 6,
        "callId"@[0] == 'c',
        "arguments"@.len() == 9,
        "gated"@.len() == 5,
        "ok"@.len() == 2,
        "output"@.len() == 6,
        "output"@[0] == 'o',
{
    reveal_strlit("type");
    reveal_strlit("text");
    reveal_strlit("name");
    reveal_strlit("stopReason");
    reveal_strlit("message");
    reveal_strlit("callId");
    reveal_strlit("arguments");
    reveal_strlit("gated");
    reveal_strlit("ok");
    reveal_strlit("output");
}

/// An event with one text.
proof fn lemma_one_member(kind: Seq<char>, key: Seq<char>, s: Seq<char>)
    requires
        key == "text"@ || key == "stopReason"@ || key == "message"@,
    ensures
        ({
            let j = json::with_member(kind_json(kind), key, JsonView::Text(s));
            json::member_text(j, "type"@) == Some(kind) && json::member_text(j, key) == Some(s)
        }),
{
    lemma_member_names();
    json::lemma_with_member(json::empty_object(), "type"@, JsonView::Text(kind));
    json::lemma_with_member(kind_json(kind), key, JsonView::Text(s));
}

/// The event of a call.
proof fn lemma_call_members(a: Seq<char>, b: Seq<char>, c: Seq<char>, flag: bool)
    ensures
        ({
            let j = event_json(
                EventView::ToolCall { call_id: a, name: b, arguments: c, gated: flag },
            );
            json::member_text(j, "type"@) == Some("toolCall"@) && json::member_text(j, "callId"@)
                == Some(a) && json::member_text(j, "name"@) == Some(b) && json::member_text(
                j,
                "arguments"@,
            ) == Some(c) && json::member_bool(j, "gated"@) == Some(flag)
        }),
{
    lemma_member_names();
    let k = kind_json("toolCall"@);
    let k1 = json::with_member(k, "callId"@, JsonView::Text(a));
    let k2 = json::with_member(k1, "name"@, JsonView::Text(b));
    let k3 = json::with_member(k2, "arguments"@, JsonView::Text(c));
    json::lemma_with_member(json::empty_object(), "type"@, JsonView::Text("toolCall"@));
    json::lemma_with_member(k, "callId"@, JsonView::Text(a));
    json::lemma_with_member(k1, "name"@, JsonView::Text(b));
    json::lemma_with_member(k2, "arguments"@, JsonView::Text(c));
    json::lemma_with_member(k3, "gated"@, JsonView::Bool(flag));
}

/// The event of an output.
proof fn lemma_result_members(a: Seq<char>, b: Seq<char>, c: Seq<char>, flag: bool)
    ensures
        ({
            let j = event_json(EventView::ToolResult { call_id: a, name: b, ok: flag, output: c });
            json::member_text(j, "type"@) == Some("toolResult"@) && json::member_text(j, "callId"@)
                == Some(a) && json::member_text(j, "name"@) == Some(b) && json::member_bool(j, "ok"@)
                == Some(flag) && json::member_text(j, "output"@) == Some(c)
        }),
{
    lemma_member_names();
    let k = kind_json("toolResult"@);
    let k1 = json::with_member(k, "callId"@, JsonView::Text(a));
    let k2 = json::with_member(k1, "name"@, JsonView::Text(b));
    let k3 = json::with_member(k2, "ok"@, JsonView::Bool(flag));
    json::lemma_with_member(json::empty_object(), "type"@, JsonView::Text("toolResult"@));
    json::lemma_with_member(k, "callId"@, JsonView::Text(a));
    json::lemma_with_member(k1, "name"@, JsonView::Text(b));
    json::lemma_with_member(k2, "ok"@, JsonView::Bool(flag));
    json::lemma_with_member(k3, "output"@, JsonView::Text(c));
}

/// Streams under other ids run on, whatever happens to one.
pub proof fn law_other_streams_run_on(
    v: StreamsView,
    id: Seq<char>,
    other: Seq<char>,
    ticket: u64,
)
    requires
        consistent(v),
        v.next < u64::MAX,
        other != id,
        keyed::lookup(v.live, other) == Some(ticket),
    ensures
        keyed::lookup(registered(v, id).live, other) == Some(ticket),
        keyed::lookup(registered(v, id).live, id) == Some(v.next),
        keyed::lookup(cancelled(v, id).live, other) == Some(ticket),
        keyed::lookup(removed(v, id).live, other) == Some(ticket),
        keyed::lookup(removed(v, id).live, id) is None,
        is_stopped(registered(v, id), ticket) == is_stopped(v, ticket),
        is_stopped(cancelled(v, id), ticket) == is_stopped(v, ticket),
        is_stopped(removed(v, id), ticket) == is_stopped(v, ticket),
{
    keyed::lemma_put(v.live, id, v.next);
    keyed::lemma_without(v.live, id);
    keyed::lemma_key_index(v.live, id);
    keyed::lemma_key_index(v.live, other);
    let i = keyed::key_index(v.live, other)->0;
    if let Some(p) = keyed::key_index(v.live, id) {
        assert(p != i);
        if p < i {
            assert(v.live[p].1 != v.live[i].1);
        } else {
            assert(v.live[i].1 != v.live[p].1);
        }
    }
}

} // verus!
