//! One round of a turn: the stream of a completion, read event by event.
//!
//! The caller reads bytes from the network and hands them in; [`Completion`] says
//! after each step what is to be done next.
use vstd::prelude::*;
use vstd::string::*;

use crate::digits;
use crate::json;
use crate::json::{Json, JsonView};
use crate::sse;
use crate::stream;
use crate::stream::{EventView, StreamEvent};
use crate::text;
use crate::tools;
use crate::tools::{CallView, ToolCall};

verus! {

// ---------------------------------------------------------------------------
// What a round has produced
// ---------------------------------------------------------------------------

/// A call of a tool as far as it has been streamed.
pub struct Slot {
    pub index: u32,
    pub id: Option<String>,
    pub name: Option<String>,
    pub arguments: String,
}

/// What a slot holds.
#[verifier::ext_equal]
pub struct SlotView {
    pub index: u32,
    pub id: Option<Seq<char>>,
    pub name: Option<Seq<char>>,
    pub arguments: Seq<char>,
}

impl View for Slot {
    type V = SlotView;

    open spec fn view(&self) -> SlotView {
        SlotView {
            index: self.index,
            id: text::opt_text(self.id),
            name: text::opt_text(self.name),
            arguments: self.arguments@,
        }
    }
}

/// What the slots hold.
pub open spec fn slot_views(v: Seq<Slot>) -> Seq<SlotView> {
    Seq::new(v.len(), |i: int| v[i]@)
}

/// What a round has produced so far.
pub struct Round {
    pub text: String,
    pub thinking: String,
    pub usage: Option<Json>,
    pub finish: Option<String>,
    pub failed: bool,
    pub calls: Vec<Slot>,
}

/// What a round holds.
#[verifier::ext_equal]
pub struct RoundView {
    pub text: Seq<char>,
    pub thinking: Seq<char>,
    pub usage: Option<JsonView>,
    pub finish: Option<Seq<char>>,
    pub failed: bool,
    pub calls: Seq<SlotView>,
}

impl View for Round {
    type V = RoundView;

    open spec fn view(&self) -> RoundView {
        RoundView {
            text: self.text@,
            thinking: self.thinking@,
            usage: json::opt_view(self.usage),
            finish: text::opt_text(self.finish),
            failed: self.failed,
            calls: slot_views(self.calls@),
        }
    }
}

/// A round that has produced nothing.
pub open spec fn nothing() -> RoundView {
    RoundView {
        text: Seq::empty(),
        thinking: Seq::empty(),
        usage: None,
        finish: None,
        failed: false,
        calls: Seq::empty(),
    }
}

impl Round {
    /// A round that has produced nothing.
    pub fn new() -> (r: Self)
        ensures
            r@ == nothing(),
    {
        let r = Round {
            text: String::new(),
            thinking: String::new(),
            usage: None,
            finish: None,
            failed: false,
            calls: Vec::new(),
        };
        assert(r@ =~= nothing());
        r
    }
}

/// A round and the events that it has sent.
#[verifier::ext_equal]
pub struct StepView {
    pub round: RoundView,
    pub events: Seq<EventView>,
}

/// A round and its events by what they hold.
pub open spec fn step_view(round: &Round, events: &Vec<StreamEvent>) -> StepView {
    StepView { round: round@, events: stream::event_views(events@) }
}

/// After a piece of the reply; an empty one says nothing.
pub open spec fn said(s: StepView, t: Seq<char>) -> StepView {
    if t.len() == 0 {
        s
    } else {
        StepView {
            round: RoundView { text: s.round.text + t, ..s.round },
            events: s.events.push(EventView::Delta { text: t }),
        }
    }
}

/// After a piece of reasoning; an empty one says nothing.
pub open spec fn thought(s: StepView, t: Seq<char>) -> StepView {
    if t.len() == 0 {
        s
    } else {
        StepView {
            round: RoundView { thinking: s.round.thinking + t, ..s.round },
            events: s.events.push(EventView::ThinkingDelta { text: t }),
        }
    }
}

/// After a failure.
pub open spec fn broke(s: StepView, message: Seq<char>) -> StepView {
    StepView {
        round: RoundView { failed: true, ..s.round },
        events: s.events.push(EventView::Error { message }),
    }
}

/// Adds a piece of the reply.
fn say(round: &mut Round, t: &str, events: &mut Vec<StreamEvent>)
    ensures
        step_view(final(round), final(events)) == said(step_view(old(round), old(events)), t@),
{
    if !t.is_empty() {
        round.text.append(t);
        stream::push_event(events, StreamEvent::Delta { text: t.to_owned() });
    }
    assert(step_view(round, events) =~= said(step_view(old(round), old(events)), t@));
}

/// Adds a piece of reasoning.
fn think(round: &mut Round, t: &str, events: &mut Vec<StreamEvent>)
    ensures
        step_view(final(round), final(events)) == thought(step_view(old(round), old(events)), t@),
{
    if !t.is_empty() {
        round.thinking.append(t);
        stream::push_event(events, StreamEvent::ThinkingDelta { text: t.to_owned() });
    }
    assert(step_view(round, events) =~= thought(step_view(old(round), old(events)), t@));
}

/// Notes a failure.
fn fail(round: &mut Round, message: String, events: &mut Vec<StreamEvent>)
    ensures
        step_view(final(round), final(events)) == broke(
            step_view(old(round), old(events)),
            message@,
        ),
{
    round.failed = true;
    stream::push_event(events, StreamEvent::Error { message });
    assert(step_view(round, events) =~= broke(step_view(old(round), old(events)), message@));
}

// ---------------------------------------------------------------------------
// Fragments of calls
// ---------------------------------------------------------------------------

/// How many of the leading slots have a smaller index.
pub open spec fn slot_place(calls: Seq<SlotView>, index: u32) -> nat
    decreases calls.len(),
{
    if calls.len() > 0 && calls[0].index < index {
        1 + slot_place(calls.drop_first(), index)
    } else {
        0
    }
}

/// The index that a fragment gives: 0 where it gives none, and cut to 32 bits.
pub open spec fn fragment_index(fragment: JsonView) -> u32 {
    match json::member_u64(fragment, "index"@) {
        Some(i) => i as u32,
        None => 0,
    }
}

/// A text of the function that a fragment names.
pub open spec fn function_text(fragment: JsonView, key: Seq<char>) -> Option<Seq<char>> {
    match json::member(fragment, "function"@) {
        Some(f) => json::member_text(f, key),
        None => None,
    }
}

/// A slot with what a fragment adds to it: the id and the name replace what was there,
/// and the arguments are appended.
pub open spec fn filled(slot: SlotView, fragment: JsonView) -> SlotView {
    SlotView {
        index: slot.index,
        id: match json::member_text(fragment, "id"@) {
            Some(id) => Some(id),
            None => slot.id,
        },
        name: match function_text(fragment, "name"@) {
            Some(name) => Some(name),
            None => slot.name,
        },
        arguments: match function_text(fragment, "arguments"@) {
            Some(a) => slot.arguments + a,
            None => slot.arguments,
        },
    }
}

/// A slot without anything in it.
pub open spec fn blank_slot(index: u32) -> SlotView {
    SlotView { index, id: None, name: None, arguments: Seq::empty() }
}

/// The slots after a fragment: that with its index is filled, or a new one in its place
/// in the order.
pub open spec fn with_fragment(calls: Seq<SlotView>, fragment: JsonView) -> Seq<SlotView> {
    let index = fragment_index(fragment);
    let p = slot_place(calls, index) as int;
    if p < calls.len() && calls[p].index == index {
        calls.update(p, filled(calls[p], fragment))
    } else {
        calls.insert(p, filled(blank_slot(index), fragment))
    }
}

/// The slots after fragments.
pub open spec fn with_fragments(calls: Seq<SlotView>, fragments: Seq<JsonView>) -> Seq<SlotView>
    decreases fragments.len(),
{
    if fragments.len() == 0 {
        calls
    } else {
        with_fragment(with_fragments(calls, fragments.drop_last()), fragments.last())
    }
}

/// Adds to a slot what a fragment holds.
fn fill(slot: &mut Slot, fragment: &Json)
    ensures
        final(slot)@ == filled(old(slot)@, fragment@),
{
    if let Some(id) = fragment.get_str("id") {
        slot.id = Some(id.to_owned());
    }
    if let Some(f) = fragment.get("function") {
        if let Some(name) = f.get_str("name") {
            slot.name = Some(name.to_owned());
        }
        if let Some(a) = f.get_str("arguments") {
            slot.arguments.append(a);
        }
    }
    assert(slot@ =~= filled(old(slot)@, fragment@));
}

/// Adds a fragment to the slots.
fn add_fragment(calls: &mut Vec<Slot>, fragment: &Json)
    ensures
        slot_views(final(calls)@) == with_fragment(slot_views(old(calls)@), fragment@),
{
    let ghost s = slot_views(calls@);
    let index: u32 = match fragment.get_u64("index") {
        Some(i) => #[verifier::truncate] (i as u32),
        None => 0,
    };
    let mut i: usize = 0;
    assert(s.skip(0) =~= s);
    while i < calls.len() && calls[i].index < index
        invariant
            i <= calls@.len(),
            s == slot_views(calls@),
            slot_place(s, index) == i + slot_place(s.skip(i as int), index),
        decreases calls@.len() - i,
    {
        assert(s.skip(i as int)[0] == s[i as int]);
        assert(s.skip(i as int).drop_first() =~= s.skip(i + 1));
        i += 1;
    }
    proof {
        if i < s.len() {
            assert(s.skip(i as int)[0] == s[i as int]);
        }
        assert(slot_place(s, index) == i);
    }
    if i < calls.len() && calls[i].index == index {
        let mut slot = calls.remove(i);
        fill(&mut slot, fragment);
        calls.insert(i, slot);
    } else {
        let mut slot = Slot { index, id: None, name: None, arguments: String::new() };
        assert(slot@ =~= blank_slot(index));
        fill(&mut slot, fragment);
        calls.insert(i, slot);
    }
    assert(slot_views(calls@) =~= with_fragment(s, fragment@));
}

// ---------------------------------------------------------------------------
// Chunks
// ---------------------------------------------------------------------------

/// What is told of an error that a provider sent: its text, the message in it, or all
/// of it.
pub open spec fn error_text(err: JsonView) -> Seq<char> {
    match json::text_of(err) {
        Some(s) => s,
        None => match json::member_text(err, "message"@) {
            Some(m) => m,
            None => json::written(err),
        },
    }
}

/// What is told of an error that a provider sent.
pub fn error_message(err: &Json) -> (r: String)
    ensures
        r@ == error_text(err@),
{
    if let Some(s) = err.as_str() {
        return s.to_owned();
    }
    if let Some(m) = err.get_str("message") {
        return m.to_owned();
    }
    json::to_text(err)
}

/// The text of a part that holds reasoning.
pub open spec fn reasoning_in(part: JsonView) -> Seq<char> {
    let holder = match json::member(part, "text"@) {
        Some(v) => Some(v),
        None => json::member(part, "thinking"@),
    };
    match holder {
        Some(JsonView::Text(t)) => t,
        _ => Seq::empty(),
    }
}

/// After a part of the content: text, reasoning, or something that is passed over.
pub open spec fn part_applied(s: StepView, part: JsonView) -> StepView {
    match json::member_text(part, "type"@) {
        Some(kind) => if kind == "text"@ || kind == "output_text"@ {
            said(s, json::member_text_or_empty(part, "text"@))
        } else if kind == "thinking"@ || kind == "reasoning"@ || kind == "reasoning_content"@ {
            thought(s, reasoning_in(part))
        } else {
            s
        },
        None => s,
    }
}

/// After parts of the content.
pub open spec fn parts_applied(s: StepView, parts: Seq<JsonView>) -> StepView
    decreases parts.len(),
{
    if parts.len() == 0 {
        s
    } else {
        part_applied(parts_applied(s, parts.drop_last()), parts.last())
    }
}

/// After the content of a delta: a text, or parts.
pub open spec fn content_applied(s: StepView, delta: JsonView) -> StepView {
    match json::member(delta, "content"@) {
        Some(JsonView::Text(t)) => said(s, t),
        Some(JsonView::Array(parts)) => parts_applied(s, parts),
        _ => s,
    }
}

/// After a delta: its content, the reasoning beside it, and the fragments of calls.
pub open spec fn delta_applied(s: StepView, delta: JsonView) -> StepView {
    let s1 = content_applied(s, delta);
    let s2 = thought(s1, json::member_text_or_empty(delta, "reasoning_content"@));
    match json::member_items(delta, "tool_calls"@) {
        Some(fragments) => StepView {
            round: RoundView { calls: with_fragments(s2.round.calls, fragments), ..s2.round },
            events: s2.events,
        },
        None => s2,
    }
}

/// The delta of a choice.
pub open spec fn delta_of(choice: JsonView) -> JsonView {
    match json::member(choice, "delta"@) {
        Some(d) => d,
        None => JsonView::Null,
    }
}

/// After a choice, and whether the stream is at its end: the provider may say in place
/// of a reason to finish that it failed.
pub open spec fn choice_applied(s: StepView, choice: JsonView) -> (StepView, bool) {
    match json::member_text(choice, "finish_reason"@) {
        Some(reason) => if reason == "error"@ {
            (broke(s, "provider error"@), true)
        } else if reason.len() > 0 {
            (
                delta_applied(
                    StepView {
                        round: RoundView { finish: Some(reason), ..s.round },
                        events: s.events,
                    },
                    delta_of(choice),
                ),
                false,
            )
        } else {
            (delta_applied(s, delta_of(choice)), false)
        },
        None => (delta_applied(s, delta_of(choice)), false),
    }
}

/// After a chunk, and whether the stream is at its end because of it.
pub open spec fn applied(s: StepView, chunk: JsonView) -> (StepView, bool) {
    match json::member_not_null(chunk, "error"@) {
        Some(err) => (broke(s, error_text(err)), true),
        None => {
            let counted = match json::member_not_null(chunk, "usage"@) {
                Some(usage) => StepView {
                    round: RoundView { usage: Some(usage), ..s.round },
                    events: s.events,
                },
                None => s,
            };
            match json::member_items(chunk, "choices"@) {
                Some(choices) => if choices.len() > 0 {
                    choice_applied(counted, choices[0])
                } else {
                    (counted, false)
                },
                None => (counted, false),
            }
        },
    }
}

/// Applies a part of the content.
fn apply_part(round: &mut Round, part: &Json, events: &mut Vec<StreamEvent>)
    ensures
        step_view(final(round), final(events)) == part_applied(
            step_view(old(round), old(events)),
            part@,
        ),
{
    if let Some(kind) = part.get_str("type") {
        if text::same(kind, "text") || text::same(kind, "output_text") {
            let t = part.get_str_or_empty("text");
            say(round, t.as_str(), events);
        } else if text::same(kind, "thinking") || text::same(kind, "reasoning") || text::same(
            kind,
            "reasoning_content",
        ) {
            let holder = match part.get("text") {
                Some(v) => Some(v),
                None => part.get("thinking"),
            };
            let t = match holder {
                Some(v) => match v.as_str() {
                    Some(t) => t,
                    None => "",
                },
                None => "",
            };
            proof {
                reveal_strlit("");
                assert(t@ =~= reasoning_in(part@));
            }
            think(round, t, events);
        }
    }
}

/// Applies the content of a delta.
fn apply_content(round: &mut Round, delta: &Json, events: &mut Vec<StreamEvent>)
    ensures
        step_view(final(round), final(events)) == content_applied(
            step_view(old(round), old(events)),
            delta@,
        ),
{
    let ghost s = step_view(round, events);
    if let Some(content) = delta.get("content") {
        if let Some(t) = content.as_str() {
            say(round, t, events);
        } else if let Some(parts) = content.as_array() {
            let ghost p = json::views(parts@);
            let mut i: usize = 0;
            assert(p.take(0) =~= Seq::<JsonView>::empty());
            while i < parts.len()
                invariant
                    i <= parts@.len(),
                    p == json::views(parts@),
                    step_view(round, events) == parts_applied(s, p.take(i as int)),
                decreases parts@.len() - i,
            {
                assert(p.take(i + 1).drop_last() =~= p.take(i as int));
                assert(p.take(i + 1).last() == parts@[i as int]@);
                apply_part(round, &parts[i], events);
                i += 1;
            }
            assert(p.take(i as int) =~= p);
        }
    }
}

/// Applies a delta.
fn apply_delta(round: &mut Round, delta: &Json, events: &mut Vec<StreamEvent>)
    ensures
        step_view(final(round), final(events)) == delta_applied(
            step_view(old(round), old(events)),
            delta@,
        ),
{
    apply_content(round, delta, events);
    let t = delta.get_str_or_empty("reasoning_content");
    think(round, t.as_str(), events);
    let ghost s2 = step_view(round, events);
    if let Some(fragments) = delta.get_array("tool_calls") {
        let ghost p = json::views(fragments@);
        let ghost before = *round;
        let mut calls: Vec<Slot> = Vec::new();
        std::mem::swap(&mut calls, &mut round.calls);
        let mut i: usize = 0;
        assert(p.take(0) =~= Seq::<JsonView>::empty());
        while i < fragments.len()
            invariant
                i <= fragments@.len(),
                p == json::views(fragments@),
                slot_views(calls@) == with_fragments(s2.round.calls, p.take(i as int)),
            decreases fragments@.len() - i,
        {
            assert(p.take(i + 1).drop_last() =~= p.take(i as int));
            assert(p.take(i + 1).last() == fragments@[i as int]@);
            add_fragment(&mut calls, &fragments[i]);
            i += 1;
        }
        assert(p.take(i as int) =~= p);
        std::mem::swap(&mut calls, &mut round.calls);
        assert(round@ =~= (RoundView {
            calls: with_fragments(s2.round.calls, p),
            ..s2.round
        }));
    }
}

/// Applies a chunk of the stream; says whether the stream is at its end because of it.
pub fn apply_chunk(round: &mut Round, chunk: &Json, events: &mut Vec<StreamEvent>) -> (r: bool)
    ensures
        (step_view(final(round), final(events)), r) == applied(
            step_view(old(round), old(events)),
            chunk@,
        ),
{
    let ghost s = step_view(round, events);
    if let Some(err) = chunk.get_not_null("error") {
        fail(round, error_message(err), events);
        return true;
    }
    if let Some(usage) = chunk.get_not_null("usage") {
        round.usage = Some(usage.duplicate());
        assert(round@ =~= (RoundView { usage: Some(usage@), ..s.round }));
    }
    let ghost counted = step_view(round, events);
    let choices = match chunk.get_array("choices") {
        Some(c) => c,
        None => {
            return false;
        },
    };
    if choices.len() == 0 {
        return false;
    }
    let choice = &choices[0];
    assert(json::views(choices@)[0] == choice@);
    if let Some(reason) = choice.get_str("finish_reason") {
        if text::same(reason, "error") {
            fail(round, "provider error".to_owned(), events);
            return true;
        }
        if !reason.is_empty() {
            round.finish = Some(reason.to_owned());
            assert(round@ =~= (RoundView { finish: Some(reason@), ..counted.round }));
        }
    }
    match choice.get("delta") {
        Some(delta) => {
            apply_delta(round, delta, events);
        },
        None => {
            let delta = Json::Null;
            assert(delta@ == JsonView::Null) by {
                broadcast use json::lemma_view;

            }
            apply_delta(round, &delta, events);
        },
    }
    false
}

// ---------------------------------------------------------------------------
// Events
// ---------------------------------------------------------------------------

/// After an event, and whether the stream is at its end because of it. What is no JSON
/// is passed over.
pub open spec fn processed(s: StepView, event: Seq<char>) -> (StepView, bool) {
    let e = text::trimmed(event);
    if e == "[DONE]"@ {
        (s, true)
    } else {
        match json::json_parse(e) {
            Some(chunk) => applied(s, chunk),
            None => (s, false),
        }
    }
}

/// Applies an event of the stream; says whether the stream is at its end because of it.
pub fn process_event(round: &mut Round, event: &str, events: &mut Vec<StreamEvent>) -> (r: bool)
    ensures
        (step_view(final(round), final(events)), r) == processed(
            step_view(old(round), old(events)),
            event@,
        ),
{
    let event = text::trim(event);
    if text::same(event.as_str(), "[DONE]") {
        return true;
    }
    match json::parse(event.as_str()) {
        Some(chunk) => apply_chunk(round, &chunk, events),
        None => false,
    }
}

// ---------------------------------------------------------------------------
// The stream
// ---------------------------------------------------------------------------

/// What came from the network.
pub enum Arrival {
    /// Bytes of the body.
    Bytes(Vec<u8>),
    /// The end of the body.
    Closed,
    /// A failure.
    Failed(String),
}

/// What is to be done next for a completion.
#[derive(PartialEq, Eq, Structural, Clone, Copy, Debug)]
pub enum Next {
    /// Step again: there may be more events in what has come.
    Step,
    /// Read from the network.
    Read,
    /// The round is over.
    Finish,
}

/// A completion whose stream is being read.
pub struct Completion {
    round: Round,
    buf: Vec<u8>,
    closed: bool,
    over: bool,
}

/// What a completion holds: what the round has produced, the bytes that belong to no
/// event yet, and whether the body, and the round, are at their end.
#[verifier::ext_equal]
pub struct CompletionView {
    pub round: RoundView,
    pub buf: Seq<u8>,
    pub closed: bool,
    pub over: bool,
}

impl View for Completion {
    type V = CompletionView;

    closed spec fn view(&self) -> CompletionView {
        CompletionView {
            round: self.round@,
            buf: self.buf@,
            closed: self.closed,
            over: self.over,
        }
    }
}

/// A completion of which nothing has come.
pub open spec fn unread() -> CompletionView {
    CompletionView { round: nothing(), buf: Seq::empty(), closed: false, over: false }
}

/// The last step of a stream whose body is at its end: what is left of it is taken for
/// an event that lacks its empty line.
pub open spec fn flushed(c: CompletionView, events: Seq<EventView>) -> (
    CompletionView,
    Seq<EventView>,
) {
    match sse::payload(sse::lossy(c.buf)) {
        Some(p) => {
            let (s, _) = processed(StepView { round: c.round, events }, p);
            (
                CompletionView {
                    round: s.round,
                    buf: Seq::empty(),
                    closed: true,
                    over: true,
                },
                s.events,
            )
        },
        None => (
            CompletionView { round: c.round, buf: Seq::empty(), closed: true, over: true },
            events,
        ),
    }
}

/// A step of a completion: the completion after it, the events sent with those before,
/// and what is to be done next. A stream that was cancelled stops before its next
/// event.
pub open spec fn stepped(c: CompletionView, events: Seq<EventView>, cancelled: bool) -> (
    CompletionView,
    Seq<EventView>,
    Next,
) {
    let rest = sse::after_next(c.buf);
    if c.over {
        (c, events, Next::Finish)
    } else if cancelled {
        (CompletionView { over: true, ..c }, events, Next::Finish)
    } else {
        match sse::next_payload(c.buf) {
            Some(p) => {
                let (s, end) = processed(StepView { round: c.round, events }, p);
                (
                    CompletionView { round: s.round, buf: rest, over: end, ..c },
                    s.events,
                    if end {
                        Next::Finish
                    } else {
                        Next::Step
                    },
                )
            },
            None => if c.closed {
                let (d, sent) = flushed(CompletionView { buf: rest, ..c }, events);
                (d, sent, Next::Finish)
            } else {
                (CompletionView { buf: rest, ..c }, events, Next::Read)
            },
        }
    }
}

/// What an arrival holds.
pub enum ArrivalView {
    Bytes(Seq<u8>),
    Closed,
    Failed(Seq<char>),
}

impl View for Arrival {
    type V = ArrivalView;

    open spec fn view(&self) -> ArrivalView {
        match self {
            Arrival::Bytes(b) => ArrivalView::Bytes(b@),
            Arrival::Closed => ArrivalView::Closed,
            Arrival::Failed(e) => ArrivalView::Failed(e@),
        }
    }
}

/// A completion after something came from the network.
pub open spec fn received(c: CompletionView, events: Seq<EventView>, arrival: ArrivalView) -> (
    CompletionView,
    Seq<EventView>,
) {
    match arrival {
        ArrivalView::Bytes(b) => (CompletionView { buf: c.buf + b, ..c }, events),
        ArrivalView::Closed => (CompletionView { closed: true, ..c }, events),
        ArrivalView::Failed(e) => {
            let s = broke(StepView { round: c.round, events }, "stream error: "@ + e);
            (CompletionView { round: s.round, over: true, ..c }, s.events)
        },
    }
}

/// Everything that a round produced.
pub struct RoundAccum {
    pub text: String,
    pub thinking: String,
    pub usage: Option<Json>,
    pub finish: Option<String>,
    pub failed: bool,
    pub tool_calls: Vec<ToolCall>,
}

/// What a round produced.
#[verifier::ext_equal]
pub struct AccumView {
    pub text: Seq<char>,
    pub thinking: Seq<char>,
    pub usage: Option<JsonView>,
    pub finish: Option<Seq<char>>,
    pub failed: bool,
    pub tool_calls: Seq<CallView>,
}

impl View for RoundAccum {
    type V = AccumView;

    open spec fn view(&self) -> AccumView {
        AccumView {
            text: self.text@,
            thinking: self.thinking@,
            usage: json::opt_view(self.usage),
            finish: text::opt_text(self.finish),
            failed: self.failed,
            tool_calls: tools::call_views(self.tool_calls@),
        }
    }
}

/// The call in a slot. One that came without an id is named by its index, and arguments
/// that are no JSON count as none.
pub open spec fn call_in(slot: SlotView) -> CallView {
    CallView {
        id: match slot.id {
            Some(id) => id,
            None => "call_"@ + digits::decimal(slot.index as nat),
        },
        name: match slot.name {
            Some(name) => name,
            None => Seq::empty(),
        },
        arguments: match json::json_parse(slot.arguments) {
            Some(v) => v,
            None => json::empty_object(),
        },
    }
}

/// What a round produced, with its calls in the order of their indices.
pub open spec fn finished(r: RoundView) -> AccumView {
    AccumView {
        text: r.text,
        thinking: r.thinking,
        usage: r.usage,
        finish: r.finish,
        failed: r.failed,
        tool_calls: Seq::new(r.calls.len(), |i: int| call_in(r.calls[i])),
    }
}

impl Completion {
    /// A completion of which nothing has come.
    pub fn new() -> (r: Self)
        ensures
            r@ == unread(),
    {
        let r = Completion { round: Round::new(), buf: Vec::new(), closed: false, over: false };
        assert(r@ =~= unread());
        r
    }

    /// Steps once; says what is to be done next.
    pub fn step(&mut self, cancelled: bool, events: &mut Vec<StreamEvent>) -> (r: Next)
        ensures
            (final(self)@, stream::event_views(final(events)@), r) == stepped(
                old(self)@,
                stream::event_views(old(events)@),
                cancelled,
            ),
    {
        let ghost sent = stream::event_views(events@);
        if self.over {
            return Next::Finish;
        }
        if cancelled {
            self.over = true;
            return Next::Finish;
        }
        match sse::take_first_event(&mut self.buf) {
            Some(event) => {
                let end = process_event(&mut self.round, event.as_str(), events);
                self.over = end;
                if end {
                    Next::Finish
                } else {
                    Next::Step
                }
            },
            None => if self.closed {
                let residual = sse::decode_lossy(&self.buf);
                self.buf.clear();
                assert(self.buf@ =~= Seq::<u8>::empty());
                if let Some(event) = sse::event_payload(residual.as_str()) {
                    let _ = process_event(&mut self.round, event.as_str(), events);
                }
                self.over = true;
                Next::Finish
            } else {
                Next::Read
            },
        }
    }

    /// Takes what came from the network.
    pub fn receive(&mut self, arrival: Arrival, events: &mut Vec<StreamEvent>)
        ensures
            (final(self)@, stream::event_views(final(events)@)) == received(
                old(self)@,
                stream::event_views(old(events)@),
                arrival@,
            ),
    {
        match arrival {
            Arrival::Bytes(bytes) => {
                let mut bytes = bytes;
                self.buf.append(&mut bytes);
            },
            Arrival::Closed => {
                self.closed = true;
            },
            Arrival::Failed(e) => {
                let mut message = "stream error: ".to_owned();
                message.append(e.as_str());
                fail(&mut self.round, message, events);
                self.over = true;
            },
        }
    }

    /// What the round produced.
    pub fn finish(self) -> (r: RoundAccum)
        ensures
            r@ == finished(self@.round),
    {
        let round = self.round;
        let ghost slots = slot_views(round.calls@);
        let mut tool_calls: Vec<ToolCall> = Vec::new();
        let mut i: usize = 0;
        while i < round.calls.len()
            invariant
                i <= round.calls@.len(),
                slots == slot_views(round.calls@),
                tool_calls@.len() == i,
                forall|k: int| 0 <= k < i ==> (#[trigger] tool_calls@[k])@ == call_in(slots[k]),
            decreases round.calls@.len() - i,
        {
            let slot = &round.calls[i];
            assert(slots[i as int] == slot@);
            let id = match &slot.id {
                Some(id) => id.clone(),
                None => {
                    let mut id = "call_".to_owned();
                    id.append(digits::decimal_text(slot.index as u64).as_str());
                    id
                },
            };
            let name = match &slot.name {
                Some(name) => name.clone(),
                None => String::new(),
            };
            let arguments = match json::parse(slot.arguments.as_str()) {
                Some(v) => v,
                None => Json::empty(),
            };
            tool_calls.push(ToolCall { id, name, arguments });
            i += 1;
        }
        let r = RoundAccum {
            text: round.text,
            thinking: round.thinking,
            usage: round.usage,
            finish: round.finish,
            failed: round.failed,
            tool_calls,
        };
        assert(r@ =~= finished(self@.round));
        r
    }
}

// ---------------------------------------------------------------------------
// Laws
// ---------------------------------------------------------------------------

/// Whether what `a` holds of the reply, the reasoning and the events still stands in
/// `b`, at its front.
pub open spec fn grows(a: StepView, b: StepView) -> bool {
    &&& a.round.text.len() <= b.round.text.len()
    &&& b.round.text.take(a.round.text.len() as int) == a.round.text
    &&& a.round.thinking.len() <= b.round.thinking.len()
    &&& b.round.thinking.take(a.round.thinking.len() as int) == a.round.thinking
    &&& a.events.len() <= b.events.len()
    &&& b.events.take(a.events.len() as int) == a.events
}

/// What is kept in two steps is kept in both together.
proof fn lemma_grows_transitive(a: StepView, b: StepView, c: StepView)
    requires
        grows(a, b),
        grows(b, c),
    ensures
        grows(a, c),
{
    let n = a.round.text.len() as int;
    assert(c.round.text.take(n) =~= b.round.text.take(n)) by {
        assert(c.round.text.take(n) =~= c.round.text.take(b.round.text.len() as int).take(n));
    }
    let n = a.round.thinking.len() as int;
    assert(c.round.thinking.take(n) =~= c.round.thinking.take(b.round.thinking.len() as int).take(
        n,
    ));
    let n = a.events.len() as int;
    assert(c.events.take(n) =~= c.events.take(b.events.len() as int).take(n));
}

/// Each of the small steps keeps what there is.
proof fn lemma_small_steps_grow(s: StepView, t: Seq<char>)
    ensures
        grows(s, s),
        grows(s, said(s, t)),
        grows(s, thought(s, t)),
        grows(s, broke(s, t)),
{
    let r = s.round;
    assert(r.text.take(r.text.len() as int) =~= r.text);
    assert(r.thinking.take(r.thinking.len() as int) =~= r.thinking);
    assert(s.events.take(s.events.len() as int) =~= s.events);
    assert((r.text + t).take(r.text.len() as int) =~= r.text);
    assert((r.thinking + t).take(r.thinking.len() as int) =~= r.thinking);
    assert(s.events.push(EventView::Delta { text: t }).take(s.events.len() as int) =~= s.events);
    assert(s.events.push(EventView::ThinkingDelta { text: t }).take(s.events.len() as int)
        =~= s.events);
    assert(s.events.push(EventView::Error { message: t }).take(s.events.len() as int)
        =~= s.events);
}

/// Parts of the content keep what there is.
proof fn lemma_parts_grow(s: StepView, parts: Seq<JsonView>)
    ensures
        grows(s, parts_applied(s, parts)),
    decreases parts.len(),
{
    if parts.len() == 0 {
        lemma_small_steps_grow(s, Seq::empty());
    } else {
        let before = parts_applied(s, parts.drop_last());
        lemma_parts_grow(s, parts.drop_last());
        lemma_small_steps_grow(before, json::member_text_or_empty(parts.last(), "text"@));
        lemma_small_steps_grow(before, reasoning_in(parts.last()));
        lemma_grows_transitive(s, before, part_applied(before, parts.last()));
    }
}

/// A delta keeps what there is.
proof fn lemma_delta_grows(s: StepView, delta: JsonView)
    ensures
        grows(s, delta_applied(s, delta)),
{
    let s1 = content_applied(s, delta);
    let t = json::member_text_or_empty(delta, "reasoning_content"@);
    let s2 = thought(s1, t);
    match json::member(delta, "content"@) {
        Some(JsonView::Text(c)) => {
            lemma_small_steps_grow(s, c);
        },
        Some(JsonView::Array(parts)) => {
            lemma_parts_grow(s, parts);
        },
        _ => {
            lemma_small_steps_grow(s, Seq::empty());
        },
    }
    lemma_small_steps_grow(s1, t);
    lemma_grows_transitive(s, s1, s2);
}

/// What has come of a reply is kept, whatever comes after it: an event adds to the text
/// and the reasoning, and takes nothing away, also where it reports a failure.
pub proof fn law_partial_reply_is_kept(s: StepView, event: Seq<char>)
    ensures
        grows(s, processed(s, event).0),
{
    lemma_small_steps_grow(s, Seq::empty());
    if let Some(chunk) = json::json_parse(text::trimmed(event)) {
        match json::member_not_null(chunk, "error"@) {
            Some(err) => {
                lemma_small_steps_grow(s, error_text(err));
            },
            None => {
                let counted = match json::member_not_null(chunk, "usage"@) {
                    Some(usage) => StepView {
                        round: RoundView { usage: Some(usage), ..s.round },
                        events: s.events,
                    },
                    None => s,
                };
                if let Some(choices) = json::member_items(chunk, "choices"@) {
                    if choices.len() > 0 {
                        let choice = choices[0];
                        let delta = delta_of(choice);
                        lemma_small_steps_grow(counted, "provider error"@);
                        lemma_delta_grows(counted, delta);
                        if let Some(reason) = json::member_text(choice, "finish_reason"@) {
                            lemma_delta_grows(
                                StepView {
                                    round: RoundView { finish: Some(reason), ..counted.round },
                                    events: counted.events,
                                },
                                delta,
                            );
                        }
                    }
                }
            },
        }
    }
}

/// What is kept by a step of the stream is what was there before it, also where the
/// stream was cancelled or has failed.
pub proof fn law_stream_keeps_partial_reply(
    c: CompletionView,
    events: Seq<EventView>,
    cancelled: bool,
    arrival: ArrivalView,
)
    ensures
        ({
            let (d, sent, _) = stepped(c, events, cancelled);
            grows(
                StepView { round: c.round, events },
                StepView { round: d.round, events: sent },
            )
        }),
        ({
            let (d, sent) = received(c, events, arrival);
            grows(
                StepView { round: c.round, events },
                StepView { round: d.round, events: sent },
            )
        }),
{
    let s = StepView { round: c.round, events };
    lemma_small_steps_grow(s, Seq::empty());
    if let Some(p) = sse::next_payload(c.buf) {
        law_partial_reply_is_kept(s, p);
    }
    if let Some(p) = sse::payload(sse::lossy(sse::after_next(c.buf))) {
        law_partial_reply_is_kept(s, p);
    }
    if let ArrivalView::Failed(e) = arrival {
        lemma_small_steps_grow(s, "stream error: "@ + e);
    }
}

/// Whether the slots are in the order of their indices, each once.
pub open spec fn slots_in_order(calls: Seq<SlotView>) -> bool {
    forall|i: int, j: int|
        0 <= i < j < calls.len() ==> (#[trigger] calls[i]).index < (#[trigger] calls[j]).index
}

/// What `slot_place` returns.
proof fn lemma_slot_place(calls: Seq<SlotView>, index: u32)
    ensures
        slot_place(calls, index) <= calls.len(),
        forall|j: int| 0 <= j < slot_place(calls, index) ==> (#[trigger] calls[j]).index < index,
        slot_place(calls, index) < calls.len() ==> calls[slot_place(calls, index) as int].index
            >= index,
    decreases calls.len(),
{
    if calls.len() > 0 && calls[0].index < index {
        let t = calls.drop_first();
        lemma_slot_place(t, index);
        assert forall|j: int| 0 <= j < slot_place(calls, index) implies (#[trigger] calls[j]).index
            < index by {
            if j > 0 {
                assert(t[j - 1] == calls[j]);
            }
        }
        if slot_place(calls, index) < calls.len() {
            assert(t[slot_place(t, index) as int] == calls[slot_place(calls, index) as int]);
        }
    }
}

/// The calls of a round are kept in the order of their indices, and the fragments with
/// one index make up one call.
pub proof fn law_fragments_stay_in_order(calls: Seq<SlotView>, fragments: Seq<JsonView>)
    requires
        slots_in_order(calls),
    ensures
        slots_in_order(with_fragments(calls, fragments)),
    decreases fragments.len(),
{
    if fragments.len() > 0 {
        let before = with_fragments(calls, fragments.drop_last());
        let index = fragment_index(fragments.last());
        let p = slot_place(before, index) as int;
        law_fragments_stay_in_order(calls, fragments.drop_last());
        lemma_slot_place(before, index);
        let after = with_fragments(calls, fragments);
        let replaced = p < before.len() && before[p].index == index;
        assert forall|i: int, j: int| 0 <= i < j < after.len() implies (#[trigger] after[i]).index
            < (#[trigger] after[j]).index by {
            if replaced {
                assert(before[i].index < before[j].index);
            } else {
                let ki = if i < p {
                    i
                } else {
                    i - 1
                };
                let kj = if j < p {
                    j
                } else {
                    j - 1
                };
                if i == p {
                    if kj > p {
                        assert(before[p].index < before[kj].index);
                    }
                } else if j == p {
                    assert(before[i].index < index);
                } else {
                    assert(before[ki].index < before[kj].index);
                }
            }
        }
    }
}

/// The events that end in `b`, applied one after the other: what the round has produced
/// then, what is left of the bytes, and whether the stream is at its end. An event without
/// data does nothing.
pub open spec fn consumed(s: StepView, b: Seq<u8>) -> (StepView, Seq<u8>, bool)
    decreases b.len(),
{
    proof {
        sse::lemma_fewer(b);
    }
    match sse::first_end(b) {
        Some(_) => {
            let rest = sse::after_first(b);
            match sse::first_payload(b) {
                Some(p) => {
                    let (t, end) = processed(s, p);
                    if end {
                        (t, rest, true)
                    } else {
                        consumed(t, rest)
                    }
                },
                None => consumed(s, rest),
            }
        },
        None => (s, b, false),
    }
}

/// The events that end in `b` are the next that has a payload, and those after it.
proof fn lemma_consumed_next(s: StepView, b: Seq<u8>)
    ensures
        consumed(s, b) == match sse::next_payload(b) {
            Some(p) => {
                let (t, end) = processed(s, p);
                if end {
                    (t, sse::after_next(b), true)
                } else {
                    consumed(t, sse::after_next(b))
                }
            },
            None => (s, sse::after_next(b), false),
        },
    decreases b.len(),
{
    sse::lemma_fewer(b);
    if sse::first_end(b) is Some && sse::first_payload(b) is None {
        lemma_consumed_next(s, sse::after_first(b));
    }
}

/// Stepping a stream until it has to be read applies the events that have come.
pub proof fn law_stepping_consumes(c: CompletionView, events: Seq<EventView>)
    requires
        !c.over,
    ensures
        ({
            let (d, sent, next) = stepped(c, events, false);
            let before = consumed(StepView { round: c.round, events }, c.buf);
            let now = StepView { round: d.round, events: sent };
            &&& next == Next::Step ==> before == consumed(now, d.buf) && !d.over
            &&& next == Next::Read ==> before == (now, d.buf, false) && !d.over
        }),
{
    lemma_consumed_next(StepView { round: c.round, events }, c.buf);
}

/// It makes no difference how the network cuts a stream into pieces: reading the events
/// of `a`, and then those of `b`, is reading those of `a` and `b` together.
pub proof fn law_pieces_make_no_difference(s: StepView, a: Seq<u8>, b: Seq<u8>)
    ensures
        ({
            let (t, rest, end) = consumed(s, a);
            if end {
                consumed(s, a + b) == (t, rest + b, true)
            } else {
                consumed(s, a + b) == consumed(t, rest + b)
            }
        }),
    decreases a.len(),
{
    sse::lemma_fewer(a);
    sse::lemma_fewer(a + b);
    if sse::first_end(a) is Some {
        sse::lemma_end_stays(a, b);
        match sse::first_payload(a) {
            Some(p) => {
                let (t, end) = processed(s, p);
                if !end {
                    law_pieces_make_no_difference(t, sse::after_first(a), b);
                }
            },
            None => {
                law_pieces_make_no_difference(s, sse::after_first(a), b);
            },
        }
    }
}

/// A stream that is stepped until it has to be read or is at its end.
pub open spec fn stepped_on(c: CompletionView, events: Seq<EventView>) -> (
    CompletionView,
    Seq<EventView>,
    Next,
)
    decreases c.buf.len(),
{
    proof {
        sse::lemma_next(c.buf);
    }
    let (d, sent, next) = stepped(c, events, false);
    if next == Next::Step {
        stepped_on(d, sent)
    } else {
        (d, sent, next)
    }
}

/// Nothing that was streamed is lost: once the body is at its end, every event in it has
/// been applied in its order, and what is left behind the last empty line is applied as an
/// event too, whether or not the provider has said that it is done.
pub proof fn law_nothing_streamed_is_lost(c: CompletionView, events: Seq<EventView>)
    requires
        !c.over,
        c.closed,
    ensures
        ({
            let (d, sent, next) = stepped_on(c, events);
            let (t, rest, end) = consumed(StepView { round: c.round, events }, c.buf);
            &&& next == Next::Finish && d.over
            &&& StepView { round: d.round, events: sent } == if end {
                t
            } else {
                match sse::payload(sse::lossy(rest)) {
                    Some(last) => processed(t, last).0,
                    None => t,
                }
            }
        }),
    decreases c.buf.len(),
{
    let (d, sent, next) = stepped(c, events, false);
    sse::lemma_next(c.buf);
    lemma_consumed_next(StepView { round: c.round, events }, c.buf);
    if next == Next::Step {
        law_nothing_streamed_is_lost(d, sent);
    }
}

/// What a body ends with is not lost where it lacks its empty line, or the word that the
/// stream is done: the last event is applied as any other is, and the round is over.
pub proof fn law_last_event_is_not_lost(c: CompletionView, events: Seq<EventView>)
    requires
        !c.over,
        c.closed,
        sse::next_payload(c.buf) is None,
        sse::payload(sse::lossy(sse::after_next(c.buf))) is Some,
    ensures
        ({
            let (d, sent, next) = stepped(c, events, false);
            let last = sse::payload(sse::lossy(sse::after_next(c.buf)))->0;
            &&& StepView { round: d.round, events: sent } == processed(
                StepView { round: c.round, events },
                last,
            ).0
            &&& d.over
            &&& next == Next::Finish
        }),
{
}

/// A round that is over stays as it is, whatever is done with it.
pub proof fn law_round_that_is_over_stays(
    c: CompletionView,
    events: Seq<EventView>,
    cancelled: bool,
)
    requires
        c.over,
    ensures
        stepped(c, events, cancelled) == (c, events, Next::Finish),
{
}

// ---------------------------------------------------------------------------
// What a stream says, and what is collected of it
// ---------------------------------------------------------------------------

/// Whether a chunk reports no failure, and `delta` is what its first choice brings.
pub open spec fn carries(chunk: JsonView, delta: JsonView) -> bool {
    let choices = json::member_items(chunk, "choices"@);
    &&& json::member_not_null(chunk, "error"@) is None
    &&& choices is Some
    &&& choices->0.len() > 0
    &&& json::member_text(choices->0[0], "finish_reason"@) != Some("error"@)
    &&& json::member(choices->0[0], "delta"@) == Some(delta)
}

/// Whether a document has a text under a key, or nothing where there is none to have.
pub open spec fn has_text(v: JsonView, key: Seq<char>, t: Option<Seq<char>>) -> bool {
    match t {
        Some(t) => json::member(v, key) == Some(JsonView::Text(t)),
        None => json::member(v, key) is None,
    }
}

/// The text, or none at all.
pub open spec fn or_nothing(t: Option<Seq<char>>) -> Seq<char> {
    match t {
        Some(t) => t,
        None => Seq::empty(),
    }
}

/// A round after chunks that came one after the other.
pub open spec fn all_applied(s: StepView, chunks: Seq<JsonView>) -> StepView
    decreases chunks.len(),
{
    if chunks.len() == 0 {
        s
    } else {
        applied(all_applied(s, chunks.drop_last()), chunks.last()).0
    }
}

/// A chunk adds to the reply the text that it brings, and to the reasoning what it brings
/// of that, and sends both on, the text first. Neither depends on what came before.
pub proof fn law_delta_is_collected(
    s: StepView,
    chunk: JsonView,
    delta: JsonView,
    content: Option<Seq<char>>,
    reasoning: Option<Seq<char>>,
)
    requires
        carries(chunk, delta),
        has_text(delta, "content"@, content),
        has_text(delta, "reasoning_content"@, reasoning),
    ensures
        ({
            let (t, end) = applied(s, chunk);
            let said = or_nothing(content);
            let thought = or_nothing(reasoning);
            let e1 = if said.len() == 0 {
                s.events
            } else {
                s.events.push(EventView::Delta { text: said })
            };
            let e2 = if thought.len() == 0 {
                e1
            } else {
                e1.push(EventView::ThinkingDelta { text: thought })
            };
            &&& t.round.text == s.round.text + said
            &&& t.round.thinking == s.round.thinking + thought
            &&& t.events == e2
            &&& t.round.failed == s.round.failed
            &&& !end
        }),
{
    let said = or_nothing(content);
    let thought = or_nothing(reasoning);
    assert(s.round.text + Seq::<char>::empty() =~= s.round.text);
    assert(s.round.thinking + Seq::<char>::empty() =~= s.round.thinking);
    if said.len() == 0 {
        assert(said =~= Seq::<char>::empty());
    }
    if thought.len() == 0 {
        assert(thought =~= Seq::<char>::empty());
    }
}

/// The reply is what the chunks bring of it, one after the other, and so is the reasoning:
/// nothing is left out, and nothing is said twice.
pub proof fn law_stream_is_collected(
    s: StepView,
    chunks: Seq<JsonView>,
    deltas: Seq<JsonView>,
    contents: Seq<Option<Seq<char>>>,
    reasonings: Seq<Option<Seq<char>>>,
)
    requires
        chunks.len() == deltas.len() == contents.len() == reasonings.len(),
        forall|i: int|
            0 <= i < chunks.len() ==> carries(#[trigger] chunks[i], deltas[i]) && has_text(
                deltas[i],
                "content"@,
                contents[i],
            ) && has_text(deltas[i], "reasoning_content"@, reasonings[i]),
    ensures
        ({
            let t = all_applied(s, chunks);
            &&& t.round.text == s.round.text + contents.map_values(
                |t: Option<Seq<char>>| or_nothing(t),
            ).flatten()
            &&& t.round.thinking == s.round.thinking + reasonings.map_values(
                |t: Option<Seq<char>>| or_nothing(t),
            ).flatten()
        }),
    decreases chunks.len(),
{
    let f = |t: Option<Seq<char>>| or_nothing(t);
    let cs = contents.map_values(f);
    let rs = reasonings.map_values(f);
    if chunks.len() == 0 {
        assert(s.round.text + cs.flatten() =~= s.round.text);
        assert(s.round.thinking + rs.flatten() =~= s.round.thinking);
    } else {
        let n = chunks.len() - 1;
        law_stream_is_collected(
            s,
            chunks.drop_last(),
            deltas.drop_last(),
            contents.drop_last(),
            reasonings.drop_last(),
        );
        let before = all_applied(s, chunks.drop_last());
        assert(carries(chunks[n], deltas[n]));
        law_delta_is_collected(before, chunks[n], deltas[n], contents[n], reasonings[n]);
        assert(contents.drop_last().map_values(f) =~= cs.drop_last());
        assert(reasonings.drop_last().map_values(f) =~= rs.drop_last());
        lemma_flatten_last(cs);
        lemma_flatten_last(rs);
        assert(all_applied(s, chunks).round.text =~= s.round.text + cs.flatten());
        assert(all_applied(s, chunks).round.thinking =~= s.round.thinking + rs.flatten());
    }
}

/// The last of several sequences comes at the end of them all.
proof fn lemma_flatten_last<T>(s: Seq<Seq<T>>)
    requires
        s.len() > 0,
    ensures
        s.flatten() == s.drop_last().flatten() + s.last(),
{
    s.lemma_flatten_and_flatten_alt_are_equivalent();
    s.drop_last().lemma_flatten_and_flatten_alt_are_equivalent();
}

/// What kind of part a document is: text, reasoning, or something else.
pub enum PartKind {
    Said,
    Thought,
    Other,
}

/// Whether a part of the content is of a kind, with a text that it brings.
pub open spec fn is_part(part: JsonView, kind: PartKind, t: Seq<char>) -> bool {
    let named = json::member_text(part, "type"@);
    match kind {
        PartKind::Said => (named == Some("text"@) || named == Some("output_text"@)) && json::member(
            part,
            "text"@,
        ) == Some(JsonView::Text(t)),
        PartKind::Thought => (named == Some("thinking"@) || named == Some("reasoning"@) || named
            == Some("reasoning_content"@)) && (json::member(part, "text"@) == Some(
            JsonView::Text(t),
        ) || (json::member(part, "text"@) is None && json::member(part, "thinking"@) == Some(
            JsonView::Text(t),
        ))),
        PartKind::Other => named != Some("text"@) && named != Some("output_text"@) && named != Some(
            "thinking"@,
        ) && named != Some("reasoning"@) && named != Some("reasoning_content"@),
    }
}

/// What a part adds to the reply.
pub open spec fn said_by(kind: PartKind, t: Seq<char>) -> Seq<char> {
    if kind is Said {
        t
    } else {
        Seq::empty()
    }
}

/// What a part adds to the reasoning.
pub open spec fn thought_by(kind: PartKind, t: Seq<char>) -> Seq<char> {
    if kind is Thought {
        t
    } else {
        Seq::empty()
    }
}

/// What is sent on of a part.
pub open spec fn sent_by(kind: PartKind, t: Seq<char>) -> Seq<EventView> {
    if t.len() == 0 || kind is Other {
        Seq::empty()
    } else if kind is Said {
        seq![EventView::Delta { text: t }]
    } else {
        seq![EventView::ThinkingDelta { text: t }]
    }
}

/// Content that comes in parts is collected part by part: text goes to the reply,
/// reasoning to the reasoning, and both are sent on in the order of the parts. What is
/// neither is passed over.
pub proof fn law_parts_are_collected(
    s: StepView,
    chunk: JsonView,
    delta: JsonView,
    parts: Seq<JsonView>,
    kinds: Seq<PartKind>,
    ts: Seq<Seq<char>>,
)
    requires
        carries(chunk, delta),
        json::member(delta, "content"@) == Some(JsonView::Array(parts)),
        json::member(delta, "reasoning_content"@) is None,
        parts.len() == kinds.len() == ts.len(),
        forall|i: int| 0 <= i < parts.len() ==> is_part(#[trigger] parts[i], kinds[i], ts[i]),
    ensures
        ({
            let (t, end) = applied(s, chunk);
            let n = parts.len();
            &&& t.round.text == s.round.text + Seq::new(
                n,
                |i: int| said_by(kinds[i], ts[i]),
            ).flatten()
            &&& t.round.thinking == s.round.thinking + Seq::new(
                n,
                |i: int| thought_by(kinds[i], ts[i]),
            ).flatten()
            &&& t.events == s.events + Seq::new(n, |i: int| sent_by(kinds[i], ts[i])).flatten()
            &&& !end
        }),
{
    let choice = json::member_items(chunk, "choices"@)->0[0];
    let counted = match json::member_not_null(chunk, "usage"@) {
        Some(usage) => StepView {
            round: RoundView { usage: Some(usage), ..s.round },
            events: s.events,
        },
        None => s,
    };
    let start = match json::member_text(choice, "finish_reason"@) {
        Some(reason) => if reason.len() > 0 {
            StepView {
                round: RoundView { finish: Some(reason), ..counted.round },
                events: counted.events,
            }
        } else {
            counted
        },
        None => counted,
    };
    assert(applied(s, chunk) == (delta_applied(start, delta), false));
    lemma_parts_collected(start, parts, kinds, ts);
}

/// The parts of a content, one after the other.
proof fn lemma_parts_collected(
    s: StepView,
    parts: Seq<JsonView>,
    kinds: Seq<PartKind>,
    ts: Seq<Seq<char>>,
)
    requires
        parts.len() == kinds.len() == ts.len(),
        forall|i: int| 0 <= i < parts.len() ==> is_part(#[trigger] parts[i], kinds[i], ts[i]),
    ensures
        ({
            let t = parts_applied(s, parts);
            let n = parts.len();
            &&& t.round.text == s.round.text + Seq::new(
                n,
                |i: int| said_by(kinds[i], ts[i]),
            ).flatten()
            &&& t.round.thinking == s.round.thinking + Seq::new(
                n,
                |i: int| thought_by(kinds[i], ts[i]),
            ).flatten()
            &&& t.events == s.events + Seq::new(n, |i: int| sent_by(kinds[i], ts[i])).flatten()
        }),
    decreases parts.len(),
{
    let n = parts.len();
    let a = Seq::new(n, |i: int| said_by(kinds[i], ts[i]));
    let b = Seq::new(n, |i: int| thought_by(kinds[i], ts[i]));
    let c = Seq::new(n, |i: int| sent_by(kinds[i], ts[i]));
    let t = parts_applied(s, parts);
    if n == 0 {
        assert(s.round.text + a.flatten() =~= s.round.text);
        assert(s.round.thinking + b.flatten() =~= s.round.thinking);
        assert(s.events + c.flatten() =~= s.events);
    } else {
        let last = (n - 1) as int;
        let front = parts.drop_last();
        let k = kinds.drop_last();
        let u = ts.drop_last();
        assert forall|i: int| 0 <= i < front.len() implies is_part(
            #[trigger] front[i],
            k[i],
            u[i],
        ) by {
            assert(is_part(parts[i], kinds[i], ts[i]));
        }
        lemma_parts_collected(s, front, k, u);
        assert(Seq::new((n - 1) as nat, |i: int| said_by(k[i], u[i])) =~= a.drop_last());
        assert(Seq::new((n - 1) as nat, |i: int| thought_by(k[i], u[i])) =~= b.drop_last());
        assert(Seq::new((n - 1) as nat, |i: int| sent_by(k[i], u[i])) =~= c.drop_last());
        lemma_flatten_last(a);
        lemma_flatten_last(b);
        lemma_flatten_last(c);
        let before = parts_applied(s, front);
        assert(is_part(parts[last], kinds[last], ts[last]));
        lemma_part_words();
        if ts[last].len() == 0 {
            assert(ts[last] =~= Seq::<char>::empty());
        }
        assert(t.round.text =~= before.round.text + said_by(kinds[last], ts[last]));
        assert(t.round.thinking =~= before.round.thinking + thought_by(kinds[last], ts[last]));
        assert(t.events =~= before.events + sent_by(kinds[last], ts[last]));
        assert(t.round.text =~= s.round.text + a.flatten());
        assert(t.round.thinking =~= s.round.thinking + b.flatten());
        assert(t.events =~= s.events + c.flatten());
    }
}

/// The words for text are not those for reasoning.
proof fn lemma_part_words()
    ensures
        "text"@ != "thinking"@ && "text"@ != "reasoning"@ && "text"@ != "reasoning_content"@,
        "output_text"@ != "thinking"@ && "output_text"@ != "reasoning"@ && "output_text"@
            != "reasoning_content"@,
{
    reveal_strlit("text");
    reveal_strlit("output_text");
    reveal_strlit("thinking");
    reveal_strlit("reasoning");
    reveal_strlit("reasoning_content");
    assert("text"@.len() == 4 && "output_text"@.len() == 11 && "thinking"@.len() == 8
        && "reasoning"@.len() == 9 && "reasoning_content"@.len() == 17);
}

/// Whether there is just one call with an index, and what has come of it.
pub open spec fn holds(
    calls: Seq<SlotView>,
    index: u32,
    id: Option<Seq<char>>,
    name: Option<Seq<char>>,
    arguments: Seq<char>,
) -> bool {
    exists|p: int|
        0 <= p < calls.len() && #[trigger] calls[p] == (SlotView { index, id, name, arguments })
}

/// Whether nothing has come of a call with an index.
pub open spec fn lacks(calls: Seq<SlotView>, index: u32) -> bool {
    forall|p: int| 0 <= p < calls.len() ==> (#[trigger] calls[p]).index != index
}

/// Whether a fragment is one of the call with an index, and brings a piece of its arguments.
pub open spec fn is_fragment(
    fragment: JsonView,
    index: u32,
    id: Option<Seq<char>>,
    name: Option<Seq<char>>,
    arguments: Option<Seq<char>>,
) -> bool {
    &&& match json::member_u64(fragment, "index"@) {
        Some(i) => i == index,
        None => index == 0,
    }
    &&& json::member_text(fragment, "id"@) == id
    &&& match json::member(fragment, "function"@) {
        Some(f) => json::member_text(f, "name"@) == name && json::member_text(f, "arguments"@)
            == arguments,
        None => name is None && arguments is None,
    }
}

/// The first where there is one, else the second.
pub open spec fn or_else(a: Option<Seq<char>>, b: Option<Seq<char>>) -> Option<Seq<char>> {
    match a {
        Some(x) => Some(x),
        None => b,
    }
}

/// A fragment goes to the call with its index: the piece of the arguments comes after those
/// before it, and an id or a name that it brings is that of the call from now on. The other
/// calls are as they were, and what was said is.
pub proof fn law_fragment_goes_to_its_call(
    s: StepView,
    chunk: JsonView,
    delta: JsonView,
    fragment: JsonView,
    index: u32,
    id: Option<Seq<char>>,
    name: Option<Seq<char>>,
    arguments: Option<Seq<char>>,
    old_id: Option<Seq<char>>,
    old_name: Option<Seq<char>>,
    old_arguments: Seq<char>,
)
    requires
        slots_in_order(s.round.calls),
        carries(chunk, delta),
        json::member(delta, "tool_calls"@) == Some(JsonView::Array(seq![fragment])),
        json::member(delta, "content"@) is None,
        json::member(delta, "reasoning_content"@) is None,
        is_fragment(fragment, index, id, name, arguments),
        holds(s.round.calls, index, old_id, old_name, old_arguments) || (lacks(
            s.round.calls,
            index,
        ) && old_id is None && old_name is None && old_arguments == Seq::<char>::empty()),
    ensures
        ({
            let (t, end) = applied(s, chunk);
            &&& slots_in_order(t.round.calls)
            &&& holds(
                t.round.calls,
                index,
                or_else(id, old_id),
                or_else(name, old_name),
                old_arguments + or_nothing(arguments),
            )
            &&& forall|other: SlotView|
                other.index != index ==> (#[trigger] t.round.calls.contains(other)
                    == s.round.calls.contains(other))
            &&& t.round.text == s.round.text
            &&& t.round.thinking == s.round.thinking
            &&& t.events == s.events
            &&& !end
        }),
{
    let calls = s.round.calls;
    let fragments = seq![fragment];
    let after = with_fragments(calls, fragments);
    assert(fragments.drop_last() =~= Seq::<JsonView>::empty());
    assert(with_fragments(calls, fragments.drop_last()) == calls);
    assert(after == with_fragment(calls, fragment));
    law_fragments_stay_in_order(calls, fragments);
    assert(applied(s, chunk).0.round.calls == after);
    assert(fragment_index(fragment) == index);
    let p = slot_place(calls, index) as int;
    lemma_slot_place(calls, index);
    let replaced = p < calls.len() && calls[p].index == index;
    let new = SlotView {
        index,
        id: or_else(id, old_id),
        name: or_else(name, old_name),
        arguments: old_arguments + or_nothing(arguments),
    };
    assert(old_arguments + Seq::<char>::empty() =~= old_arguments);
    if replaced {
        assert(!lacks(calls, index));
        let q = choose|q: int|
            0 <= q < calls.len() && #[trigger] calls[q] == (SlotView {
                index,
                id: old_id,
                name: old_name,
                arguments: old_arguments,
            });
        assert(q == p) by {
            if q < p {
                assert(calls[q].index < calls[p].index);
            } else if p < q {
                assert(calls[p].index < calls[q].index);
            }
        }
    } else {
        assert(lacks(calls, index)) by {
            assert forall|q: int| 0 <= q < calls.len() implies (#[trigger] calls[q]).index
                != index by {
                if q > p {
                    assert(calls[p].index < calls[q].index);
                }
            }
        }
    }
    assert(after[p] == new);
    assert forall|other: SlotView| other.index != index implies (#[trigger] after.contains(other)
        == calls.contains(other)) by {
        if calls.contains(other) {
            let k = choose|k: int| 0 <= k < calls.len() && calls[k] == other;
            let j = if replaced || k < p {
                k
            } else {
                k + 1
            };
            assert(after[j] == other);
        }
        if after.contains(other) {
            let j = choose|j: int| 0 <= j < after.len() && after[j] == other;
            let k = if replaced || j < p {
                j
            } else {
                j - 1
            };
            assert(calls[k] == other);
        }
    }
}

/// Fragments that come in one chunk do the same as if they came in two.
pub proof fn law_fragments_may_come_together(calls: Seq<SlotView>, a: Seq<JsonView>, b: Seq<JsonView>)
    ensures
        with_fragments(calls, a + b) == with_fragments(with_fragments(calls, a), b),
    decreases b.len(),
{
    if b.len() == 0 {
        assert(a + b =~= a);
    } else {
        assert((a + b).drop_last() =~= a + b.drop_last());
        assert((a + b).last() == b.last());
        law_fragments_may_come_together(calls, a, b.drop_last());
    }
}

/// Whether a chunk brings one fragment of a call, and nothing else.
pub open spec fn brings(
    chunk: JsonView,
    index: u32,
    id: Option<Seq<char>>,
    name: Option<Seq<char>>,
    arguments: Seq<char>,
) -> bool {
    exists|delta: JsonView, fragment: JsonView|
        {
            &&& #[trigger] carries(chunk, delta)
            &&& json::member(delta, "tool_calls"@) == Some(JsonView::Array(seq![fragment]))
            &&& json::member(delta, "content"@) is None
            &&& json::member(delta, "reasoning_content"@) is None
            &&& #[trigger] is_fragment(fragment, index, id, name, Some(arguments))
        }
}

/// The arguments of a call are the pieces that are streamed of them, in their order: however
/// a text is cut, it is whole when the round is over. Where it is JSON, the call has the
/// arguments that it says.
pub proof fn law_arguments_are_put_together(
    s: StepView,
    chunks: Seq<JsonView>,
    index: u32,
    id: Seq<char>,
    name: Seq<char>,
    pieces: Seq<Seq<char>>,
)
    requires
        slots_in_order(s.round.calls),
        lacks(s.round.calls, index),
        chunks.len() == pieces.len() > 0,
        brings(chunks[0], index, Some(id), Some(name), pieces[0]),
        forall|i: int|
            0 < i < chunks.len() ==> brings(#[trigger] chunks[i], index, None, None, pieces[i]),
    ensures
        ({
            let t = all_applied(s, chunks);
            let calls = finished(t.round).tool_calls;
            &&& slots_in_order(t.round.calls)
            &&& holds(t.round.calls, index, Some(id), Some(name), pieces.flatten())
            &&& json::json_parse(pieces.flatten()) matches Some(v) ==> calls.contains(
                (CallView { id, name, arguments: v }),
            )
        }),
    decreases chunks.len(),
{
    let n = chunks.len() - 1;
    let front = chunks.drop_last();
    let before = all_applied(s, front);
    lemma_flatten_last(pieces);
    let (old_id, old_name, old_arguments) = if n == 0 {
        (None, None, Seq::<char>::empty())
    } else {
        (Some(id), Some(name), pieces.drop_last().flatten())
    };
    let (new_id, new_name) = if n == 0 {
        (Some(id), Some(name))
    } else {
        (None, None)
    };
    if n > 0 {
        assert forall|i: int| 0 < i < front.len() implies brings(
            #[trigger] front[i],
            index,
            None,
            None,
            pieces.drop_last()[i],
        ) by {
            assert(brings(chunks[i], index, None, None, pieces[i]));
        }
        law_arguments_are_put_together(s, front, index, id, name, pieces.drop_last());
    } else {
        assert(pieces.drop_last().flatten() =~= Seq::<char>::empty());
    }
    assert(brings(chunks[n], index, new_id, new_name, pieces[n]));
    let (delta, fragment) = choose|delta: JsonView, fragment: JsonView|
        {
            &&& #[trigger] carries(chunks[n], delta)
            &&& json::member(delta, "tool_calls"@) == Some(JsonView::Array(seq![fragment]))
            &&& json::member(delta, "content"@) is None
            &&& json::member(delta, "reasoning_content"@) is None
            &&& #[trigger] is_fragment(fragment, index, new_id, new_name, Some(pieces[n]))
        };
    law_fragment_goes_to_its_call(
        before,
        chunks[n],
        delta,
        fragment,
        index,
        new_id,
        new_name,
        Some(pieces[n]),
        old_id,
        old_name,
        old_arguments,
    );
    let t = all_applied(s, chunks);
    assert(holds(t.round.calls, index, Some(id), Some(name), pieces.flatten()));
    let p = choose|p: int|
        0 <= p < t.round.calls.len() && #[trigger] t.round.calls[p] == (SlotView {
            index,
            id: Some(id),
            name: Some(name),
            arguments: pieces.flatten(),
        });
    assert(finished(t.round).tool_calls[p] == call_in(t.round.calls[p]));
}

/// What a round has produced is handed over as it is, with a call for each that was
/// streamed. A call without an id is called by its index, one without a name has an empty
/// one, and arguments that are no JSON are taken for none.
pub proof fn law_round_is_handed_over(r: RoundView, i: int)
    requires
        0 <= i < r.calls.len(),
    ensures
        ({
            let a = finished(r);
            &&& a.text == r.text && a.thinking == r.thinking && a.usage == r.usage
            &&& a.finish == r.finish && a.failed == r.failed
            &&& a.tool_calls.len() == r.calls.len()
            &&& r.calls[i].id matches Some(id) ==> a.tool_calls[i].id == id
            &&& r.calls[i].id is None ==> a.tool_calls[i].id == "call_"@ + digits::decimal(
                r.calls[i].index as nat,
            )
            &&& r.calls[i].name matches Some(name) ==> a.tool_calls[i].name == name
            &&& r.calls[i].name is None ==> a.tool_calls[i].name.len() == 0
            &&& json::json_parse(r.calls[i].arguments) matches Some(v)
                ==> a.tool_calls[i].arguments == v
            &&& json::json_parse(r.calls[i].arguments) is None ==> a.tool_calls[i].arguments
                == JsonView::Object(Seq::empty())
        }),
{
}

/// A failure that the provider reports ends the stream: it is told in the provider's own
/// words, and what was said before is kept.
pub proof fn law_reported_failure_is_told(s: StepView, chunk: JsonView, error: JsonView)
    requires
        json::member(chunk, "error"@) == Some(error),
        error !is Null,
    ensures
        ({
            let (t, end) = applied(s, chunk);
            &&& end
            &&& t.round == (RoundView { failed: true, ..s.round })
            &&& t.events.len() == s.events.len() + 1
            &&& t.events.drop_last() == s.events
            &&& error matches JsonView::Text(m) ==> t.events.last() == (EventView::Error {
                message: m,
            })
            &&& json::member(error, "message"@) matches Some(JsonView::Text(m)) ==> t.events.last()
                == (EventView::Error { message: m })
            &&& error !is Text && json::member_text(error, "message"@) is None ==> t.events.last()
                == (EventView::Error { message: json::written(error) })
        }),
{
    assert(s.events.push(EventView::Error { message: error_text(error) }).drop_last() =~= s.events);
}

/// A reason to finish is kept, the last that came, unless it is empty; where it is a
/// failure, the round has failed and the stream ends.
pub proof fn law_reason_to_finish_is_kept(s: StepView, chunk: JsonView, choices: Seq<JsonView>)
    requires
        json::member_not_null(chunk, "error"@) is None,
        json::member(chunk, "choices"@) == Some(JsonView::Array(choices)),
        choices.len() > 0,
    ensures
        ({
            let (t, end) = applied(s, chunk);
            let reason = json::member_text(choices[0], "finish_reason"@);
            &&& reason == Some("error"@) ==> end && t.round.failed && t.round.text == s.round.text
                && t.events == s.events.push(EventView::Error { message: "provider error"@ })
            &&& reason != Some("error"@) ==> !end && t.round.failed == s.round.failed
            &&& reason != Some("error"@) && reason is Some && reason->0.len() > 0
                ==> t.round.finish == reason
            &&& reason is None || reason->0.len() == 0 ==> t.round.finish == s.round.finish
        }),
{
    reveal_strlit("error");
    lemma_delta_keeps(s, chunk, choices);
}

/// What a delta leaves alone.
proof fn lemma_delta_keeps(s: StepView, chunk: JsonView, choices: Seq<JsonView>)
    requires
        json::member_not_null(chunk, "error"@) is None,
        json::member(chunk, "choices"@) == Some(JsonView::Array(choices)),
        choices.len() > 0,
    ensures
        forall|u: StepView|
            {
                let t = #[trigger] delta_applied(u, delta_of(choices[0]));
                t.round.finish == u.round.finish && t.round.failed == u.round.failed
                    && t.round.usage == u.round.usage
            },
{
    let delta = delta_of(choices[0]);
    assert forall|u: StepView|
        {
            let t = #[trigger] delta_applied(u, delta);
            t.round.finish == u.round.finish && t.round.failed == u.round.failed && t.round.usage
                == u.round.usage
        } by {
        if let Some(JsonView::Array(parts)) = json::member(delta, "content"@) {
            lemma_parts_keep(u, parts);
        }
    }
}

/// What parts leave alone.
proof fn lemma_parts_keep(s: StepView, parts: Seq<JsonView>)
    ensures
        parts_applied(s, parts).round.finish == s.round.finish,
        parts_applied(s, parts).round.failed == s.round.failed,
        parts_applied(s, parts).round.usage == s.round.usage,
        parts_applied(s, parts).round.calls == s.round.calls,
    decreases parts.len(),
{
    if parts.len() > 0 {
        lemma_parts_keep(s, parts.drop_last());
    }
}

/// The counts that a chunk brings are those of the round, also where it brings nothing else;
/// a chunk without counts leaves them alone.
pub proof fn law_counts_are_kept(s: StepView, chunk: JsonView)
    requires
        json::member_not_null(chunk, "error"@) is None,
    ensures
        json::member(chunk, "usage"@) matches Some(u) ==> u !is Null ==> applied(
            s,
            chunk,
        ).0.round.usage == Some(u),
        json::member_not_null(chunk, "usage"@) is None ==> applied(s, chunk).0.round.usage
            == s.round.usage,
        json::member_items(chunk, "choices"@) is None ==> applied(s, chunk).0.round.text
            == s.round.text && !applied(s, chunk).1,
{
    if let Some(choices) = json::member_items(chunk, "choices"@) {
        if choices.len() > 0 {
            lemma_delta_keeps(s, chunk, choices);
        }
    }
}

/// An event that is JSON is applied as the chunk that it says, white space around it or
/// not; the word that the stream is done ends it; anything else does nothing.
pub proof fn law_events_are_read(s: StepView, event: Seq<char>)
    ensures
        text::trimmed(event) == "[DONE]"@ ==> processed(s, event) == (s, true),
        text::trimmed(event) != "[DONE]"@ ==> (json::json_parse(text::trimmed(event)) matches Some(
            chunk,
        ) ==> processed(s, event) == applied(s, chunk)),
        text::trimmed(event) != "[DONE]"@ && json::json_parse(text::trimmed(event)) is None
            ==> processed(s, event) == (s, false),
{
}

/// What comes from the network is kept until it is an event: bytes come after those before
/// them, the end is noted, and a failure is told and ends the round with what there is.
pub proof fn law_arrivals_are_noted(
    c: CompletionView,
    events: Seq<EventView>,
    bytes: Seq<u8>,
    error: Seq<char>,
)
    ensures
        received(c, events, ArrivalView::Bytes(bytes)) == (
            CompletionView { buf: c.buf + bytes, ..c },
            events,
        ),
        received(c, events, ArrivalView::Closed) == (CompletionView { closed: true, ..c }, events),
        ({
            let (d, sent) = received(c, events, ArrivalView::Failed(error));
            &&& d.over
            &&& d.round == (RoundView { failed: true, ..c.round })
            &&& sent == events.push(EventView::Error { message: "stream error: "@ + error })
        }),
{
}

/// A stream that was cancelled stops where it is: no further event is applied or sent.
pub proof fn law_cancelled_stream_stops(c: CompletionView, events: Seq<EventView>)
    ensures
        ({
            let (d, sent, next) = stepped(c, events, true);
            d.round == c.round && sent == events && next == Next::Finish && d.over
        }),
{
}

} // verus!
